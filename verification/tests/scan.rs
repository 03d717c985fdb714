//! Scans of a file system in memory.
use std::collections::BTreeMap;
use std::sync::Arc;
use worktree::char_bag::CharBag;
use worktree::entry::{Entry, EntryKind, Metadata};
use worktree::events::{paths_to_look_at, FsEvent};
use worktree::ids::WorktreeId;
use worktree::local_snapshot::LocalSnapshot;
use worktree::local_worktree::{Event, FsAction, LocalWorktree, ScanState};
use worktree::path::Path;
use worktree::proto::{LineEnding, Timestamp};
use worktree::scanner::{DirChild, ScanJob};
use worktree::snapshot::Snapshot;

struct Node {
    is_dir: bool,
    inode: u64,
    mtime: u64,
    contents: String,
    target: Option<String>,
}

struct MemFs {
    nodes: BTreeMap<String, Node>,
    next_inode: u64,
    clock: u64,
    events: Vec<String>,
    repos: u64,
}

fn join(dir: &str, name: &str) -> String {
    format!("{}/{}", dir, name)
}

fn parent_of(path: &str) -> String {
    let i: usize = path.rfind('/').unwrap();
    path[..i].to_string()
}

fn is_below(path: &str, dir: &str) -> bool {
    path == dir || path.starts_with(&join(dir, ""))
}

impl MemFs {
    fn new(root: &str) -> Self {
        let mut fs = MemFs {
            nodes: BTreeMap::new(),
            next_inode: 1,
            clock: 100,
            events: Vec::new(),
            repos: 0,
        };
        fs.dir(root);
        fs
    }

    fn node(&mut self, path: &str, is_dir: bool, contents: &str, target: Option<String>) {
        let inode: u64 = match self.nodes.get(path) {
            Some(node) => node.inode,
            None => {
                self.next_inode += 1;
                self.next_inode
            }
        };
        self.clock += 1;
        let node = Node {
            is_dir,
            inode,
            mtime: self.clock,
            contents: contents.to_string(),
            target,
        };
        self.nodes.insert(path.to_string(), node);
        self.events.push(path.to_string());
    }

    fn dir(&mut self, path: &str) {
        self.node(path, true, "", None);
    }

    fn file(&mut self, path: &str, contents: &str) {
        self.node(path, false, contents, None);
    }

    fn link(&mut self, path: &str, target: &str) {
        self.node(path, true, "", Some(target.to_string()));
    }

    fn remove(&mut self, path: &str) {
        let gone: Vec<String> = self
            .nodes
            .keys()
            .filter(|p| is_below(p, path))
            .cloned()
            .collect();
        for p in gone {
            self.nodes.remove(&p);
            self.events.push(p);
        }
    }

    fn rename(&mut self, from: &str, to: &str) {
        let moved: Vec<String> = self
            .nodes
            .keys()
            .filter(|p| is_below(p, from))
            .cloned()
            .collect();
        for p in moved {
            let node = self.nodes.remove(&p).unwrap();
            let q: String = format!("{}{}", to, &p[from.len()..]);
            self.nodes.insert(q, node);
        }
        self.events.push(from.to_string());
        self.events.push(to.to_string());
    }

    // The path with its links resolved.
    fn resolve(&self, path: &str) -> String {
        let mut done: String = String::new();
        for name in path.split('/').skip(1) {
            done = join(&done, name);
            if let Some(node) = self.nodes.get(&done) {
                if let Some(target) = &node.target {
                    done = target.clone();
                }
            }
        }
        done
    }

    fn metadata(&self, path: &str) -> Option<Metadata> {
        let dir: String = self.resolve(&parent_of(path));
        let name: &str = &path[path.rfind('/').unwrap() + 1..];
        let here = self.nodes.get(&join(&dir, name))?;
        let node = match &here.target {
            Some(target) => self.nodes.get(target)?,
            None => here,
        };
        Some(Metadata {
            inode: node.inode,
            mtime: Timestamp {
                seconds: node.mtime,
                nanos: 0,
            },
            is_symlink: here.target.is_some(),
            is_dir: node.is_dir,
        })
    }

    fn contents(&self, path: &str) -> Option<String> {
        let node = self.nodes.get(&self.resolve(path))?;
        if node.is_dir {
            None
        } else {
            Some(node.contents.clone())
        }
    }

    fn children(&self, path: &str) -> Vec<DirChild> {
        let dir: String = self.resolve(path);
        let mut children: Vec<DirChild> = Vec::new();
        for p in self.nodes.keys() {
            if p.contains('/') && parent_of(p) == dir {
                let name: String = p[dir.len() + 1..].to_string();
                let child_path: String = join(path, &name);
                children.push(DirChild {
                    metadata: self.metadata(&child_path),
                    contents: self.contents(&child_path),
                    name,
                });
            }
        }
        children
    }
}

fn arc(text: &str) -> Arc<Path> {
    Arc::new(Path::new(text))
}

fn read_jobs(l: &mut LocalSnapshot, fs: &mut MemFs, jobs: Vec<ScanJob>, next_id: &mut usize) {
    let mut jobs = jobs;
    while let Some(job) = jobs.pop() {
        if let Some(entry) = l.snapshot().entry_for_path(&job.path) {
            assert_eq!(entry.kind, EntryKind::PendingDir);
        }
        let repo: Option<u64> = match l.repo_to_open(&job.path) {
            Some(_) => {
                fs.repos += 1;
                Some(fs.repos)
            }
            None => None,
        };
        let children = fs.children(job.abs_path.as_str());
        let new_jobs = l.scan_dir(next_id, &job, children, repo);
        jobs.extend(new_jobs);
    }
}

fn scan(l: &mut LocalSnapshot, fs: &mut MemFs, next_id: &mut usize) {
    let above: Vec<Option<String>> = l
        .ignore_files_above()
        .iter()
        .map(|p| fs.contents(p.as_str()))
        .collect();
    if let Some(job) = l.begin_scan(&above) {
        read_jobs(l, fs, vec![job], next_id);
        l.scan_completed();
    }
}

fn process_events(l: &mut LocalSnapshot, fs: &mut MemFs, next_id: &mut usize) {
    let paths: Vec<Arc<Path>> = fs.events.drain(..).map(|p| arc(&p)).collect();
    process_paths(l, fs, paths, next_id);
}

fn process_paths(
    l: &mut LocalSnapshot,
    fs: &mut MemFs,
    paths: Vec<Arc<Path>>,
    next_id: &mut usize,
) {
    l.scan_started();
    let root = l.snapshot().abs_path().clone();
    let mut events: Vec<FsEvent> = Vec::new();
    for path in paths_to_look_at(paths) {
        events.push(FsEvent {
            metadata: fs.metadata(path.as_str()),
            contents: fs.contents(path.as_str()),
            path,
        });
    }
    let outcomes = l.apply_events(&root, &events, next_id);
    let mut jobs: Vec<ScanJob> = Vec::new();
    for outcome in outcomes {
        jobs.extend(outcome.job);
    }
    read_jobs(l, fs, jobs, next_id);
    assert!(l.snapshot().is_listed());
    l.finish_events();
}

fn open(fs: &MemFs, root: &str, next_id: &mut usize) -> LocalWorktree {
    LocalWorktree::create(
        WorktreeId::from_usize(0),
        arc(root),
        true,
        fs.metadata(root),
        next_id,
    )
}

fn scanned(fs: &mut MemFs, root: &str, next_id: &mut usize) -> LocalWorktree {
    let mut tree = open(fs, root, next_id);
    scan(tree.background_snapshot_mut(), fs, next_id);
    fs.events.clear();
    tree.set_scan_state(ScanState::Idle);
    tree.poll_snapshot(false);
    tree
}

fn paths(snapshot: &Snapshot, include_ignored: bool) -> Vec<String> {
    let mut walk = snapshot.entries(include_ignored);
    let mut paths: Vec<String> = Vec::new();
    while let Some(entry) = walk.next() {
        paths.push(entry.path.as_str().to_string());
    }
    paths
}

fn is_ignored(l: &LocalSnapshot, path: &str) -> bool {
    l.snapshot()
        .entry_for_path(&Path::new(path))
        .unwrap()
        .is_ignored
}

#[test]
fn test_traversal() {
    let mut fs = MemFs::new("/root");
    fs.file("/root/.gitignore", "a/b\n");
    fs.dir("/root/a");
    fs.file("/root/a/b", "");
    fs.file("/root/a/c", "");
    let mut next_id: usize = 0;
    let tree = scanned(&mut fs, "/root", &mut next_id);
    assert_eq!(
        paths(tree.current().snapshot(), false),
        vec!["", ".gitignore", "a", "a/c"]
    );
    assert_eq!(
        paths(tree.current().snapshot(), true),
        vec!["", ".gitignore", "a", "a/b", "a/c"]
    );
}

#[test]
fn test_circular_symlinks() {
    let mut fs = MemFs::new("/root");
    fs.dir("/root/lib");
    fs.dir("/root/lib/a");
    fs.file("/root/lib/a/a.txt", "");
    fs.dir("/root/lib/b");
    fs.file("/root/lib/b/b.txt", "");
    fs.link("/root/lib/a/lib", "/root/lib");
    fs.link("/root/lib/b/lib", "/root/lib");
    let mut next_id: usize = 0;
    let mut tree = scanned(&mut fs, "/root", &mut next_id);
    assert_eq!(
        paths(tree.current().snapshot(), false),
        vec![
            "",
            "lib",
            "lib/a",
            "lib/a/a.txt",
            "lib/a/lib",
            "lib/b",
            "lib/b/b.txt",
            "lib/b/lib",
        ]
    );
    fs.rename("/root/lib/a/lib", "/root/lib/a/lib-2");
    process_events(tree.background_snapshot_mut(), &mut fs, &mut next_id);
    tree.poll_snapshot(false);
    assert_eq!(
        paths(tree.current().snapshot(), false),
        vec![
            "",
            "lib",
            "lib/a",
            "lib/a/a.txt",
            "lib/a/lib-2",
            "lib/b",
            "lib/b/b.txt",
            "lib/b/lib",
        ]
    );
}

#[test]
fn test_rescan_with_gitignore() {
    let mut fs = MemFs::new("/parent");
    fs.file(
        "/parent/.gitignore",
        "ancestor-ignored-file1\nancestor-ignored-file2\n",
    );
    fs.dir("/parent/tree");
    fs.dir("/parent/tree/.git");
    fs.file("/parent/tree/.gitignore", "ignored-dir\n");
    fs.dir("/parent/tree/tracked-dir");
    fs.file("/parent/tree/tracked-dir/tracked-file1", "");
    fs.file("/parent/tree/tracked-dir/ancestor-ignored-file1", "");
    fs.dir("/parent/tree/ignored-dir");
    fs.file("/parent/tree/ignored-dir/ignored-file1", "");
    let mut next_id: usize = 0;
    let mut tree = scanned(&mut fs, "/parent/tree", &mut next_id);
    assert!(!is_ignored(tree.current(), "tracked-dir/tracked-file1"));
    assert!(is_ignored(
        tree.current(),
        "tracked-dir/ancestor-ignored-file1"
    ));
    assert!(is_ignored(tree.current(), "ignored-dir/ignored-file1"));

    fs.file("/parent/tree/tracked-dir/tracked-file2", "");
    fs.file("/parent/tree/tracked-dir/ancestor-ignored-file2", "");
    fs.file("/parent/tree/ignored-dir/ignored-file2", "");
    process_events(tree.background_snapshot_mut(), &mut fs, &mut next_id);
    tree.poll_snapshot(false);
    assert!(!is_ignored(tree.current(), "tracked-dir/tracked-file2"));
    assert!(is_ignored(
        tree.current(),
        "tracked-dir/ancestor-ignored-file2"
    ));
    assert!(is_ignored(tree.current(), "ignored-dir/ignored-file2"));
    assert!(is_ignored(tree.current(), ".git"));
}

#[test]
fn test_git_repository_for_path() {
    let mut fs = MemFs::new("/root");
    fs.dir("/root/dir1");
    fs.dir("/root/dir1/.git");
    fs.dir("/root/dir1/deps");
    fs.dir("/root/dir1/deps/dep1");
    fs.dir("/root/dir1/deps/dep1/.git");
    fs.dir("/root/dir1/deps/dep1/src");
    fs.file("/root/dir1/deps/dep1/src/a.txt", "");
    fs.dir("/root/dir1/src");
    fs.file("/root/dir1/src/b.txt", "");
    fs.file("/root/c.txt", "");
    let mut next_id: usize = 0;
    let mut tree = scanned(&mut fs, "/root", &mut next_id);

    assert!(tree.current().repo_for(&Path::new("c.txt")).is_none());
    let repo = tree
        .current()
        .repo_for(&Path::new("dir1/src/b.txt"))
        .unwrap();
    assert_eq!(repo.content_path.as_str(), "dir1");
    assert_eq!(repo.git_dir_path.as_str(), "dir1/.git");
    let first_scan_id: usize = repo.scan_id;
    let repo = tree
        .current()
        .repo_for(&Path::new("dir1/deps/dep1/src/a.txt"))
        .unwrap();
    assert_eq!(repo.content_path.as_str(), "dir1/deps/dep1");
    assert_eq!(repo.git_dir_path.as_str(), "dir1/deps/dep1/.git");

    fs.file("/root/dir1/.git/random_new_file", "hello");
    process_events(tree.background_snapshot_mut(), &mut fs, &mut next_id);
    let outcome = tree.poll_snapshot(false);
    assert_eq!(outcome.events.len(), 2);
    match &outcome.events[1] {
        Event::UpdatedGitRepositories(repos) => assert_eq!(repos.len(), 1),
        Event::UpdatedEntries => panic!("no repository changed"),
    }
    let new_scan_id: usize = tree
        .current()
        .repo_for(&Path::new("dir1/src/b.txt"))
        .unwrap()
        .scan_id;
    assert_ne!(first_scan_id, new_scan_id);

    fs.remove("/root/dir1/.git");
    process_events(tree.background_snapshot_mut(), &mut fs, &mut next_id);
    tree.poll_snapshot(false);
    assert!(tree
        .current()
        .repo_for(&Path::new("dir1/src/b.txt"))
        .is_none());
}

fn perform(fs: &mut MemFs, action: &FsAction) {
    match action {
        FsAction::CreateDir { path } => {
            let mut made: String = String::new();
            for name in path.as_str().split('/').skip(1) {
                made = join(&made, name);
                if !fs.nodes.contains_key(&made) {
                    fs.dir(&made);
                }
            }
        }
        FsAction::Save { path, text, .. } => fs.file(path.as_str(), text),
        FsAction::RemoveFile { path } => fs.remove(path.as_str()),
        FsAction::RemoveDir { path } => fs.remove(path.as_str()),
        FsAction::Rename { from, to } => fs.rename(from.as_str(), to.as_str()),
        FsAction::Copy { from, to } => {
            let text: String = fs.contents(from.as_str()).unwrap();
            fs.file(to.as_str(), &text);
        }
    }
}

fn refresh(
    tree: &mut LocalWorktree,
    fs: &MemFs,
    path: &str,
    old_path: Option<Arc<Path>>,
    next_id: &mut usize,
) -> Entry {
    let abs_path = tree.absolutize(&Path::new(path));
    let metadata = fs.metadata(abs_path.as_str());
    let contents = fs.contents(abs_path.as_str());
    let (entry, _) = tree
        .refresh_entry(arc(path), old_path, metadata, contents.as_deref(), next_id)
        .unwrap();
    entry
}

#[test]
fn test_write_file() {
    let mut fs = MemFs::new("/dir");
    fs.dir("/dir/.git");
    fs.file("/dir/.gitignore", "ignored-dir\n");
    fs.dir("/dir/tracked-dir");
    fs.dir("/dir/ignored-dir");
    let mut next_id: usize = 0;
    let mut tree = scanned(&mut fs, "/dir", &mut next_id);
    for (path, text) in [
        ("tracked-dir/file.txt", "hello"),
        ("ignored-dir/file.txt", "world"),
    ] {
        let action = tree.write_file(&Path::new(path), text.to_string(), LineEnding::Unix);
        perform(&mut fs, &action);
        refresh(&mut tree, &fs, path, None, &mut next_id);
    }
    assert!(!is_ignored(tree.current(), "tracked-dir/file.txt"));
    assert!(is_ignored(tree.current(), "ignored-dir/file.txt"));
    assert_eq!(fs.contents("/dir/tracked-dir/file.txt").unwrap(), "hello");
}

#[test]
fn test_create_directory() {
    let mut fs = MemFs::new("/a");
    fs.dir("/a/b");
    fs.dir("/a/c");
    fs.dir("/a/d");
    let mut next_id: usize = 0;
    let mut tree = open(&fs, "/a", &mut next_id);
    fs.events.clear();
    let action = tree.create_entry(&Path::new("a/e"), true);
    perform(&mut fs, &action);
    let entry = refresh(&mut tree, &fs, "a/e", None, &mut next_id);
    assert!(entry.is_dir());
    scan(tree.background_snapshot_mut(), &mut fs, &mut next_id);
    tree.set_scan_state(ScanState::Idle);
    process_events(tree.background_snapshot_mut(), &mut fs, &mut next_id);
    tree.poll_snapshot(false);
    let entry = tree
        .current()
        .snapshot()
        .entry_for_path(&Path::new("a/e"))
        .unwrap();
    assert_eq!(entry.kind, EntryKind::Dir);
}

#[test]
fn renaming_keeps_the_identifier() {
    let mut fs = MemFs::new("/root");
    fs.dir("/root/dir");
    fs.file("/root/dir/one", "1");
    fs.file("/root/two", "2");
    let mut next_id: usize = 0;
    let mut tree = scanned(&mut fs, "/root", &mut next_id);
    let id_of = |tree: &LocalWorktree, path: &str| {
        tree.current()
            .snapshot()
            .entry_for_path(&Path::new(path))
            .unwrap()
            .id
    };
    let dir = id_of(&tree, "dir");
    let one = id_of(&tree, "dir/one");
    fs.rename("/root/dir", "/root/moved");
    process_events(tree.background_snapshot_mut(), &mut fs, &mut next_id);
    tree.poll_snapshot(false);
    assert_eq!(id_of(&tree, "moved"), dir);
    assert_eq!(id_of(&tree, "moved/one"), one);

    let two = id_of(&tree, "two");
    let (action, old_path) = tree.rename_entry(two, &Path::new("three")).unwrap();
    perform(&mut fs, &action);
    let entry = refresh(&mut tree, &fs, "three", Some(old_path), &mut next_id);
    assert_eq!(entry.id, two);
    assert_eq!(
        paths(tree.current().snapshot(), true),
        vec!["", "moved", "moved/one", "three"]
    );

    let action = tree.copy_entry(two, &Path::new("four")).unwrap();
    perform(&mut fs, &action);
    let entry = refresh(&mut tree, &fs, "four", None, &mut next_id);
    assert_ne!(entry.id, two);

    let action = tree.delete_entry(dir).unwrap();
    assert!(matches!(&action, FsAction::RemoveDir { path } if path.as_str() == "/root/moved"));
    perform(&mut fs, &action);
    tree.entry_deleted(dir);
    assert_eq!(
        paths(tree.current().snapshot(), true),
        vec!["", "four", "three"]
    );
    assert!(tree.delete_entry(dir).is_none());
    assert!(tree.rename_entry(dir, &Path::new("x")).is_none());
    assert!(tree.copy_entry(dir, &Path::new("x")).is_none());
    let action = tree.delete_entry(two).unwrap();
    assert!(matches!(&action, FsAction::RemoveFile { path } if path.as_str() == "/root/three"));
}

#[test]
fn a_late_rename_takes_a_new_identifier() {
    let mut fs = MemFs::new("/root");
    fs.dir("/root/dir");
    fs.file("/root/dir/one", "1");
    let mut next_id: usize = 0;
    let mut tree = scanned(&mut fs, "/root", &mut next_id);
    let before = tree.current().snapshot().clone();
    let old = before.entry_for_path(&Path::new("dir")).unwrap();
    fs.rename("/root/dir", "/root/moved");
    fs.events.clear();
    for path in ["/root/dir", "/root/moved"] {
        process_paths(
            tree.background_snapshot_mut(),
            &mut fs,
            vec![arc(path)],
            &mut next_id,
        );
    }
    tree.poll_snapshot(false);
    let after = tree.current().snapshot();
    assert_eq!(
        paths(after, true),
        vec!["", "moved", "moved/one"]
    );
    let moved = after.entry_for_path(&Path::new("moved")).unwrap();
    assert_eq!(moved.inode, old.inode);
    assert_ne!(moved.id, old.id);
    assert!(moved.id.to_usize() > old.id.to_usize());
}

#[test]
fn the_order_of_events_does_not_matter() {
    let mut fs = MemFs::new("/root");
    fs.dir("/root/a");
    fs.file("/root/a/x", "");
    fs.file("/root/b", "");
    let mut next_id: usize = 0;
    let tree = scanned(&mut fs, "/root", &mut next_id);
    fs.file("/root/a/.gitignore", "x\n");
    fs.file("/root/a/y", "");
    fs.rename("/root/b", "/root/a/b");
    fs.events.clear();
    let orders = [
        vec!["/root/a", "/root/b"],
        vec!["/root/b", "/root/a/y", "/root/a", "/root/a/.gitignore", "/root/b"],
        vec!["/root/a/b", "/root/a", "/root/a", "/root/b"],
    ];
    for order in orders {
        let mut l = tree.current().clone();
        let events: Vec<Arc<Path>> = order.iter().map(|p| arc(p)).collect();
        process_paths(&mut l, &mut fs, events, &mut next_id);
        assert_eq!(
            rows(l.snapshot(), true),
            vec![
                ("".to_string(), 2, false),
                ("a".to_string(), 3, false),
                ("a/.gitignore".to_string(), 6, false),
                ("a/b".to_string(), 5, false),
                ("a/x".to_string(), 4, true),
                ("a/y".to_string(), 7, false),
            ]
        );
        assert_eq!(l.ignore_parents().len(), 1);
        assert_eq!(l.ignore_parents()[0].as_str(), "/root/a");
    }
}

#[test]
fn statuses_follow_ignore_files() {
    let mut fs = MemFs::new("/root");
    fs.dir("/root/a");
    fs.dir("/root/a/b");
    fs.file("/root/a/b/x.o", "");
    fs.file("/root/a/b/keep.o", "");
    fs.file("/root/a/y.c", "");
    let mut next_id: usize = 0;
    let mut tree = scanned(&mut fs, "/root", &mut next_id);
    assert!(!is_ignored(tree.current(), "a/b/x.o"));

    fs.file("/root/a/.gitignore", "*.o\n!keep.o\n");
    process_events(tree.background_snapshot_mut(), &mut fs, &mut next_id);
    tree.poll_snapshot(false);
    assert!(is_ignored(tree.current(), "a/b/x.o"));
    assert!(!is_ignored(tree.current(), "a/b/keep.o"));
    assert!(!is_ignored(tree.current(), "a/y.c"));

    fs.file("/root/a/.gitignore", "/b\n");
    process_events(tree.background_snapshot_mut(), &mut fs, &mut next_id);
    tree.poll_snapshot(false);
    assert!(is_ignored(tree.current(), "a/b"));
    assert!(is_ignored(tree.current(), "a/b/keep.o"));

    fs.remove("/root/a/.gitignore");
    process_events(tree.background_snapshot_mut(), &mut fs, &mut next_id);
    tree.poll_snapshot(false);
    assert!(!is_ignored(tree.current(), "a/b"));
    assert!(!is_ignored(tree.current(), "a/b/x.o"));
    assert!(!is_ignored(tree.current(), "a/b/keep.o"));
}

#[test]
fn an_ignored_root_ignores_all() {
    let mut fs = MemFs::new("/top");
    fs.file("/top/.gitignore", "root\n");
    fs.dir("/top/root");
    fs.file("/top/root/file", "");
    let mut next_id: usize = 0;
    let tree = scanned(&mut fs, "/top/root", &mut next_id);
    assert!(is_ignored(tree.current(), ""));
    assert!(is_ignored(tree.current(), "file"));
    assert_eq!(tree.current().snapshot().file_count(), 1);
    assert_eq!(tree.current().snapshot().visible_file_count(), 0);
}

#[test]
fn the_root_is_matched_as_it_is_written() {
    for (root, expected) in [("/r/a/w", true), ("/r/a//w", false)] {
        let mut fs = MemFs::new(root);
        fs.file("/r/.gitignore", "a/w/x\n");
        fs.file(&join(root, "x"), "");
        fs.file(&join(root, "y"), "");
        let mut next_id: usize = 0;
        let mut tree = scanned(&mut fs, root, &mut next_id);
        assert_eq!(is_ignored(tree.current(), "x"), expected);
        assert!(!is_ignored(tree.current(), "y"));
        fs.file(&join(root, ".gitignore"), "y\n");
        process_events(tree.background_snapshot_mut(), &mut fs, &mut next_id);
        tree.poll_snapshot(false);
        assert_eq!(is_ignored(tree.current(), "x"), expected);
        assert!(is_ignored(tree.current(), "y"));
        assert_eq!(tree.current().ignore_parents().last().unwrap().as_str(), root);
    }
}

#[test]
fn a_file_can_be_the_root() {
    let mut fs = MemFs::new("/dir");
    fs.file("/dir/file.txt", "text");
    let mut next_id: usize = 5;
    let mut tree = open(&fs, "/dir/file.txt", &mut next_id);
    scan(tree.background_snapshot_mut(), &mut fs, &mut next_id);
    let root = tree.background_snapshot().snapshot().root_entry().unwrap();
    assert!(root.is_file());
    assert_eq!(root.id.to_usize(), 5);
    assert_eq!(next_id, 6);
    assert_eq!(tree.background_snapshot().snapshot().scan_id(), 1);
    assert_eq!(tree.background_snapshot().snapshot().completed_scan_id(), 0);
    assert_eq!(tree.absolutize(&Path::new("")).as_str(), "/dir/file.txt");
}

#[test]
fn events_elsewhere_are_passed_over() {
    let mut fs = MemFs::new("/root");
    fs.file("/root/a", "");
    let mut next_id: usize = 0;
    let mut tree = scanned(&mut fs, "/root", &mut next_id);
    process_paths(
        tree.background_snapshot_mut(),
        &mut fs,
        vec![arc("/elsewhere/a")],
        &mut next_id,
    );
    tree.poll_snapshot(false);
    assert_eq!(paths(tree.current().snapshot(), true), vec!["", "a"]);
    assert_eq!(tree.current().snapshot().scan_id(), 2);
    assert_eq!(tree.current().snapshot().completed_scan_id(), 2);
}

// A small generator of numbers, so that the same changes are made each time.
struct Numbers {
    state: u64,
}

impl Numbers {
    fn below(&mut self, n: usize) -> usize {
        self.state = self
            .state
            .wrapping_mul(6364136223846793005)
            .wrapping_add(1442695040888963407);
        ((self.state >> 33) as usize) % n
    }

    fn name(&mut self) -> String {
        let mut name: String = String::new();
        for _ in 0..6 {
            name.push((b'a' + self.below(26) as u8) as char);
        }
        name
    }
}

fn mutate(fs: &mut MemFs, root: &str, numbers: &mut Numbers, insertion: usize) {
    let dirs: Vec<String> = fs
        .nodes
        .iter()
        .filter(|(_, n)| n.is_dir)
        .map(|(p, _)| p.clone())
        .collect();
    let all: Vec<String> = fs.nodes.keys().filter(|p| *p != root).cloned().collect();
    if all.is_empty() || numbers.below(100) < insertion {
        let dir: String = dirs[numbers.below(dirs.len())].clone();
        let path: String = join(&dir, &numbers.name());
        if numbers.below(2) == 0 {
            fs.dir(&path);
        } else {
            fs.file(&path, "");
        }
    } else if numbers.below(100) < 15 {
        let dir: String = dirs[numbers.below(dirs.len())].clone();
        let mut text: String = String::new();
        for p in all.iter().filter(|p| *p != &dir && is_below(p, &dir)) {
            if numbers.below(3) == 0 {
                text.push_str(&p[dir.len() + 1..]);
                text.push('\n');
            }
        }
        fs.file(&join(&dir, ".gitignore"), &text);
    } else {
        let old: String = all[numbers.below(all.len())].clone();
        if numbers.below(2) == 0 {
            let targets: Vec<String> = dirs
                .iter()
                .filter(|d| !is_below(d, &old))
                .cloned()
                .collect();
            let parent: String = targets[numbers.below(targets.len())].clone();
            if parent != root && !is_below(&old, &parent) && numbers.below(100) < 30 {
                fs.remove(&parent);
                fs.rename(&old, &parent);
            } else {
                let path: String = join(&parent, &numbers.name());
                fs.rename(&old, &path);
            }
        } else {
            fs.remove(&old);
        }
    }
}

fn rows(snapshot: &Snapshot, include_ignored: bool) -> Vec<(String, u64, bool)> {
    let mut walk = snapshot.entries(include_ignored);
    let mut rows: Vec<(String, u64, bool)> = Vec::new();
    while let Some(entry) = walk.next() {
        rows.push((
            entry.path.as_str().to_string(),
            entry.inode,
            entry.is_ignored,
        ));
    }
    rows
}

fn check_invariants(l: &LocalSnapshot) {
    let snapshot = l.snapshot();
    let mut files = snapshot.files(true, 0);
    let mut visible_files = snapshot.files(false, 0);
    let mut all = snapshot.entries(true);
    let mut via_traversal: Vec<String> = Vec::new();
    while let Some(entry) = all.next() {
        via_traversal.push(entry.path.as_str().to_string());
        if entry.is_file() {
            assert_eq!(files.next().unwrap().inode, entry.inode);
            if !entry.is_ignored {
                assert_eq!(visible_files.next().unwrap().inode, entry.inode);
            }
        }
        let by_id = snapshot.entry_for_id(entry.id).unwrap();
        assert_eq!(by_id.path.as_str(), entry.path.as_str());
    }
    assert!(files.next().is_none());
    assert!(visible_files.next().is_none());

    let mut via_children: Vec<String> = Vec::new();
    let mut stack: Vec<Arc<Path>> = vec![arc("")];
    while let Some(path) = stack.pop() {
        via_children.push(path.as_str().to_string());
        let ix: usize = stack.len();
        let mut children = snapshot.child_entries(&path);
        while let Some(child) = children.next() {
            stack.insert(ix, child.path.clone());
        }
    }
    assert_eq!(via_children, via_traversal);
    assert!(snapshot.is_listed());

    for ignore_parent_abs_path in l.ignore_parents() {
        let ignore_parent_path = ignore_parent_abs_path
            .strip_prefix(snapshot.abs_path())
            .unwrap();
        assert!(snapshot.entry_for_path(&ignore_parent_path).is_some());
        assert!(snapshot
            .entry_for_path(&ignore_parent_path.join(&Path::new(".gitignore")))
            .is_some());
    }
}

fn new_snapshot(fs: &MemFs, root: &str, next_id: &mut usize) -> LocalSnapshot {
    let mut l = LocalSnapshot::new(Snapshot::new(
        WorktreeId::from_usize(0),
        arc(root),
        String::new(),
        CharBag::from_text(""),
    ));
    let entry = Entry::new(
        arc(""),
        &fs.metadata(root).unwrap(),
        next_id,
        &CharBag::from_text(""),
    );
    l.insert_entry(entry, None);
    l
}

fn empty_copy() -> LocalSnapshot {
    LocalSnapshot::new(Snapshot::new(
        WorktreeId::from_usize(0),
        arc(""),
        String::new(),
        CharBag::from_text(""),
    ))
}

#[test]
fn test_random() {
    for seed in 0..20u64 {
        let mut numbers = Numbers {
            state: seed * 77 + 1,
        };
        let mut fs = MemFs::new("/root");
        for _ in 0..20 {
            mutate(&mut fs, "/root", &mut numbers, 100);
        }
        fs.events.clear();
        let mut next_id: usize = 0;
        let mut l = new_snapshot(&fs, "/root", &mut next_id);
        scan(&mut l, &mut fs, &mut next_id);
        check_invariants(&l);

        let mut events: Vec<String> = Vec::new();
        let mut snapshots: Vec<LocalSnapshot> = Vec::new();
        let mut left: usize = 40;
        while left > 1 {
            if !events.is_empty() && numbers.below(10) < 4 {
                let n: usize = numbers.below(events.len() + 1);
                let delivered: Vec<Arc<Path>> = events.drain(0..n).map(|p| arc(&p)).collect();
                process_paths(&mut l, &mut fs, delivered, &mut next_id);
                check_invariants(&l);
            } else {
                mutate(&mut fs, "/root", &mut numbers, 60);
                events.append(&mut fs.events);
                left -= 1;
            }
            if numbers.below(10) < 2 {
                snapshots.push(l.clone());
            }
        }
        let delivered: Vec<Arc<Path>> = events.drain(..).map(|p| arc(&p)).collect();
        process_paths(&mut l, &mut fs, delivered, &mut next_id);
        check_invariants(&l);

        let mut fresh = new_snapshot(&fs, "/root", &mut next_id);
        scan(&mut fresh, &mut fs, &mut next_id);
        assert_eq!(rows(l.snapshot(), true), rows(fresh.snapshot(), true));

        for prev in snapshots {
            let include_ignored: bool = numbers.below(2) == 0;
            let nothing = empty_copy();
            let mut copy = nothing.snapshot().clone();
            assert!(prev.can_build_update(&nothing, include_ignored));
            copy.apply_remote_update(prev.build_update(&nothing, 0, 0, include_ignored))
                .unwrap();
            assert_eq!(rows(&copy, true), rows(prev.snapshot(), include_ignored));
            assert!(l.can_build_update(&prev, include_ignored));
            copy.apply_remote_update(l.build_update(&prev, 0, 0, include_ignored))
                .unwrap();
            assert_eq!(rows(&copy, true), rows(l.snapshot(), include_ignored));
        }
    }
}
