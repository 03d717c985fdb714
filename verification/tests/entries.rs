//! Entries, and the ordered lists that hold them.
use std::sync::Arc;
use worktree::char_bag::CharBag;
use worktree::entry::{
    char_bag_for_path, Entry, EntryKind, EntrySummary, Metadata, PathKey, WorktreeError,
};
use worktree::ids::{ProjectEntryId, WorktreeId};
use worktree::local_snapshot::LocalSnapshot;
use worktree::path::Path;
use worktree::proto;
use worktree::proto::Timestamp;
use worktree::snapshot::Snapshot;
use worktree::sum_tree::{Edit, SumTree};
use worktree::traversal::{Bias, Traversal, TraversalTarget};

fn arc(text: &str) -> Arc<Path> {
    Arc::new(Path::new(text))
}

fn time(seconds: u64) -> Timestamp {
    Timestamp { seconds, nanos: 5 }
}

fn entry(id: usize, path: &str, is_dir: bool, is_ignored: bool) -> Entry {
    Entry {
        id: ProjectEntryId::from_usize(id),
        kind: if is_dir {
            EntryKind::Dir
        } else {
            EntryKind::File(char_bag_for_path(
                &CharBag::from_text("Root"),
                &Path::new(path),
            ))
        },
        path: arc(path),
        inode: id as u64 + 1000,
        mtime: time(7),
        is_symlink: false,
        is_ignored,
    }
}

fn sample() -> Snapshot {
    let mut l = LocalSnapshot::new(Snapshot::new(
        WorktreeId::from_usize(1),
        arc("/root"),
        "root".to_string(),
        CharBag::from_text("root"),
    ));
    l.insert_entry(entry(0, "", true, false), None);
    l.insert_entry(entry(1, "a", true, false), None);
    l.insert_entry(entry(2, "a/x", false, true), None);
    l.insert_entry(entry(3, "a/y", false, false), None);
    l.insert_entry(entry(4, "b", true, true), None);
    l.insert_entry(entry(5, "b/z", false, true), None);
    l.insert_entry(entry(6, "c", false, false), None);
    l.snapshot().clone()
}

fn rest(mut walk: Traversal) -> Vec<String> {
    let mut paths: Vec<String> = Vec::new();
    while let Some(entry) = walk.next() {
        paths.push(entry.path.as_str().to_string());
    }
    assert!(walk.next().is_none());
    paths
}

#[test]
fn new_entries_tell_their_metadata() {
    let mut next_id: usize = 10;
    let metadata = Metadata {
        inode: 77,
        mtime: time(3),
        is_symlink: true,
        is_dir: false,
    };
    let root = CharBag::from_text("Root");
    let file = Entry::new(arc("Src/Main.rs"), &metadata, &mut next_id, &root);
    assert_eq!(file.id.to_usize(), 10);
    assert_eq!(file.inode, 77);
    assert!(file.is_symlink && file.is_file() && !file.is_dir() && !file.is_ignored);
    match &file.kind {
        EntryKind::File(bag) => assert_eq!(bag.as_str(), "rootsrc/main.rs"),
        _ => panic!("not a file"),
    }
    let dir = Entry::new(
        arc("src"),
        &Metadata {
            is_dir: true,
            ..metadata
        },
        &mut next_id,
        &root,
    );
    assert_eq!(dir.kind, EntryKind::PendingDir);
    assert_eq!(next_id, 12);
}

#[test]
fn messages_give_entries_back() {
    let root = CharBag::from_text("Root");
    let file = entry(4, "a/B", false, true);
    let back = Entry::try_from(&root, file.to_proto()).unwrap();
    assert_eq!(back.id, file.id);
    assert_eq!(back.kind, file.kind);
    assert_eq!(back.path.as_str(), "a/B");
    assert_eq!(back.inode, file.inode);
    assert_eq!(back.mtime, file.mtime);
    assert!(back.is_ignored);
    let mut pending = entry(5, "d", true, false);
    pending.kind = EntryKind::PendingDir;
    let back = Entry::try_from(&root, pending.to_proto()).unwrap();
    assert_eq!(back.kind, EntryKind::Dir);
}

#[test]
fn entries_need_a_time() {
    let mut message = entry(4, "a", false, false).to_proto();
    message.mtime = None;
    assert_eq!(
        Entry::try_from(&CharBag::default(), message).unwrap_err(),
        WorktreeError::MissingMtime
    );
}

#[test]
fn summaries_add_up() {
    let mut total = EntrySummary::default();
    total.add_summary(&entry(1, "a", false, false).summary());
    total.add_summary(&entry(2, "b", false, true).summary());
    total.add_summary(&entry(3, "c", true, false).summary());
    assert_eq!(total.file_count(), 2);
    assert_eq!(total.visible_file_count(), 1);
}

#[test]
fn walks_stop_where_they_should() {
    let s = sample();
    assert_eq!(s.file_count(), 4);
    assert_eq!(s.visible_file_count(), 2);
    assert_eq!(
        rest(s.entries(true)),
        vec!["", "a", "a/x", "a/y", "b", "b/z", "c"]
    );
    assert_eq!(rest(s.entries(false)), vec!["", "a", "a/y", "c"]);
    assert_eq!(rest(s.files(true, 0)), vec!["a/x", "a/y", "b/z", "c"]);
    assert_eq!(rest(s.files(true, 2)), vec!["b/z", "c"]);
    assert_eq!(rest(s.files(false, 1)), vec!["c"]);
    assert!(rest(s.files(true, 4)).is_empty());
    assert!(rest(s.files(true, 40)).is_empty());
    assert_eq!(
        rest(s.traverse_from_path(true, true, &arc("a/y"))),
        vec!["a/y", "b", "b/z", "c"]
    );
    assert_eq!(
        rest(s.traverse_from_path(true, true, &arc("a/zz"))),
        vec!["b", "b/z", "c"]
    );
    assert_eq!(
        rest(s.traverse_from_offset(true, false, 2)),
        vec!["a/y", "c"]
    );
    let paths: Vec<String> = s.paths().iter().map(|p| p.as_str().to_string()).collect();
    assert_eq!(paths, vec!["a", "a/x", "a/y", "b", "b/z", "c"]);
}

#[test]
fn walks_advance() {
    let s = sample();
    let mut walk = s.entries(true);
    assert!(walk.advance_to_offset(1));
    assert_eq!(walk.entry().unwrap().path.as_str(), "a");
    assert!(walk.advance_to_sibling());
    assert_eq!(walk.entry().unwrap().path.as_str(), "b");
    assert_eq!(walk.offset(), 4);
    assert!(!walk.advance_to_offset(2));
    assert_eq!(walk.offset(), 4);
    assert!(walk.advance());
    assert_eq!(walk.entry().unwrap().path.as_str(), "b/z");
    assert!(walk.advance_to_sibling());
    assert!(!walk.advance_to_sibling());
    assert!(walk.entry().is_none());
    assert!(!walk.advance_to_offset(100));
    let mut visible = s.entries(false);
    assert!(visible.advance_to_offset(1));
    assert!(visible.advance_to_sibling());
    assert_eq!(visible.entry().unwrap().path.as_str(), "c");
    let mut walk = s.entries(true);
    assert!(walk.seek_forward(&TraversalTarget::Path(arc("b")), Bias::Left));
    assert!(walk.seek_forward(&TraversalTarget::PathSuccessor(arc("b")), Bias::Left));
    assert_eq!(walk.entry().unwrap().path.as_str(), "c");
    assert!(!walk.seek_forward(&TraversalTarget::Path(arc("d")), Bias::Left));
}

#[test]
fn children_lie_directly_in_a_path() {
    let s = sample();
    let children = |path: &str| {
        let mut list = s.child_entries(&arc(path));
        let mut names: Vec<String> = Vec::new();
        while let Some(child) = list.next() {
            names.push(child.path.as_str().to_string());
        }
        names
    };
    assert_eq!(children(""), vec!["a", "b", "c"]);
    assert_eq!(children("a"), vec!["a/x", "a/y"]);
    assert!(children("c").is_empty());
    assert!(children("nowhere").is_empty());
}

#[test]
fn entries_are_found() {
    let s = sample();
    assert_eq!(s.root_entry().unwrap().id.to_usize(), 0);
    assert_eq!(s.root_name(), "root");
    assert_eq!(s.abs_path().as_str(), "/root");
    assert_eq!(s.id().to_usize(), 1);
    assert!(s.contains_entry(ProjectEntryId::from_usize(3)));
    assert!(!s.contains_entry(ProjectEntryId::from_usize(30)));
    let found = s.entry_for_id(ProjectEntryId::from_usize(3)).unwrap();
    assert_eq!(found.path.as_str(), "a/y");
    assert!(s.entry_for_path(&Path::new("a/none")).is_none());
    assert_eq!(s.inode_for_path(&Path::new("a/y")), Some(1003));
    assert_eq!(s.inode_for_path(&Path::new("a/none")), None);
    assert!(s.is_listed());
}

#[test]
fn deleting_takes_out_what_lies_inside() {
    let mut s = sample();
    assert!(s.delete_entry(ProjectEntryId::from_usize(1)));
    assert_eq!(rest(s.entries(true)), vec!["", "b", "b/z", "c"]);
    assert!(!s.contains_entry(ProjectEntryId::from_usize(2)));
    assert!(!s.delete_entry(ProjectEntryId::from_usize(1)));
}

#[test]
fn an_inserted_entry_leaves_its_old_path() {
    let mut s = sample();
    let moved = s.insert_entry(entry(6, "d", false, false).to_proto()).unwrap();
    assert_eq!(moved.path.as_str(), "d");
    assert_eq!(
        rest(s.entries(true)),
        vec!["", "a", "a/x", "a/y", "b", "b/z", "d"]
    );
    let mut message = entry(7, "e", false, false).to_proto();
    message.mtime = None;
    assert_eq!(
        s.insert_entry(message).unwrap_err(),
        WorktreeError::MissingMtime
    );
    assert!(s.entry_for_path(&Path::new("e")).is_none());
}

fn update(removed: Vec<u64>, updated: Vec<proto::Entry>, is_last: bool) -> proto::UpdateWorktree {
    proto::UpdateWorktree {
        project_id: 1,
        worktree_id: 1,
        abs_path: "/root".to_string(),
        root_name: "root".to_string(),
        updated_entries: updated,
        removed_entries: removed,
        scan_id: 9,
        is_last_update: is_last,
    }
}

#[test]
fn updates_are_applied() {
    let mut s = sample();
    s.apply_remote_update(update(
        vec![2],
        vec![
            entry(6, "a/x", false, false).to_proto(),
            entry(9, "c", true, false).to_proto(),
        ],
        false,
    ))
    .unwrap();
    assert_eq!(
        rest(s.entries(true)),
        vec!["", "a", "a/x", "a/y", "b", "b/z", "c"]
    );
    assert_eq!(
        s.entry_for_path(&Path::new("a/x")).unwrap().id.to_usize(),
        6
    );
    assert!(s.entry_for_path(&Path::new("c")).unwrap().is_dir());
    assert_eq!(s.scan_id(), 9);
    assert_eq!(s.completed_scan_id(), 0);
    s.apply_remote_update(update(Vec::new(), Vec::new(), true))
        .unwrap();
    assert_eq!(s.completed_scan_id(), 9);
}

#[test]
fn bad_updates_change_nothing() {
    let mut s = sample();
    assert_eq!(
        s.apply_remote_update(update(vec![1, 99], Vec::new(), true)),
        Err(WorktreeError::UnknownEntry(99))
    );
    let mut message = entry(6, "a/x", false, false).to_proto();
    message.mtime = None;
    assert_eq!(
        s.apply_remote_update(update(vec![1], vec![message], true)),
        Err(WorktreeError::MissingMtime)
    );
    assert_eq!(rest(s.entries(true)), rest(sample().entries(true)));
    assert_eq!(s.scan_id(), 0);
}

#[test]
fn ordered_lists_replace_and_remove() {
    let mut tree: SumTree<Entry> = SumTree::new();
    assert!(tree.insert_or_replace(entry(1, "b", false, false)).is_none());
    assert!(tree.insert_or_replace(entry(2, "a", false, false)).is_none());
    let replaced = tree.insert_or_replace(entry(3, "b", false, false)).unwrap();
    assert_eq!(replaced.id.to_usize(), 1);
    assert_eq!(tree.len(), 2);
    assert_eq!(tree.get(&Path::new("b")).unwrap().id.to_usize(), 3);
    tree.edit(vec![
        Edit::Insert(entry(4, "c", false, false)),
        Edit::Insert(entry(5, "a", false, false)),
        Edit::Remove(PathKey::new(arc("a"))),
        Edit::Remove(PathKey::new(arc("b"))),
    ]);
    let left: Vec<usize> = tree.as_slice().iter().map(|e| e.id.to_usize()).collect();
    assert_eq!(left, vec![5, 4]);
    assert_eq!(tree.remove(&Path::new("c")).unwrap().id.to_usize(), 4);
    assert!(tree.remove(&Path::new("c")).is_none());
}
