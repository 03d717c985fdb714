//! Updates, and the pieces in which they are sent.
use std::sync::Arc;
use worktree::char_bag::CharBag;
use worktree::entry::{Entry, EntryKind};
use worktree::ids::{ProjectEntryId, WorktreeId};
use worktree::local_snapshot::{GitRepositoryEntry, LocalSnapshot};
use worktree::local_worktree::LocalWorktree;
use worktree::path::Path;
use worktree::proto;
use worktree::proto::Timestamp;
use worktree::share::{split_worktree_update, SendStep, SharedSnapshot};
use worktree::snapshot::Snapshot;

fn arc(text: &str) -> Arc<Path> {
    Arc::new(Path::new(text))
}

fn entry(id: usize, path: &str, is_ignored: bool) -> Entry {
    Entry {
        id: ProjectEntryId::from_usize(id),
        kind: EntryKind::Dir,
        path: arc(path),
        inode: id as u64 + 1000,
        mtime: Timestamp {
            seconds: 1,
            nanos: 2,
        },
        is_symlink: false,
        is_ignored,
    }
}

fn empty() -> Snapshot {
    Snapshot::new(
        WorktreeId::from_usize(1),
        arc("/root"),
        "root".to_string(),
        CharBag::from_text("root"),
    )
}

fn rows(snapshot: &Snapshot, include_ignored: bool) -> Vec<(usize, String)> {
    let mut walk = snapshot.entries(include_ignored);
    let mut rows: Vec<(usize, String)> = Vec::new();
    while let Some(entry) = walk.next() {
        rows.push((entry.id.to_usize(), entry.path.as_str().to_string()));
    }
    rows
}

fn first() -> LocalSnapshot {
    let mut l = LocalSnapshot::new(empty());
    l.scan_started();
    for (id, path, is_ignored) in [
        (0, "", false),
        (1, "a", false),
        (2, "b", true),
        (3, "c", false),
        (4, "d", false),
    ] {
        l.insert_entry(entry(id, path, is_ignored), None);
    }
    l.scan_completed();
    l
}

fn second() -> LocalSnapshot {
    let mut l = first();
    l.scan_started();
    l.remove_path(&Path::new("a"));
    l.insert_entry(entry(5, "e", false), None);
    l.insert_entry(entry(6, "f", true), None);
    l.insert_entry(entry(9, "c", true), None);
    l
}

#[test]
fn an_initial_update_describes_all() {
    let update = first().build_initial_update(7);
    assert_eq!(update.project_id, 7);
    assert_eq!(update.worktree_id, 1);
    assert_eq!(update.abs_path, "/root");
    assert_eq!(update.root_name, "root");
    assert_eq!(update.scan_id, 1);
    assert!(update.is_last_update);
    assert!(update.removed_entries.is_empty());
    let ids: Vec<u64> = update.updated_entries.iter().map(|e| e.id).collect();
    assert_eq!(ids, vec![0, 1, 2, 3, 4]);
}

#[test]
fn an_update_describes_what_changed() {
    let update = second().build_update(&first(), 7, 8, true);
    let ids: Vec<u64> = update.updated_entries.iter().map(|e| e.id).collect();
    assert_eq!(ids, vec![3, 5, 6]);
    assert_eq!(update.removed_entries, vec![1]);
    assert_eq!(update.worktree_id, 8);
    assert_eq!(update.scan_id, 2);
    assert!(!update.is_last_update);
}

#[test]
fn ignored_entries_can_be_left_out() {
    let update = second().build_update(&first(), 7, 8, false);
    let ids: Vec<u64> = update.updated_entries.iter().map(|e| e.id).collect();
    assert_eq!(ids, vec![5]);
    assert_eq!(update.removed_entries, vec![1, 3]);
    let mut copy = empty();
    copy.apply_remote_update(first().build_update(&LocalSnapshot::new(empty()), 7, 8, false))
        .unwrap();
    copy.apply_remote_update(update).unwrap();
    assert_eq!(rows(&copy, true), rows(second().snapshot(), false));
}

#[test]
fn updates_are_split() {
    let update = first().build_initial_update(7);
    let pieces = split_worktree_update(update, 2);
    let ids: Vec<Vec<u64>> = pieces
        .iter()
        .map(|p| p.updated_entries.iter().map(|e| e.id).collect())
        .collect();
    assert_eq!(ids, vec![vec![0, 1], vec![2, 3], vec![4]]);
    let last: Vec<bool> = pieces.iter().map(|p| p.is_last_update).collect();
    assert_eq!(last, vec![false, false, true]);
    assert!(pieces.iter().all(|p| p.scan_id == 1 && p.project_id == 7));

    let update = second().build_update(&first(), 7, 8, true);
    let pieces = split_worktree_update(update, 2);
    assert_eq!(pieces.len(), 2);
    assert_eq!(pieces[0].removed_entries, vec![1]);
    assert!(pieces[1].removed_entries.is_empty());
    assert!(!pieces[1].is_last_update);

    let nothing = first().build_update(&first(), 7, 8, true);
    assert_eq!(split_worktree_update(nothing, 256).len(), 1);
}

#[test]
fn pieces_make_a_copy() {
    let mut shared = SharedSnapshot::new(7, 1);
    let mut copy = empty();
    for snapshot in [first(), second()] {
        assert!(snapshot.can_build_update(shared.prev_snapshot(), true));
        for piece in shared.updates_for(snapshot.clone(), 2) {
            assert_eq!(piece.project_id, 7);
            copy.apply_remote_update(piece).unwrap();
        }
        assert_eq!(rows(&copy, true), rows(snapshot.snapshot(), true));
        assert_eq!(copy.scan_id(), snapshot.snapshot().scan_id());
    }
    assert_eq!(copy.completed_scan_id(), 1);
}

fn fake_entry(git_dir_path: &str, scan_id: usize) -> GitRepositoryEntry {
    let git_dir_path = Path::new(git_dir_path);
    GitRepositoryEntry {
        repo: 0,
        scan_id,
        content_path: Arc::new(git_dir_path.parent().unwrap()),
        git_dir_path: Arc::new(git_dir_path),
    }
}

#[test]
fn test_changed_repos() {
    let prev_repos: Vec<GitRepositoryEntry> = vec![
        fake_entry("/.git", 0),
        fake_entry("/a/.git", 0),
        fake_entry("/a/b/.git", 0),
    ];
    let new_repos: Vec<GitRepositoryEntry> = vec![
        fake_entry("/a/.git", 1),
        fake_entry("/a/b/.git", 0),
        fake_entry("/a/c/.git", 0),
    ];
    let res = LocalWorktree::changed_repos(&prev_repos, &new_repos);

    // Deletion retained
    assert!(res
        .iter()
        .find(|repo| repo.git_dir_path.same(&Path::new("/.git")) && repo.scan_id == 0)
        .is_some());
    // Update retained
    assert!(res
        .iter()
        .find(|repo| repo.git_dir_path.same(&Path::new("/a/.git")) && repo.scan_id == 1)
        .is_some());
    // Addition retained
    assert!(res
        .iter()
        .find(|repo| repo.git_dir_path.same(&Path::new("/a/c/.git")) && repo.scan_id == 0)
        .is_some());
    // Nochange, not retained
    assert!(res
        .iter()
        .find(|repo| repo.git_dir_path.same(&Path::new("/a/b/.git")) && repo.scan_id == 0)
        .is_none());
    assert_eq!(res.len(), 3);
}

#[test]
fn unchanged_repos_are_not_listed() {
    let repos: Vec<GitRepositoryEntry> = vec![fake_entry("/.git", 0), fake_entry("/a/.git", 2)];
    assert!(LocalWorktree::changed_repos(&repos, &repos).is_empty());
    assert!(LocalWorktree::changed_repos(&[], &[]).is_empty());
}

#[test]
fn messages_can_be_compared() {
    let a: proto::UpdateWorktree = first().build_initial_update(7);
    let b: proto::UpdateWorktree = first().build_initial_update(7);
    assert_eq!(a, b);
}

#[test]
fn pieces_are_sent_until_answered() {
    assert_eq!(SendStep::first(0), SendStep::Sent);
    let step = SendStep::first(2);
    assert_eq!(step, SendStep::Send(0));
    let step = step.next(2, true);
    assert_eq!(step, SendStep::Send(1));
    let step = step.next(2, false);
    assert_eq!(step, SendStep::Wait(1));
    assert_eq!(step.next(2, false), SendStep::Ended);
    let step = step.next(2, true);
    assert_eq!(step, SendStep::Resend(1));
    assert_eq!(step.next(2, false), SendStep::Wait(1));
    let step = step.next(2, true);
    assert_eq!(step, SendStep::Sent);
    assert_eq!(step.next(2, false), SendStep::Sent);
    assert_eq!(SendStep::Ended.next(2, true), SendStep::Ended);
}
