//! Worktrees of both kinds, and their files.
use std::sync::Arc;
use worktree::diagnostics::{DiagnosticEntry, DiagnosticSeverity, DiagnosticSummary};
use worktree::entry::{Entry, EntryKind, Metadata, WorktreeError};
use worktree::file::File;
use worktree::ids::{ProjectEntryId, WorktreeId};
use worktree::local_snapshot::GitRepositoryEntry;
use worktree::local_worktree::{Event, FsAction, LocalWorktree, ScanState};
use worktree::path::Path;
use worktree::proto;
use worktree::proto::{LineEnding, Timestamp, VectorClockEntry};
use worktree::remote_worktree::{RemoteWorktree, Waiting};
use worktree::scan_loop::ScannerStep;
use worktree::scanner::DirChild;
use worktree::worktree::Worktree;

fn arc(text: &str) -> Arc<Path> {
    Arc::new(Path::new(text))
}

const TIME: Timestamp = Timestamp {
    seconds: 3,
    nanos: 4,
};

fn metadata(inode: u64, is_dir: bool) -> Metadata {
    Metadata {
        inode,
        mtime: TIME,
        is_symlink: false,
        is_dir,
    }
}

fn local(path: &str, visible: bool) -> LocalWorktree {
    let mut next_id: usize = 0;
    LocalWorktree::create(
        WorktreeId::from_usize(6),
        arc(path),
        visible,
        Some(metadata(1, true)),
        &mut next_id,
    )
}

fn remote() -> RemoteWorktree {
    RemoteWorktree::new(
        40,
        2,
        proto::WorktreeMetadata {
            id: 9,
            root_name: "Root".to_string(),
            visible: true,
            abs_path: "/host/root".to_string(),
        },
    )
}

fn message(id: u64, path: &str) -> proto::Entry {
    proto::Entry {
        id,
        is_dir: false,
        path: path.to_string(),
        inode: id + 100,
        mtime: Some(TIME),
        is_symlink: false,
        is_ignored: false,
    }
}

fn update(entries: Vec<proto::Entry>, scan_id: u64, is_last_update: bool) -> proto::UpdateWorktree {
    proto::UpdateWorktree {
        project_id: 40,
        worktree_id: 9,
        abs_path: "/host/root".to_string(),
        root_name: "Root".to_string(),
        updated_entries: entries,
        removed_entries: Vec::new(),
        scan_id,
        is_last_update,
    }
}

fn diagnostic(severity: DiagnosticSeverity, is_primary: bool) -> DiagnosticEntry {
    DiagnosticEntry {
        start_row: 0,
        start_column: 1,
        end_row: 0,
        end_column: 2,
        severity,
        is_primary,
        message: "m".to_string(),
    }
}

#[test]
fn a_new_worktree_holds_its_root() {
    let tree = local("/home/me/Project", true);
    let snapshot = tree.snapshot();
    assert_eq!(snapshot.snapshot().root_name(), "Project");
    assert_eq!(
        snapshot.snapshot().root_entry().unwrap().kind,
        EntryKind::PendingDir
    );
    assert_eq!(*tree.scan_state(), ScanState::Initializing);
    assert!(!tree.scan_complete());
    assert!(tree.is_visible());
    assert!(tree.contains_abs_path(&Path::new("/home/me/Project/a")));
    assert!(!tree.contains_abs_path(&Path::new("/home/me/Projects")));
    let message = tree.metadata_proto();
    assert_eq!(message.id, 6);
    assert_eq!(message.root_name, "Project");
    assert_eq!(message.abs_path, "/home/me/Project");
    let mut next_id: usize = 0;
    let gone = LocalWorktree::create(
        WorktreeId::from_usize(1),
        arc("/"),
        false,
        None,
        &mut next_id,
    );
    assert!(gone.current().snapshot().root_entry().is_none());
    assert_eq!(gone.current().snapshot().root_name(), "");
    assert_eq!(next_id, 0);
}

#[test]
fn polling_follows_the_scan() {
    let mut tree = local("/root", true);
    let mut next_id: usize = 10;
    let above: Vec<Option<String>> = vec![None];
    let job = tree
        .background_snapshot_mut()
        .begin_scan(&above)
        .unwrap();
    let children: Vec<DirChild> = vec![DirChild {
        name: "file".to_string(),
        metadata: Some(metadata(2, false)),
        contents: None,
    }];
    tree.background_snapshot_mut()
        .scan_dir(&mut next_id, &job, children, None);
    assert!(tree
        .current()
        .snapshot()
        .entry_for_path(&Path::new("file"))
        .is_none());
    let outcome = tree.poll_snapshot(false);
    assert!(outcome.poll_again && !outcome.publish);
    assert!(matches!(outcome.events[0], Event::UpdatedEntries));
    assert!(tree
        .current()
        .snapshot()
        .entry_for_path(&Path::new("file"))
        .is_some());

    tree.set_scan_state(ScanState::Updating);
    tree.background_snapshot_mut()
        .remove_path(&Path::new("file"));
    let outcome = tree.poll_snapshot(false);
    assert!(outcome.events.is_empty() && !outcome.poll_again);
    assert!(!tree.scan_complete());
    assert!(tree
        .current()
        .snapshot()
        .entry_for_path(&Path::new("file"))
        .is_some());
    tree.poll_snapshot(true);
    assert!(tree
        .current()
        .snapshot()
        .entry_for_path(&Path::new("file"))
        .is_none());

    tree.set_scan_state(ScanState::Idle);
    assert!(tree.scan_complete());
    assert!(!tree.poll_snapshot(false).publish);
    tree.share(5);
    assert!(!tree.poll_snapshot(false).publish);
    assert_eq!(tree.summaries_sent(5, Ok::<(), u8>(())), Ok(()));
    assert!(tree.poll_snapshot(false).publish);
    tree.set_scan_state(ScanState::Failed("no".to_string()));
    assert!(tree.scan_complete());
}

#[test]
fn diagnostics_are_summed_up() {
    let mut tree = local("/root", true);
    let found = vec![
        diagnostic(DiagnosticSeverity::Error, true),
        diagnostic(DiagnosticSeverity::Warning, true),
        diagnostic(DiagnosticSeverity::Warning, true),
        diagnostic(DiagnosticSeverity::Error, false),
        diagnostic(DiagnosticSeverity::Hint, true),
    ];
    let (updated, sent) = tree.update_diagnostics(3, arc("a.rs"), found);
    assert!(updated && sent.is_none());
    let summary = tree.diagnostic_summaries()[0].1;
    assert_eq!(
        summary,
        DiagnosticSummary {
            language_server_id: 3,
            error_count: 1,
            warning_count: 2
        }
    );
    assert_eq!(
        tree.diagnostics_for_path(&Path::new("a.rs")).unwrap().len(),
        5
    );

    let sent = tree.share(70).unwrap();
    assert_eq!(sent.len(), 1);
    assert_eq!(sent[0].project_id, 70);
    assert_eq!(sent[0].worktree_id, 6);
    let told = sent[0].summary.as_ref().unwrap();
    assert_eq!(told.path, "a.rs");
    assert_eq!(DiagnosticSummary::from_proto(told), summary);
    assert_eq!(tree.summaries_sent(70, Err(9)), Err(9));
    assert!(!tree.is_shared());
    assert_eq!(tree.summaries_sent(70, Ok::<(), u8>(())), Ok(()));
    assert!(tree.share(71).is_none());
    assert_eq!(tree.summaries_sent(71, Ok::<(), u8>(())), Ok(()));
    assert_eq!(tree.shared_project(), Some(70));

    let hints = vec![diagnostic(DiagnosticSeverity::Hint, true)];
    let (updated, sent) = tree.update_diagnostics(3, arc("a.rs"), hints);
    assert!(updated);
    assert_eq!(sent.unwrap().summary.unwrap().error_count, 0);
    assert!(tree.diagnostic_summaries().is_empty());
    assert!(tree.diagnostics_for_path(&Path::new("a.rs")).is_none());
    let (updated, sent) = tree.update_diagnostics(3, arc("a.rs"), Vec::new());
    assert!(!updated && sent.is_none());
    tree.unshare();
    assert!(!tree.is_shared());
}

#[test]
fn actions_name_absolute_paths() {
    let tree = local("/root", true);
    match tree.create_entry(&Path::new("a/b"), false) {
        FsAction::Save {
            path,
            text,
            line_ending,
        } => {
            assert_eq!(path.as_str(), "/root/a/b");
            assert_eq!(text, "");
            assert_eq!(line_ending, LineEnding::Unix);
        }
        _ => panic!("not a file"),
    }
    match tree.create_entry(&Path::new("a"), true) {
        FsAction::CreateDir { path } => assert_eq!(path.as_str(), "/root/a"),
        _ => panic!("not a directory"),
    }
    match tree.save_buffer(&Path::new(""), "t".to_string(), LineEnding::Windows).action {
        FsAction::Save {
            path, line_ending, ..
        } => {
            assert_eq!(path.as_str(), "/root");
            assert_eq!(line_ending, LineEnding::Windows);
        }
        _ => panic!("not a file"),
    }
}

#[test]
fn missing_metadata_is_an_error() {
    let mut tree = local("/root", true);
    let mut next_id: usize = 1;
    let refused = tree.refresh_entry(arc("a"), None, None, None, &mut next_id);
    assert_eq!(refused.err().unwrap(), WorktreeError::MissingMetadata);
    assert_eq!(next_id, 1);
}

#[test]
fn loading_asks_the_innermost_repository() {
    let mut tree = local("/root", true);
    let mut next_id: usize = 10;
    let above: Vec<Option<String>> = vec![None];
    let job = tree
        .background_snapshot_mut()
        .begin_scan(&above)
        .unwrap();
    let children: Vec<DirChild> = vec![DirChild {
        name: ".git".to_string(),
        metadata: Some(metadata(2, true)),
        contents: None,
    }];
    let jobs = tree
        .background_snapshot_mut()
        .scan_dir(&mut next_id, &job, children, None);
    assert!(jobs[0].ignore_stack.is_all());
    let open = tree
        .background_snapshot()
        .repo_to_open(&jobs[0].path)
        .unwrap();
    assert_eq!(open.as_str(), "/root/.git");
    tree.background_snapshot_mut()
        .scan_dir(&mut next_id, &jobs[0], Vec::new(), Some(33));
    tree.poll_snapshot(false);
    let request = tree.load(&Path::new("src/a.rs"));
    assert_eq!(request.abs_path.as_str(), "/root/src/a.rs");
    let (repo, path) = request.index.unwrap();
    assert_eq!(repo, 33);
    assert_eq!(path.as_str(), "src/a.rs");
    assert!(local("/root", true).load(&Path::new("a")).index.is_none());
    let repos: Vec<GitRepositoryEntry> = tree.current().git_repo_entries().to_vec();
    assert!(repos[0].manages(&Path::new("anything")));
    assert!(repos[0].in_dot_git(&Path::new(".git/HEAD")));
    assert!(tree
        .current()
        .in_dot_git(&Path::new(".git/HEAD"))
        .is_some());
    assert!(tree.current().in_dot_git(&Path::new("src")).is_none());
}

#[test]
fn saved_buffers_are_told_of() {
    let mut tree = local("/root", true);
    let mut next_id: usize = 1;
    let (entry, _) = tree
        .refresh_entry(
            arc("a"),
            None,
            Some(metadata(5, false)),
            None,
            &mut next_id,
        )
        .unwrap();
    let version = vec![VectorClockEntry {
        replica_id: 1,
        timestamp: 2,
    }];
    let request = tree.save_buffer(&Path::new("a"), "text".to_string(), LineEnding::Unix);
    assert_eq!(request.project_id, None);
    let quiet = LocalWorktree::buffer_saved(
        request.project_id,
        8,
        50,
        entry.clone(),
        false,
        version.clone(),
        "f".to_string(),
    );
    assert!(quiet.file.is_none() && quiet.update_file.is_none() && quiet.saved.is_none());
    assert_eq!(quiet.mtime, TIME);
    tree.summaries_sent(70, Ok::<(), u8>(())).unwrap();
    let request = tree.save_buffer(&Path::new("a"), "text".to_string(), LineEnding::Unix);
    match &request.action {
        FsAction::Save { path, text, .. } => {
            assert_eq!(path.as_str(), "/root/a");
            assert_eq!(text, "text");
        }
        _ => panic!("not saved"),
    }
    tree.unshare();
    let told = LocalWorktree::buffer_saved(
        request.project_id,
        8,
        50,
        entry,
        true,
        version.clone(),
        "f".to_string(),
    );
    let file = told.file.unwrap();
    assert_eq!(file.worktree, 8);
    assert!(file.is_local && !file.is_deleted);
    let message = told.update_file.unwrap();
    assert_eq!(message.project_id, 70);
    assert_eq!(message.buffer_id, 50);
    assert_eq!(message.file.unwrap().path, "a");
    let saved = told.saved.unwrap();
    assert_eq!(saved.version, version);
    assert_eq!(saved.fingerprint, "f");
    assert_eq!(saved.mtime, Some(TIME));
}

#[test]
fn requests_wait_for_scans() {
    let mut tree = remote();
    assert!(tree.observed_snapshot(0));
    assert_eq!(tree.wait_for_snapshot(0, 1), Waiting::Ready);
    assert_eq!(tree.wait_for_snapshot(3, 2), Waiting::Kept);
    assert_eq!(tree.wait_for_snapshot(1, 3), Waiting::Kept);
    assert_eq!(tree.wait_for_snapshot(2, 4), Waiting::Kept);
    let first = tree.update_from_remote(update(vec![message(1, "a")], 1, false));
    tree.apply_update(first.unwrap()).unwrap();
    assert!(tree.snapshot_updated().is_empty());
    tree.apply_update(update(vec![message(2, "b")], 2, true))
        .unwrap();
    assert!(!tree.observed_snapshot(2));
    assert_eq!(tree.snapshot_updated(), vec![3, 4]);
    assert!(tree.observed_snapshot(2));
    assert!(!tree.observed_snapshot(3));
    tree.disconnected_from_host();
    assert_eq!(tree.wait_for_snapshot(9, 5), Waiting::Cancelled);
    assert!(tree
        .update_from_remote(update(Vec::new(), 3, true))
        .is_none());
    assert!(tree.snapshot_updated().is_empty());
}

#[test]
fn remote_entries_come_and_go() {
    let mut tree = remote();
    assert!(tree.is_visible());
    let entry = tree.insert_entry(message(1, "a")).unwrap();
    assert_eq!(entry.path.as_str(), "a");
    match &entry.kind {
        EntryKind::File(bag) => assert_eq!(bag.as_str(), "roota"),
        _ => panic!("not a file"),
    }
    assert!(tree
        .current()
        .entry_for_path(&Path::new("a"))
        .is_some());
    let mut bad = message(2, "b");
    bad.mtime = None;
    assert_eq!(
        tree.insert_entry(bad).unwrap_err(),
        WorktreeError::MissingMtime
    );
    tree.delete_entry(ProjectEntryId::from_usize(1));
    assert!(tree.snapshot().entry_for_path(&Path::new("a")).is_none());
    let mut removal = update(Vec::new(), 1, true);
    removal.removed_entries = vec![1];
    assert_eq!(
        tree.apply_update(removal),
        Err(WorktreeError::UnknownEntry(1))
    );
}

#[test]
fn remote_summaries_are_replaced() {
    let mut tree = remote();
    let mut told = proto::DiagnosticSummary {
        path: "a".to_string(),
        language_server_id: 4,
        error_count: 1,
        warning_count: 0,
    };
    tree.update_diagnostic_summary(arc("a"), &told);
    assert_eq!(tree.diagnostic_summaries()[0].1.error_count, 1);
    told.error_count = 0;
    tree.update_diagnostic_summary(arc("a"), &told);
    assert!(tree.diagnostic_summaries().is_empty());
}

#[test]
fn remote_buffers_are_saved_by_the_host() {
    let tree = remote();
    let request = tree.save_buffer(3, Vec::new());
    assert_eq!(request.project_id, 40);
    assert_eq!(request.buffer_id, 3);
    let mut response = proto::BufferSaved {
        project_id: 40,
        buffer_id: 3,
        version: Vec::new(),
        mtime: Some(TIME),
        fingerprint: "f".to_string(),
    };
    assert_eq!(tree.buffer_saved(&response), Ok(TIME));
    response.mtime = None;
    assert_eq!(
        tree.buffer_saved(&response),
        Err(WorktreeError::MissingMtime)
    );
}

#[test]
fn both_kinds_are_worktrees() {
    let mut next_id: usize = 0;
    let mut here = Worktree::local(
        WorktreeId::from_usize(6),
        arc("/root"),
        false,
        Some(metadata(1, true)),
        &mut next_id,
    );
    assert!(here.is_local() && !here.is_remote());
    assert!(here.as_local().is_some() && here.as_remote().is_none());
    assert!(here.as_remote_mut().is_none());
    assert_eq!(here.replica_id(), 0);
    assert!(!here.is_visible());
    assert_eq!(here.root_name(), "root");
    assert_eq!(here.abs_path().as_str(), "/root");
    here.as_local_mut()
        .unwrap()
        .background_snapshot_mut()
        .scan_started();
    assert_eq!(here.scan_id(), 0);
    assert!(here.poll_snapshot().poll_again);
    assert_eq!(here.scan_id(), 1);
    assert_eq!(here.completed_scan_id(), 0);

    let mut there = Worktree::Remote(remote());
    assert_eq!(there.replica_id(), 2);
    assert_eq!(there.id().to_usize(), 9);
    there
        .as_remote_mut()
        .unwrap()
        .apply_update(update(vec![message(1, "a")], 4, true))
        .unwrap();
    assert_eq!(there.completed_scan_id(), 0);
    let outcome = there.poll_snapshot();
    assert!(!outcome.poll_again && outcome.events.len() == 1);
    assert_eq!(there.completed_scan_id(), 4);
    assert!(there
        .snapshot()
        .entry_for_path(&Path::new("a"))
        .is_some());
    assert!(there.diagnostic_summaries().is_empty());
}

fn file_at(path: &str) -> File {
    File::for_entry(
        6,
        Entry {
            id: ProjectEntryId::from_usize(12),
            kind: EntryKind::Dir,
            path: arc(path),
            inode: 1,
            mtime: TIME,
            is_symlink: false,
            is_ignored: false,
        },
    )
}

#[test]
fn files_have_full_paths() {
    let home = Path::new("/home/me");
    let shown = Worktree::Local(local("/home/me/project", true));
    let hidden = Worktree::Local(local("/home/me/project", false));
    let outside = Worktree::Local(local("/opt/project", false));
    let file = file_at("src/a.rs");
    assert_eq!(
        file.full_path(&shown, &home).as_str(),
        "project/src/a.rs"
    );
    assert_eq!(
        file.full_path(&hidden, &home).as_str(),
        "~/project/src/a.rs"
    );
    assert_eq!(
        file.full_path(&outside, &home).as_str(),
        "/opt/project/src/a.rs"
    );
    assert_eq!(
        file_at("").full_path(&shown, &home).as_str(),
        "project"
    );
    assert_eq!(file.file_name(&shown), "a.rs");
    assert_eq!(file_at("").file_name(&shown), "project");
    assert_eq!(
        file.abs_path(&shown).as_str(),
        "/home/me/project/src/a.rs"
    );
    assert_eq!(file_at("").abs_path(&shown).as_str(), "/home/me/project/");
    assert_eq!(file_at("").load(&shown).as_str(), "/home/me/project");
    assert_eq!(file.worktree_id(&shown).to_usize(), 6);
}

#[test]
fn messages_give_files_back() {
    let file = file_at("src/a.rs");
    assert!(file.as_local().is_some());
    let there = Worktree::Remote(remote());
    let mut message = file.to_proto();
    assert_eq!(
        File::from_proto(file.to_proto(), &there, 30).unwrap_err(),
        WorktreeError::WorktreeMismatch
    );
    message.worktree_id = 9;
    let back = File::from_proto(message, &there, 30).unwrap();
    assert_eq!(back.worktree, 30);
    assert_eq!(back.path().as_str(), "src/a.rs");
    assert_eq!(back.mtime(), TIME);
    assert_eq!(back.project_entry_id(), Some(file.entry_id));
    assert!(back.as_local().is_none() && !back.is_deleted());
    let mut untimed = file.to_proto();
    untimed.worktree_id = 9;
    untimed.mtime = None;
    assert_eq!(
        File::from_proto(untimed, &there, 30).unwrap_err(),
        WorktreeError::NoTimestamp
    );
    let here = Worktree::Local(local("/root", true));
    assert_eq!(
        File::from_proto(file.to_proto(), &here, 30).unwrap_err(),
        WorktreeError::NotRemote
    );
    let mut gone = file.clone();
    gone.is_deleted = true;
    assert_eq!(gone.project_entry_id(), None);
}

#[test]
fn reloaded_buffers_are_told_of() {
    let file = file_at("a");
    let mut tree = local("/root", true);
    tree.summaries_sent(70, Ok::<(), u8>(())).unwrap();
    let shared = Worktree::Local(tree);
    let told = file
        .buffer_reloaded(
            &shared,
            5,
            Vec::new(),
            "f".to_string(),
            LineEnding::Windows,
            TIME,
        )
        .unwrap();
    assert_eq!(told.project_id, 70);
    assert_eq!(told.line_ending, LineEnding::Windows);
    let alone = Worktree::Local(local("/root", true));
    assert!(file
        .buffer_reloaded(
            &alone,
            5,
            Vec::new(),
            "f".to_string(),
            LineEnding::Unix,
            TIME
        )
        .is_none());
}

#[test]
fn the_scanner_tells_what_it_does() {
    let mut step = ScannerStep::first();
    let mut seen: Vec<ScannerStep> = Vec::new();
    let outcomes: Vec<Result<(), String>> = vec![
        Ok(()),
        Err("broken".to_string()),
        Ok(()),
        Ok(()),
        Ok(()),
        Ok(()),
        Ok(()),
        Ok(()),
        Err("gone".to_string()),
    ];
    for outcome in outcomes {
        step = step.next(outcome);
        seen.push(match &step {
            ScannerStep::Notify(ScanState::Failed(error)) => {
                ScannerStep::Notify(ScanState::Failed(error.clone()))
            }
            ScannerStep::Notify(ScanState::Idle) => ScannerStep::Notify(ScanState::Idle),
            ScannerStep::Notify(ScanState::Updating) => ScannerStep::Notify(ScanState::Updating),
            ScannerStep::Notify(ScanState::Initializing) => {
                ScannerStep::Notify(ScanState::Initializing)
            }
            ScannerStep::ScanDirs => ScannerStep::ScanDirs,
            ScannerStep::WaitForEvents => ScannerStep::WaitForEvents,
            ScannerStep::ProcessEvents => ScannerStep::ProcessEvents,
            ScannerStep::Stop => ScannerStep::Stop,
        });
    }
    assert_eq!(
        seen,
        vec![
            ScannerStep::ScanDirs,
            ScannerStep::Notify(ScanState::Failed("broken".to_string())),
            ScannerStep::Notify(ScanState::Idle),
            ScannerStep::WaitForEvents,
            ScannerStep::Notify(ScanState::Updating),
            ScannerStep::ProcessEvents,
            ScannerStep::Notify(ScanState::Idle),
            ScannerStep::WaitForEvents,
            ScannerStep::Stop,
        ]
    );
}

#[test]
fn a_new_remote_worktree_is_empty() {
    let tree = Worktree::remote(
        1,
        2,
        proto::WorktreeMetadata {
            id: 7,
            root_name: "Zed".to_string(),
            visible: true,
            abs_path: "/u/Zed".to_string(),
        },
    );
    assert!(tree.is_remote() && !tree.is_local());
    assert_eq!(tree.id().to_proto(), 7);
    assert_eq!(tree.id(), WorktreeId::from_usize(7));
    assert!(tree.id() < WorktreeId::from_usize(8));
    assert_eq!(tree.root_name(), "Zed");
    assert_eq!(tree.abs_path().as_str(), "/u/Zed");
    assert!(tree.is_visible());
    assert_eq!(tree.replica_id(), 2);
    assert_eq!(tree.scan_id(), 0);
    assert_eq!(tree.completed_scan_id(), 0);
    assert!(tree.current().entries(true).next().is_none());
    assert!(tree.diagnostic_summaries().is_empty());
}
