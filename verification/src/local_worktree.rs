//! A worktree of the local file system.
//!
//! Nothing here touches the file system or the network. A method that needs either tells what is
//! to be done, and its caller comes back with what came of it.
use crate::changed_repos::{changed, changed_repos, lists_repos};
use crate::char_bag::CharBag;
use crate::diagnostics::{
    is_summary_message, list_summaries, primary_count, set_summary, summaries_of, with_summary,
    DiagnosticEntry, DiagnosticSeverity, DiagnosticSummary, Summaries,
};
use crate::entry::{is_new_entry, Entry, Metadata, WorktreeError};
use crate::file::{is_file_message, File};
use crate::ids::{next_number, ProjectEntryId, WorktreeId};
use crate::local_snapshot::{GitRepositoryEntry, Ignores, LocalSnapshot, Removed, Repos};
use crate::path::{file_name_of, nested_in, Path};
use crate::path_map::AtPath;
use crate::path_text::text_behind;
use crate::proto;
use crate::proto::{LineEnding, Timestamp, VectorClockEntry};
use crate::refresh::{absolute_text, makes_entry, text};
use crate::snapshot::{entry_of_id, ids_in, kept_of, paths_in, ById, ByPath, Snapshot};
use crate::sum_tree::{by_key, sorted, SumTree};
use crate::text::lower_text;
use crate::traversal::lemma_components_empty;
use std::sync::Arc;
use vstd::prelude::*;

verus! {

/// How far the scan of a worktree is.
#[derive(Debug, PartialEq, Eq)]
pub enum ScanState {
    /// Nothing is being scanned.
    Idle,
    /// The file system is scanned for the first time.
    Initializing,
    /// Changes of the file system are brought in.
    Updating,
    /// A scan failed, with a message.
    Failed(String),
}

/// What a worktree tells those who watch it.
#[derive(Debug)]
pub enum Event {
    /// Entries changed.
    UpdatedEntries,
    /// These repositories changed.
    UpdatedGitRepositories(Vec<GitRepositoryEntry>),
}

/// Whether events tell that entries changed, and which repositories did.
pub open spec fn tells_of_change(events: Seq<Event>, repos: Repos) -> bool {
    &&& events.len() == if repos == Repos::empty() {
        1int
    } else {
        2int
    }
    &&& events[0] is UpdatedEntries
    &&& repos != Repos::empty() ==> (events[1] matches Event::UpdatedGitRepositories(list)
        && lists_repos(list@, repos))
}

/// What polling a worktree gives.
pub struct PollOutcome {
    pub events: Vec<Event>,
    /// Whether the worktree is to be polled again after a while.
    pub poll_again: bool,
    /// Whether the snapshot is to be sent to those with whom the worktree is shared.
    pub publish: bool,
}

/// What is to be done in the file system.
pub enum FsAction {
    CreateDir { path: Path },
    Save { path: Path, text: String, line_ending: LineEnding },
    RemoveFile { path: Path },
    /// Removes a directory and everything in it. A directory that is not there is an error.
    RemoveDir { path: Path },
    Rename { from: Path, to: Path },
    Copy { from: Path, to: Path },
}

/// What has to be read to load a file.
pub struct LoadRequest {
    /// The file.
    pub abs_path: Path,
    /// The number of the repository that the file lies in, and the path of the file in it.
    pub index: Option<(u64, Path)>,
}

/// What has to be done to save a buffer.
pub struct SaveRequest {
    pub action: FsAction,
    /// The project that the worktree is shared in, and that is told of the save.
    pub project_id: Option<u64>,
}

/// What saving a buffer gives.
pub struct SavedBuffer {
    /// The new file of the buffer, where it changed.
    pub file: Option<File>,
    pub update_file: Option<proto::UpdateBufferFile>,
    pub saved: Option<proto::BufferSaved>,
    pub mtime: Timestamp,
}

/// The diagnostics of files, by path.
pub type Diagnostics = Map<Seq<Seq<char>>, Seq<DiagnosticEntry>>;

/// A worktree of the local file system.
pub struct LocalWorktree {
    pub(crate) snapshot: LocalSnapshot,
    background_snapshot: LocalSnapshot,
    scan_state: ScanState,
    share: Option<u64>,
    diagnostics: SumTree<AtPath<Vec<DiagnosticEntry>>>,
    pub(crate) diagnostic_summaries: SumTree<AtPath<DiagnosticSummary>>,
    visible: bool,
}

/// The name of a worktree: the last name of its path.
pub open spec fn root_name_of(abs_path: Seq<Seq<char>>) -> Seq<char> {
    match file_name_of(abs_path) {
        Some(name) => name,
        None => Seq::empty(),
    }
}

/// Whether a snapshot is the first one of a worktree: it holds an entry for the root where the
/// file system says something of it, and nothing else.
pub open spec fn is_first_snapshot(
    l: LocalSnapshot,
    id: usize,
    abs_path: Arc<Path>,
    metadata: Option<Metadata>,
    entry_id: usize,
) -> bool {
    let name = root_name_of(abs_path.comps());
    let root = l.paths_map()[Seq::empty()];
    &&& l.snap().tree_id() == id
    &&& l.snap().root_path() == abs_path
    &&& l.snap().name() == name
    &&& l.snap().root_chars() == lower_text(name)
    &&& l.scan() == 0
    &&& l.snap().completed_scan() == 0
    &&& l.ignores() == Ignores::empty()
    &&& l.repos() == Seq::<GitRepositoryEntry>::empty()
    &&& l.removed() == Removed::empty()
    &&& match metadata {
        Some(m) => {
            &&& is_new_entry(root, Seq::empty(), m, lower_text(name))
            &&& root.id@ == entry_id
            &&& l.paths_map() == ByPath::empty().insert(Seq::empty(), root)
            &&& l.ids_map() == ById::empty().insert(entry_id, kept_of(root, 0))
        },
        None => l.paths_map() == ByPath::empty() && l.ids_map() == ById::empty(),
    }
}

impl LocalWorktree {
    /// What the worktree shows.
    pub closed spec fn local(&self) -> LocalSnapshot {
        self.snapshot
    }

    /// What the scan has found so far.
    pub closed spec fn found(&self) -> LocalSnapshot {
        self.background_snapshot
    }

    /// How far the scan is.
    pub closed spec fn state(&self) -> ScanState {
        self.scan_state
    }

    /// The project that the worktree is shared in.
    pub closed spec fn shared_in(&self) -> Option<u64> {
        self.share
    }

    /// The diagnostics of files.
    pub closed spec fn diagnostics_map(&self) -> Diagnostics {
        by_key(self.diagnostics@).map_values(|a: AtPath<Vec<DiagnosticEntry>>| a.value@)
    }

    /// The summaries of diagnostics in the order of their paths.
    pub closed spec fn summary_list(&self) -> Seq<AtPath<DiagnosticSummary>> {
        self.diagnostic_summaries@
    }

    /// The summaries of diagnostics.
    pub open spec fn summaries(&self) -> Summaries {
        summaries_of(self.summary_list())
    }

    /// Whether the worktree is shown.
    pub closed spec fn shown(&self) -> bool {
        self.visible
    }

    /// Whether everything stands in order.
    pub closed spec fn wf(&self) -> bool {
        &&& self.snapshot.wf()
        &&& self.background_snapshot.wf()
        &&& self.diagnostics.wf()
        &&& self.diagnostic_summaries.wf()
    }

    /// Whether all but the snapshots and the scan state is as it was.
    pub open spec fn same_but_snapshots(&self, other: LocalWorktree) -> bool {
        &&& self.shared_in() == other.shared_in()
        &&& self.diagnostics_map() == other.diagnostics_map()
        &&& self.summary_list() == other.summary_list()
        &&& self.shown() == other.shown()
    }

    /// Whether all but what the scan has found is as it was.
    pub open spec fn is_with_found(&self, other: LocalWorktree, found: LocalSnapshot) -> bool {
        &&& self.found() == found
        &&& self.local() == other.local()
        &&& self.state() == other.state()
        &&& self.same_but_snapshots(other)
    }

    /// A worktree before its first scan. It holds an entry for its root where the file system
    /// says something of it.
    pub fn create(
        id: WorktreeId,
        abs_path: Arc<Path>,
        visible: bool,
        metadata: Option<Metadata>,
        next_entry_id: &mut usize,
    ) -> (r: Self)
        ensures
            r.wf(),
            is_first_snapshot(r.local(), id@, abs_path, metadata, *old(next_entry_id)),
            r.found().same_as(r.local()),
            r.state() is Initializing,
            r.shared_in() is None,
            r.diagnostics_map() == Diagnostics::empty(),
            r.summaries() == Summaries::empty(),
            r.shown() == visible,
            *final(next_entry_id) == if metadata is Some {
                next_number(*old(next_entry_id))
            } else {
                *old(next_entry_id)
            },
    {
        let root_name: String = match abs_path.file_name() {
            Some(name) => name,
            None => String::new(),
        };
        let root_char_bag = CharBag::from_text(root_name.as_str());
        assert(root_name@ =~= root_name_of(abs_path.comps()));
        let mut snapshot = LocalSnapshot::new(
            Snapshot::new(id, abs_path, root_name, root_char_bag),
        );
        match metadata {
            Some(metadata) => {
                proof {
                    reveal_strlit("");
                }
                let path = Path::new("");
                assert(path@ =~= Seq::<char>::empty());
                let entry = Entry::new(
                    Arc::new(path),
                    &metadata,
                    next_entry_id,
                    &snapshot.snapshot.root_char_bag,
                );
                proof {
                    lemma_components_empty();
                    assert(entry.comps() =~= Seq::<Seq<char>>::empty());
                }
                let _ = snapshot.insert_entry(entry, None);
                assert(snapshot.removed() =~= Removed::empty());
            },
            None => {},
        }
        let background_snapshot = snapshot.clone();
        let r = LocalWorktree {
            snapshot,
            background_snapshot,
            scan_state: ScanState::Initializing,
            share: None,
            diagnostics: SumTree::new(),
            diagnostic_summaries: SumTree::new(),
            visible,
        };
        assert(r.diagnostics_map() =~= Diagnostics::empty());
        assert(r.summaries() =~= Summaries::empty());
        r
    }

    /// What the worktree shows.
    pub fn snapshot(&self) -> (r: LocalSnapshot)
        ensures
            r.same_as(self.local()),
            self.wf() ==> r.wf(),
    {
        self.snapshot.clone()
    }

    /// What the worktree shows, borrowed.
    pub fn current(&self) -> (r: &LocalSnapshot)
        ensures
            *r == self.local(),
            self.wf() ==> r.wf(),
    {
        &self.snapshot
    }

    /// What the scan has found so far.
    pub fn background_snapshot(&self) -> (r: &LocalSnapshot)
        ensures
            *r == self.found(),
            self.wf() ==> r.wf(),
    {
        &self.background_snapshot
    }

    /// What the scan has found so far, for the scan to go on with.
    pub fn background_snapshot_mut(&mut self) -> (r: &mut LocalSnapshot)
        ensures
            *r == old(self).found(),
            old(self).wf() ==> r.wf(),
            final(self).found() == *final(r),
            final(self).local() == old(self).local(),
            final(self).state() == old(self).state(),
            final(self).same_but_snapshots(*old(self)),
            old(self).wf() && final(r).wf() ==> final(self).wf(),
    {
        &mut self.background_snapshot
    }

    /// How far the scan is.
    pub fn scan_state(&self) -> (r: &ScanState)
        ensures
            *r == self.state(),
    {
        &self.scan_state
    }

    /// Notes how far the scan is.
    pub fn set_scan_state(&mut self, scan_state: ScanState)
        ensures
            final(self).state() == scan_state,
            final(self).local() == old(self).local(),
            final(self).found() == old(self).found(),
            final(self).same_but_snapshots(*old(self)),
            final(self).wf() == old(self).wf(),
    {
        self.scan_state = scan_state;
    }

    /// Whether no scan is going on.
    pub fn scan_complete(&self) -> (r: bool)
        ensures
            r == !(self.state() is Initializing || self.state() is Updating),
    {
        match self.scan_state {
            ScanState::Initializing => false,
            ScanState::Updating => false,
            _ => true,
        }
    }

    /// Whether an absolute path lies in the worktree.
    pub fn contains_abs_path(&self, path: &Path) -> (r: bool)
        ensures
            r == nested_in(path.comps(), self.local().snap().root_path().comps()),
    {
        path.starts_with(&self.snapshot.snapshot.abs_path)
    }

    /// The absolute path of what lies at a relative path.
    pub fn absolutize(&self, path: &Path) -> (r: Path)
        ensures
            r@ == absolute_text(self.local().root_text(), path@),
    {
        self.snapshot.absolutize(path)
    }

    /// Whether the worktree is shown.
    pub fn is_visible(&self) -> (r: bool)
        ensures
            r == self.shown(),
    {
        self.visible
    }

    /// The diagnostics of a file.
    pub fn diagnostics_for_path(&self, path: &Path) -> (r: Option<Vec<DiagnosticEntry>>)
        requires
            self.wf(),
        ensures
            r is Some <==> self.diagnostics_map().contains_key(path.comps()),
            r matches Some(ds) ==> ds@ == self.diagnostics_map()[path.comps()],
    {
        match self.diagnostics.get(path) {
            Some(a) => {
                let ds = a.value.clone();
                assert(ds@ =~= a.value@);
                Some(ds)
            },
            None => None,
        }
    }

    /// The summaries of diagnostics in the order of their paths.
    pub fn diagnostic_summaries(&self) -> (r: Vec<(Arc<Path>, DiagnosticSummary)>)
        requires
            self.wf(),
        ensures
            sorted(self.summary_list()),
            r@.len() == self.summary_list().len(),
            forall|i: int|
                #![trigger r@[i]]
                0 <= i < r@.len() ==> r@[i] == (
                    self.summary_list()[i].path,
                    self.summary_list()[i].value,
                ),
    {
        list_summaries(&self.diagnostic_summaries)
    }

    /// Replaces the diagnostics of a file. Tells whether there were or are any, and gives the
    /// message for those with whom the worktree is shared.
    pub fn update_diagnostics(
        &mut self,
        language_server_id: usize,
        worktree_path: Arc<Path>,
        diagnostics: Vec<DiagnosticEntry>,
    ) -> (r: (bool, Option<proto::UpdateDiagnosticSummary>))
        requires
            old(self).wf(),
        ensures
            final(self).wf(),
            final(self).local() == old(self).local(),
            final(self).found() == old(self).found(),
            final(self).state() == old(self).state(),
            final(self).shared_in() == old(self).shared_in(),
            final(self).shown() == old(self).shown(),
            old(self).diagnostics_map().dom() == old(self).summaries().dom()
                ==> final(self).diagnostics_map().dom() == final(self).summaries().dom(),
            ({
                let path = worktree_path.comps();
                let summary = DiagnosticSummary {
                    language_server_id,
                    error_count: primary_count(diagnostics@, DiagnosticSeverity::Error) as usize,
                    warning_count: primary_count(
                        diagnostics@,
                        DiagnosticSeverity::Warning,
                    ) as usize,
                };
                let had = old(self).summaries().contains_key(path) && !old(
                    self,
                ).summaries()[path].is_nothing();
                &&& final(self).summaries() == with_summary(
                    old(self).summaries(),
                    path,
                    summary,
                )
                &&& final(self).diagnostics_map() == if summary.is_nothing() {
                    old(self).diagnostics_map().remove(path)
                } else {
                    old(self).diagnostics_map().insert(path, diagnostics@)
                }
                &&& r.0 == (had || !summary.is_nothing())
                &&& r.1 is Some <==> r.0 && old(self).shared_in() is Some
                &&& r.1 matches Some(m) ==> {
                    &&& m.project_id == old(self).shared_in()->0
                    &&& m.worktree_id == old(self).local().snap().tree_id()
                    &&& m.summary is Some
                    &&& is_summary_message(summary, worktree_path@, m.summary->0)
                }
            }),
    {
        let ghost before = self.diagnostics_map();
        let ghost path = worktree_path.comps();
        let ghost ds = diagnostics@;
        let summary = DiagnosticSummary::new(language_server_id, &diagnostics);
        let _ = self.diagnostics.remove(&worktree_path);
        assert(self.diagnostics_map() =~= before.remove(path));
        let removed = set_summary(
            &mut self.diagnostic_summaries,
            worktree_path.clone(),
            summary,
        );
        let old_summary = match removed {
            Some(summary) => summary,
            None => DiagnosticSummary::default(),
        };
        let message = summary.to_proto(&worktree_path);
        if !summary.is_empty() {
            let _ = self.diagnostics.insert_or_replace(
                AtPath { path: worktree_path, value: diagnostics },
            );
            assert(self.diagnostics_map() =~= before.insert(path, ds));
        }
        let updated: bool = !old_summary.is_empty() || !summary.is_empty();
        let message = match self.share {
            Some(project_id) => if updated {
                Some(
                    proto::UpdateDiagnosticSummary {
                        project_id,
                        worktree_id: self.snapshot.snapshot.id.to_proto(),
                        summary: Some(message),
                    },
                )
            } else {
                None
            },
            None => None,
        };
        assert(old(self).diagnostics_map().dom() == old(self).summaries().dom()
            ==> self.diagnostics_map().dom() =~= self.summaries().dom());
        (updated, message)
    }

    /// The repositories that differ between two lists.
    pub fn changed_repos(
        old_repos: &[GitRepositoryEntry],
        new_repos: &[GitRepositoryEntry],
    ) -> (r: Vec<GitRepositoryEntry>)
        ensures
            lists_repos(r@, changed(old_repos@, new_repos@)),
            r@.len() == 0 <==> changed(old_repos@, new_repos@) == Repos::empty(),
    {
        changed_repos(old_repos, new_repos)
    }

    /// Shows what the scan has found so far. While nothing is scanned, or the first scan is going
    /// on, what was found is taken over and told of; a first scan is polled again, and one that has
    /// ended is sent to those with whom the worktree is shared. At other times it is taken over
    /// only by force.
    pub fn poll_snapshot(&mut self, force: bool) -> (r: PollOutcome)
        requires
            old(self).wf(),
        ensures
            final(self).wf(),
            is_polled(*old(self), force, r, *final(self)),
    {
        let mut events: Vec<Event> = Vec::new();
        let is_idle: bool = match self.scan_state {
            ScanState::Idle => true,
            _ => false,
        };
        let is_initializing: bool = match self.scan_state {
            ScanState::Initializing => true,
            _ => false,
        };
        if is_idle || is_initializing {
            let updated_repos = changed_repos(
                self.snapshot.git_repo_entries(),
                self.background_snapshot.git_repo_entries(),
            );
            self.snapshot = self.background_snapshot.clone();
            events.push(Event::UpdatedEntries);
            if updated_repos.len() > 0 {
                events.push(Event::UpdatedGitRepositories(updated_repos));
            }
        } else if force {
            self.snapshot = self.background_snapshot.clone();
        }
        PollOutcome { events, poll_again: is_initializing, publish: is_idle && self.share.is_some() }
    }

    /// Brings in a path that was just written, and takes out the path that it was moved from
    /// where there is one; then shows it. Gives back the entry. `contents` is the text of the
    /// file where it is an ignore file.
    pub fn refresh_entry(
        &mut self,
        path: Arc<Path>,
        old_path: Option<Arc<Path>>,
        metadata: Option<Metadata>,
        contents: Option<&str>,
        next_entry_id: &mut usize,
    ) -> (r: Result<(Entry, PollOutcome), WorktreeError>)
        requires
            old(self).wf(),
            old(self).found().scan() < usize::MAX,
        ensures
            final(self).wf(),
            match r {
                Ok((entry, outcome)) => {
                    &&& metadata is Some
                    &&& *final(next_entry_id) == next_number(*old(next_entry_id))
                    &&& makes_entry(
                        old(self).found(),
                        path,
                        old_path,
                        metadata->0,
                        text(contents),
                        *old(next_entry_id),
                        entry,
                        final(self).found(),
                    )
                    &&& exists|found: LocalWorktree|
                        {
                            &&& #[trigger] found.is_with_found(*old(self), final(self).found())
                            &&& is_polled(found, true, outcome, *final(self))
                        }
                },
                Err(error) => {
                    &&& error == WorktreeError::MissingMetadata
                    &&& metadata is None
                    &&& *final(self) == *old(self)
                    &&& *final(next_entry_id) == *old(next_entry_id)
                },
            },
    {
        let entry = match self.background_snapshot.refresh_entry(
            path,
            old_path,
            metadata,
            contents,
            next_entry_id,
        ) {
            Ok(entry) => entry,
            Err(error) => {
                return Err(error);
            },
        };
        let ghost found = *self;
        let outcome = self.poll_snapshot(true);
        assert(found.is_with_found(*old(self), self.found()));
        Ok((entry, outcome))
    }

    /// Takes out an entry that was deleted, with everything that lies in it, and shows it.
    pub fn entry_deleted(&mut self, entry_id: ProjectEntryId) -> (r: PollOutcome)
        requires
            old(self).wf(),
        ensures
            final(self).wf(),
            is_without_entry(old(self).found(), entry_id@, final(self).found()),
            exists|found: LocalWorktree|
                {
                    &&& #[trigger] found.is_with_found(*old(self), final(self).found())
                    &&& is_polled(found, true, r, *final(self))
                },
    {
        let _ = self.background_snapshot.snapshot.delete_entry(entry_id);
        let ghost found = *self;
        let outcome = self.poll_snapshot(true);
        assert(found.is_with_found(*old(self), self.found()));
        outcome
    }

    /// What the worktree is known by.
    pub fn metadata_proto(&self) -> (r: proto::WorktreeMetadata)
        ensures
            r.id == self.local().snap().tree_id(),
            r.root_name@ == self.local().snap().name(),
            r.visible == self.shown(),
            r.abs_path@ == self.local().root_text(),
    {
        proto::WorktreeMetadata {
            id: self.snapshot.snapshot.id.to_proto(),
            root_name: self.snapshot.snapshot.root_name.clone(),
            visible: self.visible,
            abs_path: self.snapshot.snapshot.abs_path.to_text(),
        }
    }

    /// What has to be read to load a file: the file itself, and the text of the file in the index
    /// of the innermost repository that it lies in.
    pub fn load(&self, path: &Path) -> (r: LoadRequest)
        requires
            self.wf(),
        ensures
            r.abs_path@ == absolute_text(self.local().root_text(), path@),
            r.index is None ==> forall|j: int|
                #![trigger self.local().repos()[j]]
                0 <= j < self.local().repos().len() ==> !nested_in(
                    path.comps(),
                    self.local().repos()[j].content_path.comps(),
                ),
            r.index matches Some((repo, rest)) ==> exists|i: int|
                #![trigger self.local().repos()[i]]
                {
                    &&& 0 <= i < self.local().repos().len()
                    &&& repo == self.local().repos()[i].repo
                    &&& is_innermost(self.local().repos(), path.comps(), i)
                    &&& rest.comps() == path.comps().skip(
                        self.local().repos()[i].content_path.comps().len() as int,
                    )
                    &&& rest@ == text_behind(
                        path@,
                        self.local().repos()[i].content_path.comps().len() as int,
                    )
                },
    {
        let abs_path = self.snapshot.absolutize(path);
        let index = match self.snapshot.repo_for(path) {
            Some(repo) => match path.strip_prefix(&repo.content_path) {
                Some(rest) => {
                    proof {
                        let i = self.local().repos().index_of(repo);
                        assert(self.local().repos()[i] == repo);
                        assert(is_innermost(self.local().repos(), path.comps(), i));
                    }
                    Some((repo.repo, rest))
                },
                None => None,
            },
            None => None,
        };
        LoadRequest { abs_path, index }
    }

    /// What is to be done to save a buffer. The project that is told of it is the one in which the
    /// worktree is shared by now, whatever happens until the buffer is saved.
    pub fn save_buffer(&self, path: &Path, text: String, line_ending: LineEnding) -> (r: SaveRequest)
        ensures
            is_save(
                r.action,
                absolute_text(self.local().root_text(), path@),
                text@,
                line_ending,
            ),
            r.project_id == self.shared_in(),
    {
        SaveRequest {
            action: self.write_file(path, text, line_ending),
            project_id: self.share,
        }
    }

    /// What follows where a buffer was saved: its file where it changed, and the messages for the
    /// project that is told of it. `entry` is that of the file, and `worktree` the number of the
    /// worktree.
    pub fn buffer_saved(
        project_id: Option<u64>,
        worktree: usize,
        buffer_id: u64,
        entry: Entry,
        has_changed_file: bool,
        version: Vec<VectorClockEntry>,
        fingerprint: String,
    ) -> (r: SavedBuffer)
        ensures
            r.mtime == entry.mtime,
            r.file is Some <==> has_changed_file,
            r.file matches Some(file) ==> file.is_for_entry(worktree, entry),
            r.update_file is Some <==> has_changed_file && project_id is Some,
            r.update_file matches Some(m) ==> {
                &&& m.project_id == project_id->0
                &&& m.buffer_id == buffer_id
                &&& m.file is Some
                &&& is_file_message(r.file->0, m.file->0)
            },
            r.saved is Some <==> project_id is Some,
            r.saved matches Some(m) ==> {
                &&& m.project_id == project_id->0
                &&& m.buffer_id == buffer_id
                &&& m.version@ == version@
                &&& m.mtime == Some(entry.mtime)
                &&& m.fingerprint@ == fingerprint@
            },
    {
        let mtime = entry.mtime;
        let file = if has_changed_file {
            Some(File::for_entry(worktree, entry))
        } else {
            None
        };
        let update_file = match (&file, project_id) {
            (Some(file), Some(project_id)) => Some(
                proto::UpdateBufferFile { project_id, buffer_id, file: Some(file.to_proto()) },
            ),
            _ => None,
        };
        let saved = match project_id {
            Some(project_id) => Some(
                proto::BufferSaved {
                    project_id,
                    buffer_id,
                    version,
                    mtime: Some(mtime),
                    fingerprint,
                },
            ),
            None => None,
        };
        SavedBuffer { file, update_file, saved, mtime }
    }

    /// What is to be done to create a directory or an empty file.
    pub fn create_entry(&self, path: &Path, is_dir: bool) -> (r: FsAction)
        ensures
            ({
                let abs = absolute_text(self.local().root_text(), path@);
                if is_dir {
                    r matches FsAction::CreateDir { path: p } && p@ == abs
                } else {
                    is_save(r, abs, Seq::empty(), LineEnding::Unix)
                }
            }),
    {
        if is_dir {
            FsAction::CreateDir { path: self.absolutize(path) }
        } else {
            self.write_file(path, String::new(), LineEnding::Unix)
        }
    }

    /// What is to be done to write a file.
    pub fn write_file(&self, path: &Path, text: String, line_ending: LineEnding) -> (r: FsAction)
        ensures
            is_save(r, absolute_text(self.local().root_text(), path@), text@, line_ending),
    {
        FsAction::Save { path: self.absolutize(path), text, line_ending }
    }

    /// What is to be done to delete an entry: nothing where there is none with the identifier.
    pub fn delete_entry(&self, entry_id: ProjectEntryId) -> (r: Option<FsAction>)
        requires
            self.wf(),
        ensures
            match entry_of_id(self.local().paths_map(), self.local().ids_map(), entry_id@) {
                Some(e) => {
                    let abs = absolute_text(self.local().root_text(), e.path@);
                    if e.is_file_entry() {
                        r matches Some(FsAction::RemoveFile { path }) && path@ == abs
                    } else {
                        r matches Some(FsAction::RemoveDir { path }) && path@ == abs
                    }
                },
                None => r is None,
            },
    {
        match self.snapshot.snapshot.entry_for_id(entry_id) {
            Some(entry) => {
                let path = self.absolutize(&entry.path);
                if entry.is_file() {
                    Some(FsAction::RemoveFile { path })
                } else {
                    Some(FsAction::RemoveDir { path })
                }
            },
            None => None,
        }
    }

    /// What is to be done to rename an entry, and the path that it has: nothing where there is
    /// none with the identifier.
    pub fn rename_entry(&self, entry_id: ProjectEntryId, new_path: &Path) -> (r: Option<
        (FsAction, Arc<Path>),
    >)
        requires
            self.wf(),
        ensures
            match entry_of_id(self.local().paths_map(), self.local().ids_map(), entry_id@) {
                Some(e) => {
                    let root = self.local().root_text();
                    &&& r matches Some((FsAction::Rename { from, to }, old_path))
                    &&& from@ == absolute_text(root, e.path@)
                    &&& to@ == absolute_text(root, new_path@)
                    &&& old_path == e.path
                },
                None => r is None,
            },
    {
        match self.snapshot.snapshot.entry_for_id(entry_id) {
            Some(entry) => {
                let from = self.absolutize(&entry.path);
                let to = self.absolutize(new_path);
                Some((FsAction::Rename { from, to }, entry.path.clone()))
            },
            None => None,
        }
    }

    /// What is to be done to copy an entry: nothing where there is none with the identifier.
    pub fn copy_entry(&self, entry_id: ProjectEntryId, new_path: &Path) -> (r: Option<FsAction>)
        requires
            self.wf(),
        ensures
            match entry_of_id(self.local().paths_map(), self.local().ids_map(), entry_id@) {
                Some(e) => {
                    let root = self.local().root_text();
                    &&& r matches Some(FsAction::Copy { from, to })
                    &&& from@ == absolute_text(root, e.path@)
                    &&& to@ == absolute_text(root, new_path@)
                },
                None => r is None,
            },
    {
        match self.snapshot.snapshot.entry_for_id(entry_id) {
            Some(entry) => {
                let from = self.absolutize(&entry.path);
                let to = self.absolutize(new_path);
                Some(FsAction::Copy { from, to })
            },
            None => None,
        }
    }

    /// Begins to share the worktree in a project. Gives the messages for the diagnostics that are
    /// known already, which have to be sent first; nothing where the worktree is shared already,
    /// and sending only goes on.
    pub fn share(&self, project_id: u64) -> (r: Option<Vec<proto::UpdateDiagnosticSummary>>)
        requires
            self.wf(),
        ensures
            sorted(self.summary_list()),
            r is None <==> self.shared_in() is Some,
            r matches Some(ms) ==> {
                &&& ms@.len() == self.summary_list().len()
                &&& forall|i: int|
                    #![trigger ms@[i]]
                    0 <= i < ms@.len() ==> {
                        &&& ms@[i].project_id == project_id
                        &&& ms@[i].worktree_id == self.local().snap().tree_id()
                        &&& ms@[i].summary is Some
                        &&& is_summary_message(
                            self.summary_list()[i].value,
                            self.summary_list()[i].path@,
                            ms@[i].summary->0,
                        )
                    }
            },
    {
        if self.share.is_some() {
            return None;
        }
        let ghost list = self.diagnostic_summaries@;
        let worktree_id: u64 = self.snapshot.snapshot.id.to_proto();
        let mut ms: Vec<proto::UpdateDiagnosticSummary> = Vec::new();
        let mut i: usize = 0;
        while i < self.diagnostic_summaries.len()
            invariant
                i <= list.len(),
                list == self.diagnostic_summaries@,
                worktree_id == self.local().snap().tree_id(),
                ms@.len() == i,
                forall|k: int|
                    #![trigger ms@[k]]
                    0 <= k < i ==> {
                        &&& ms@[k].project_id == project_id
                        &&& ms@[k].worktree_id == worktree_id
                        &&& ms@[k].summary is Some
                        &&& is_summary_message(
                            list[k].value,
                            list[k].path@,
                            ms@[k].summary->0,
                        )
                    },
            decreases list.len() - i,
        {
            let a = self.diagnostic_summaries.item(i);
            ms.push(
                proto::UpdateDiagnosticSummary {
                    project_id,
                    worktree_id,
                    summary: Some(a.value.to_proto(&a.path)),
                },
            );
            i = i + 1;
        }
        Some(ms)
    }

    /// Shares the worktree in a project once the messages for the diagnostics are sent. Where one
    /// could not be sent, the worktree stays as it was.
    pub fn summaries_sent<E>(&mut self, project_id: u64, outcome: Result<(), E>) -> (r: Result<
        (),
        E,
    >)
        ensures
            r == outcome,
            final(self).shared_in() == if outcome is Ok && old(self).shared_in() is None {
                Some(project_id)
            } else {
                old(self).shared_in()
            },
            final(self).local() == old(self).local(),
            final(self).found() == old(self).found(),
            final(self).state() == old(self).state(),
            final(self).diagnostics_map() == old(self).diagnostics_map(),
            final(self).summary_list() == old(self).summary_list(),
            final(self).shown() == old(self).shown(),
            final(self).wf() == old(self).wf(),
    {
        if outcome.is_ok() && self.share.is_none() {
            self.share = Some(project_id);
        }
        outcome
    }

    /// Ends sharing.
    pub fn unshare(&mut self)
        ensures
            final(self).shared_in() is None,
            final(self).local() == old(self).local(),
            final(self).found() == old(self).found(),
            final(self).state() == old(self).state(),
            final(self).diagnostics_map() == old(self).diagnostics_map(),
            final(self).summary_list() == old(self).summary_list(),
            final(self).shown() == old(self).shown(),
            final(self).wf() == old(self).wf(),
    {
        self.share = None;
    }

    /// Whether the worktree is shared.
    pub fn is_shared(&self) -> (r: bool)
        ensures
            r == (self.shared_in() is Some),
    {
        self.share.is_some()
    }

    /// The project that the worktree is shared in.
    pub fn shared_project(&self) -> (r: Option<u64>)
        ensures
            r == self.shared_in(),
    {
        self.share
    }
}

/// Whether a worktree is what polling makes of another.
pub open spec fn is_polled(
    before: LocalWorktree,
    force: bool,
    outcome: PollOutcome,
    after: LocalWorktree,
) -> bool {
    &&& after.state() == before.state()
    &&& after.found() == before.found()
    &&& after.same_but_snapshots(before)
    &&& outcome.poll_again == (before.state() is Initializing)
    &&& outcome.publish == (before.state() is Idle && before.shared_in() is Some)
    &&& if before.state() is Idle || before.state() is Initializing {
        &&& after.local().same_as(before.found())
        &&& tells_of_change(
            outcome.events@,
            changed(before.local().repos(), before.found().repos()),
        )
    } else {
        &&& outcome.events@.len() == 0
        &&& if force {
            after.local().same_as(before.found())
        } else {
            after.local() == before.local()
        }
    }
}

/// Whether a snapshot is what another one becomes where an entry and everything that lies in it
/// goes.
pub open spec fn is_without_entry(before: LocalSnapshot, id: usize, after: LocalSnapshot) -> bool {
    &&& if before.ids_map().contains_key(id) {
        let base = before.ids_map()[id].path.comps();
        &&& after.paths_map() == before.paths_map().remove_keys(paths_in(base))
        &&& after.ids_map() == before.ids_map().remove(id).remove_keys(
            ids_in(before.paths_map(), base),
        )
    } else {
        after.paths_map() == before.paths_map() && after.ids_map() == before.ids_map()
    }
    &&& after.ignores() == before.ignores()
    &&& after.repos() == before.repos()
    &&& after.removed() == before.removed()
    &&& after.same_scan(before)
}

/// Whether a repository is the innermost one that a path lies in.
pub open spec fn is_innermost(repos: Seq<GitRepositoryEntry>, path: Seq<Seq<char>>, i: int) -> bool {
    &&& nested_in(path, repos[i].content_path.comps())
    &&& forall|j: int|
        #![trigger repos[j]]
        0 <= j < repos.len() && nested_in(path, repos[j].content_path.comps()) ==> nested_in(
            repos[i].content_path.comps(),
            repos[j].content_path.comps(),
        )
}

/// Whether an action saves a text.
pub open spec fn is_save(action: FsAction, path: Seq<char>, t: Seq<char>, ending: LineEnding) -> bool {
    action matches FsAction::Save { path: p, text, line_ending } && p@ == path && text@ == t
        && line_ending == ending
}

} // verus!
