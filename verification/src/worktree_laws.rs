//! What a worktree does: what it asks of the file system, what it shows, what it tells of diagnostics,
//! and what it sends.
use crate::proto;
use crate::changed_repos::{changed, lists_repos};
use crate::diagnostics::{primary_count, DiagnosticEntry, DiagnosticSeverity, DiagnosticSummary};
use crate::entry::{Entry, Metadata, WorktreeError};
use crate::file::File;
use crate::ids::{ProjectEntryId, WorktreeId};
use crate::ignore_stack::lemma_git_names;
use crate::local_snapshot::{GitRepositoryEntry, LocalSnapshot, Repos};
use crate::local_worktree::{
    Event, FsAction, LoadRequest, LocalWorktree, PollOutcome, SaveRequest, SavedBuffer, ScanState,
};
use crate::path::{components, nested_in, Path};
use crate::path_laws::{ends_in_name, lemma_below_root};
use crate::path_lemmas::lemma_components_join;
use crate::path_text::text_behind;
use crate::proto::LineEnding;
use crate::repo_laws::lemma_changed_told;
use crate::scan_loop::ScannerStep;
use crate::snapshot_laws::tells_metadata;
use crate::sum_tree::{lemma_item_with, lemma_key_index};
use crate::worktree::Worktree;
use std::sync::Arc;
use vstd::prelude::*;

verus! {

/// Whether a path stands for a place below the root of a worktree, at which something can be written.
pub open spec fn is_below_root(path: Path) -> bool {
    &&& ends_in_name(path.comps())
    &&& !(path@.len() > 0 && path@[0] == '/')
    &&& path.comps()[0] != seq!['.']
}

/// A file is written at its own place below the root, with the text and the line ending that it is
/// given. It is so too where a buffer is saved, and then those with whom the worktree is shared are
/// told.
pub proof fn law_file_is_written_in_place(
    w: &LocalWorktree,
    path: &Path,
    text: String,
    ending: LineEnding,
    r: FsAction,
    s: SaveRequest,
)
    requires
        is_below_root(*path),
        call_ensures(LocalWorktree::write_file, (w, path, text, ending), r),
        call_ensures(LocalWorktree::save_buffer, (w, path, text, ending), s),
    ensures
        r matches FsAction::Save { path: p, text: t, line_ending: e } && {
            &&& p.comps() == w.local().snap().root_path().comps() + path.comps()
            &&& t@ == text@
            &&& e == ending
        },
        s.action matches FsAction::Save { path: p, text: t, line_ending: e } && {
            &&& p.comps() == w.local().snap().root_path().comps() + path.comps()
            &&& t@ == text@
            &&& e == ending
        },
        s.project_id == w.shared_in(),
{
    lemma_below_root(w.local().snap().root_path()@, path@);
}

/// An entry is created at its own place below the root: a directory, or an empty file.
pub proof fn law_entry_is_created_in_place(w: &LocalWorktree, path: &Path, is_dir: bool, r: FsAction)
    requires
        is_below_root(*path),
        call_ensures(LocalWorktree::create_entry, (w, path, is_dir), r),
    ensures
        ({
            let place = w.local().snap().root_path().comps() + path.comps();
            &&& is_dir ==> (r matches FsAction::CreateDir { path: p } && p.comps() == place)
            &&& !is_dir ==> (r matches FsAction::Save { path: p, text: t, line_ending: e } && {
                &&& p.comps() == place
                &&& t@.len() == 0
                &&& e == LineEnding::Unix
            })
        }),
{
    lemma_below_root(w.local().snap().root_path()@, path@);
}

/// Whether an entry is the one with a number.
pub open spec fn is_entry_of_number(l: LocalSnapshot, id: usize, e: Entry) -> bool {
    l.paths_map().contains_key(e.comps()) && l.paths_map()[e.comps()] == e && e.id@ == id
}

/// What is done to an entry is done to the one with the given number, at its own place: it is deleted,
/// as a file or as a directory; moved to the new place; or copied to it. Where no entry has the
/// number, nothing is done. This holds where the entries and their numbers agree.
pub proof fn law_entry_is_changed_in_place(
    w: &LocalWorktree,
    id: ProjectEntryId,
    to: &Path,
    e: Entry,
    deleted: Option<FsAction>,
    moved: Option<(FsAction, Arc<Path>)>,
    copied: Option<FsAction>,
)
    requires
        w.local().snap().is_consistent(),
        is_entry_of_number(w.local(), id@, e),
        is_below_root(*e.path),
        is_below_root(*to),
        call_ensures(LocalWorktree::delete_entry, (w, id), deleted),
        call_ensures(LocalWorktree::rename_entry, (w, id, to), moved),
        call_ensures(LocalWorktree::copy_entry, (w, id, to), copied),
    ensures
        ({
            let root = w.local().snap().root_path().comps();
            let there = root + e.comps();
            let target = root + to.comps();
            &&& if e.kind is File {
                deleted matches Some(FsAction::RemoveFile { path }) && path.comps() == there
            } else {
                deleted matches Some(FsAction::RemoveDir { path }) && path.comps() == there
            }
            &&& moved matches Some((FsAction::Rename { from, to: p }, old_path)) && {
                &&& from.comps() == there
                &&& p.comps() == target
                &&& old_path == e.path
            }
            &&& copied matches Some(FsAction::Copy { from, to: p }) && {
                &&& from.comps() == there
                &&& p.comps() == target
            }
        }),
{
    lemma_below_root(w.local().snap().root_path()@, e.path@);
    lemma_below_root(w.local().snap().root_path()@, to@);
    assert(w.local().paths_map().contains_key(e.comps()));
}

/// Nothing is done to an entry that is not there.
pub proof fn law_unknown_entry_is_left(
    w: &LocalWorktree,
    id: ProjectEntryId,
    to: &Path,
    deleted: Option<FsAction>,
    moved: Option<(FsAction, Arc<Path>)>,
    copied: Option<FsAction>,
)
    requires
        w.local().snap().is_consistent(),
        forall|p: Seq<Seq<char>>| #[trigger]
            w.local().paths_map().contains_key(p) ==> w.local().paths_map()[p].id@ != id@,
        call_ensures(LocalWorktree::delete_entry, (w, id), deleted),
        call_ensures(LocalWorktree::rename_entry, (w, id, to), moved),
        call_ensures(LocalWorktree::copy_entry, (w, id, to), copied),
    ensures
        deleted is None,
        moved is None,
        copied is None,
{
}

/// A file is loaded from its own place below the root; and from the index of the innermost repository
/// that it lies in, by the rest of its path, where it lies in one.
pub proof fn law_file_is_loaded_in_place(w: &LocalWorktree, path: &Path, r: LoadRequest, j: int)
    requires
        w.wf(),
        is_below_root(*path),
        call_ensures(LocalWorktree::load, (w, path), r),
        0 <= j < w.local().repos().len(),
        nested_in(path.comps(), w.local().repos()[j].content_path.comps()),
    ensures
        r.abs_path.comps() == w.local().snap().root_path().comps() + path.comps(),
        r.index matches Some((repo, rest)) && exists|i: int|
            #![trigger w.local().repos()[i]]
            {
                let dir = w.local().repos()[i].content_path.comps();
                &&& 0 <= i < w.local().repos().len()
                &&& repo == w.local().repos()[i].repo
                &&& path.comps() == dir + rest.comps()
                &&& nested_in(dir, w.local().repos()[j].content_path.comps())
            },
{
    lemma_below_root(w.local().snap().root_path()@, path@);
    let repos = w.local().repos();
    if r.index is Some {
        let (repo, rest) = r.index->0;
        let i = choose|i: int|
            #![trigger w.local().repos()[i]]
            {
                &&& 0 <= i < w.local().repos().len()
                &&& repo == w.local().repos()[i].repo
                &&& crate::local_worktree::is_innermost(w.local().repos(), path.comps(), i)
                &&& rest.comps() == path.comps().skip(
                    w.local().repos()[i].content_path.comps().len() as int,
                )
            };
        let dir = repos[i].content_path.comps();
        assert(nested_in(path.comps(), dir));
        assert(dir + path.comps().skip(dir.len() as int) =~= path.comps());
        assert(nested_in(dir, repos[j].content_path.comps()));
    }
}

/// Polling: once nothing is being scanned, or while the file system is scanned for the first time, a
/// worktree comes to show what was found; where it is made to, it does so at any time; else it goes on
/// showing what it showed. What was found stays as it is.
pub proof fn law_polling_shows_what_was_found(w: &mut LocalWorktree, force: bool, r: PollOutcome)
    requires
        call_ensures(LocalWorktree::poll_snapshot, (w, force), r),
    ensures
        ({
            let state = old(w).state();
            let shows = force || state is Idle || state is Initializing;
            let now = final(w).local();
            &&& shows ==> {
                &&& now.snap().list() == old(w).found().snap().list()
                &&& now.snap().id_list() == old(w).found().snap().id_list()
                &&& now.scan() == old(w).found().scan()
                &&& now.snap().completed_scan() == old(w).found().snap().completed_scan()
                &&& now.repos() == old(w).found().repos()
                &&& now.ignores() == old(w).found().ignores()
                &&& now.snap().root_path() == old(w).found().snap().root_path()
            }
            &&& !shows ==> now == old(w).local()
            &&& final(w).found() == old(w).found()
            &&& final(w).state() == state
            &&& final(w).shared_in() == old(w).shared_in()
            &&& final(w).diagnostics_map() == old(w).diagnostics_map()
            &&& r.poll_again <==> state is Initializing
            &&& r.publish <==> state is Idle && old(w).shared_in() is Some
            &&& r.events@.len() == 0 <==> !(state is Idle || state is Initializing)
            &&& r.events@.len() > 0 ==> r.events@[0] is UpdatedEntries
            &&& r.events@.len() <= 2
        }),
{
}

/// Whether each `.git` directory is that of one repository alone.
pub open spec fn is_of_one(repos: Seq<GitRepositoryEntry>) -> bool {
    forall|i: int, j: int|
        #![trigger repos[i], repos[j]]
        0 <= i < j < repos.len() ==> repos[i].git_dir_path.comps() != repos[j].git_dir_path.comps()
}

/// Whether a worktree, when it is polled, tells of a repository.
pub open spec fn tells_of(events: Seq<Event>, repo: GitRepositoryEntry) -> bool {
    events.len() > 1 && (events[1] matches Event::UpdatedGitRepositories(list) && list@.contains(repo))
}

/// Polling, where nothing is being scanned or the first scan goes on, tells of a repository that was
/// found exactly where none that was shown has both its `.git` directory and its scan, and of one that
/// was shown where none that was found has its `.git` directory. Otherwise it tells of none.
pub proof fn law_polling_tells_of_repositories(
    w: &mut LocalWorktree,
    force: bool,
    r: PollOutcome,
    repo: GitRepositoryEntry,
)
    requires
        call_ensures(LocalWorktree::poll_snapshot, (w, force), r),
        is_of_one(old(w).local().repos()),
        is_of_one(old(w).found().repos()),
    ensures
        ({
            let shown = old(w).local().repos();
            let found = old(w).found().repos();
            let state = old(w).state();
            let polls = state is Idle || state is Initializing;
            &&& found.contains(repo) && polls ==> (tells_of(r.events@, repo) <==> forall|j: int|
                #![trigger shown[j]]
                0 <= j < shown.len() ==> !(shown[j].git_dir_path.comps() == repo.git_dir_path.comps()
                    && shown[j].scan_id == repo.scan_id))
            &&& shown.contains(repo) && polls && (forall|j: int|
                #![trigger found[j]]
                0 <= j < found.len() ==> found[j].git_dir_path.comps() != repo.git_dir_path.comps())
                ==> tells_of(r.events@, repo)
            &&& !polls || !(found.contains(repo) || shown.contains(repo)) ==> !tells_of(r.events@, repo)
        }),
{
    let shown = old(w).local().repos();
    let found = old(w).found().repos();
    if old(w).state() is Idle || old(w).state() is Initializing {
        lemma_polled_repos(shown, found, r.events@, repo);
    }
}

proof fn lemma_polled_repos(
    shown: Seq<GitRepositoryEntry>,
    found: Seq<GitRepositoryEntry>,
    events: Seq<Event>,
    repo: GitRepositoryEntry,
)
    requires
        crate::local_worktree::tells_of_change(events, changed(shown, found)),
        is_of_one(shown),
        is_of_one(found),
    ensures
        found.contains(repo) ==> (tells_of(events, repo) <==> forall|j: int|
            #![trigger shown[j]]
            0 <= j < shown.len() ==> !(shown[j].git_dir_path.comps() == repo.git_dir_path.comps()
                && shown[j].scan_id == repo.scan_id)),
        shown.contains(repo) && (forall|j: int|
            #![trigger found[j]]
            0 <= j < found.len() ==> found[j].git_dir_path.comps() != repo.git_dir_path.comps())
            ==> tells_of(events, repo),
        !(found.contains(repo) || shown.contains(repo)) ==> !tells_of(events, repo),
{
    let told = changed(shown, found);
    if told == Repos::empty() {
        let none = Seq::<GitRepositoryEntry>::empty();
        assert(lists_repos(none, told));
        lemma_changed_told(shown, found, none);
        if found.contains(repo) {
            let i = choose|i: int| 0 <= i < found.len() && found[i] == repo;
            assert(!none.contains(found[i]));
        }
        if shown.contains(repo) {
            let i = choose|i: int| 0 <= i < shown.len() && shown[i] == repo;
            assert(!none.contains(shown[i]));
        }
    } else {
        let list = events[1]->UpdatedGitRepositories_0@;
        lemma_changed_told(shown, found, list);
        assert(tells_of(events, repo) == list.contains(repo));
        if found.contains(repo) {
            let i = choose|i: int| 0 <= i < found.len() && found[i] == repo;
            assert(found[i] == repo);
        }
        if shown.contains(repo) {
            let i = choose|i: int| 0 <= i < shown.len() && shown[i] == repo;
            assert(shown[i] == repo);
        }
        if list.contains(repo) {
            let k = choose|k: int| 0 <= k < list.len() && list[k] == repo;
            assert(list[k] == repo);
        }
    }
}

/// A worktree begins with its root alone, where the file system knows of it: the entry says what the
/// file system says, has the next number, and is to be read where it is a directory. Its name is the
/// last component of its path, where that is a name.
pub proof fn law_worktree_begins_with_its_root(
    id: WorktreeId,
    abs_path: Arc<Path>,
    visible: bool,
    metadata: Option<Metadata>,
    next_entry_id: &mut usize,
    w: LocalWorktree,
)
    requires
        call_ensures(LocalWorktree::create, (id, abs_path, visible, metadata, next_entry_id), w),
    ensures
        ({
            let l = w.local();
            let top = Seq::<Seq<char>>::empty();
            let ns = abs_path.comps();
            &&& l.snap().tree_id() == id@
            &&& l.snap().root_path() == abs_path
            &&& l.snap().name() == if ends_in_name(ns) {
                ns.last()
            } else {
                Seq::empty()
            }
            &&& forall|p: Seq<Seq<char>>| #[trigger]
                l.paths_map().contains_key(p) <==> metadata is Some && p == top
            &&& metadata matches Some(m) ==> {
                let e = l.paths_map()[top];
                &&& e.path@.len() == 0
                &&& e.inode == m.inode
                &&& e.mtime == m.mtime
                &&& e.is_symlink == m.is_symlink
                &&& !e.is_ignored
                &&& e.kind is PendingDir <==> m.is_dir
                &&& e.kind is File <==> !m.is_dir
                &&& e.id@ == *old(next_entry_id)
                &&& l.ids_map().contains_key(e.id@)
                &&& l.ids_map()[e.id@].path == e.path
                &&& *final(next_entry_id) != *old(next_entry_id)
            }
            &&& metadata is None ==> *final(next_entry_id) == *old(next_entry_id)
            &&& l.repos().len() == 0
            &&& l.scan() == 0
            &&& w.found().snap().list() == l.snap().list()
            &&& w.state() is Initializing
            &&& w.shared_in() is None
            &&& w.shown() == visible
        }),
{
    crate::path_laws::law_file_name_is_last(abs_path.comps());
}

/// How many diagnostics are counted: those of a severity that stand for themselves.
pub proof fn law_primary_diagnostics_are_counted(
    ds: &Vec<DiagnosticEntry>,
    server: usize,
    r: DiagnosticSummary,
)
    requires
        call_ensures(DiagnosticSummary::new, (server, ds), r),
    ensures
        r.language_server_id == server,
        r.error_count == ds@.filter(
            |d: DiagnosticEntry| d.is_primary && d.severity == DiagnosticSeverity::Error,
        ).len(),
        r.warning_count == ds@.filter(
            |d: DiagnosticEntry| d.is_primary && d.severity == DiagnosticSeverity::Warning,
        ).len(),
{
    lemma_counted(ds@, DiagnosticSeverity::Error);
    lemma_counted(ds@, DiagnosticSeverity::Warning);
    let e = |d: DiagnosticEntry| d.is_primary && d.severity == DiagnosticSeverity::Error;
    let v = |d: DiagnosticEntry| d.is_primary && d.severity == DiagnosticSeverity::Warning;
    assert(counts(DiagnosticSeverity::Error) =~= e);
    assert(counts(DiagnosticSeverity::Warning) =~= v);
}

spec fn counts(severity: DiagnosticSeverity) -> spec_fn(DiagnosticEntry) -> bool {
    |d: DiagnosticEntry| d.is_primary && d.severity == severity
}

proof fn lemma_counted(ds: Seq<DiagnosticEntry>, severity: DiagnosticSeverity)
    ensures
        primary_count(ds, severity) == ds.filter(counts(severity)).len(),
    decreases ds.len(),
{
    reveal(Seq::filter);
    if ds.len() > 0 {
        lemma_counted(ds.drop_last(), severity);
    }
}

/// Diagnostics of a path come in the place of those that it had, and go where there are no errors and
/// no warnings among them; those of other paths stay. The others are told exactly where there was or
/// is something to tell.
pub proof fn law_diagnostics_are_those_of_their_path(
    w: &mut LocalWorktree,
    server: usize,
    path: Arc<Path>,
    ds: Vec<DiagnosticEntry>,
    r: (bool, Option<proto::UpdateDiagnosticSummary>),
    other: Seq<Seq<char>>,
)
    requires
        call_ensures(LocalWorktree::update_diagnostics, (w, server, path, ds), r),
    ensures
        ({
            let p = path.comps();
            let is_something = exists|i: int|
                #![trigger ds@[i]]
                0 <= i < ds@.len() && ds@[i].is_primary && (ds@[i].severity is Error
                    || ds@[i].severity is Warning);
            let now = final(w).summaries();
            let kept = final(w).diagnostics_map();
            &&& kept.contains_key(p) <==> is_something
            &&& is_something ==> kept[p] == ds@
            &&& now.contains_key(p) <==> is_something
            &&& is_something ==> now[p].language_server_id == server
            &&& other != p ==> {
                &&& kept.contains_key(other) == old(w).diagnostics_map().contains_key(other)
                &&& kept.contains_key(other) ==> kept[other] == old(w).diagnostics_map()[other]
                &&& now.contains_key(other) == old(w).summaries().contains_key(other)
                &&& now.contains_key(other) ==> now[other] == old(w).summaries()[other]
            }
            &&& is_something ==> r.0
            &&& !old(w).summaries().contains_key(p) && !is_something ==> !r.0
            &&& r.1 is Some <==> r.0 && old(w).shared_in() is Some
            &&& r.1 matches Some(m) ==> {
                &&& m.project_id == old(w).shared_in()->0
                &&& m.worktree_id == old(w).local().snap().tree_id()
                &&& m.summary matches Some(s) && s.path@ == path@ && s.language_server_id == server
            }
        }),
{
    lemma_something(ds@);
    lemma_few(ds);
}

proof fn lemma_few(ds: Vec<DiagnosticEntry>)
    ensures
        primary_count(ds@, DiagnosticSeverity::Error) <= usize::MAX,
        primary_count(ds@, DiagnosticSeverity::Warning) <= usize::MAX,
{
    vstd::std_specs::vec::axiom_spec_len(&ds);
    lemma_bounded(ds@, DiagnosticSeverity::Error);
    lemma_bounded(ds@, DiagnosticSeverity::Warning);
}

proof fn lemma_bounded(ds: Seq<DiagnosticEntry>, severity: DiagnosticSeverity)
    ensures
        primary_count(ds, severity) <= ds.len(),
    decreases ds.len(),
{
    if ds.len() > 0 {
        lemma_bounded(ds.drop_last(), severity);
    }
}

proof fn lemma_something(ds: Seq<DiagnosticEntry>)
    ensures
        primary_count(ds, DiagnosticSeverity::Error) + primary_count(ds, DiagnosticSeverity::Warning)
            > 0 <==> exists|i: int|
            #![trigger ds[i]]
            0 <= i < ds.len() && ds[i].is_primary && (ds[i].severity is Error
                || ds[i].severity is Warning),
    decreases ds.len(),
{
    if ds.len() > 0 {
        let t = ds.drop_last();
        lemma_something(t);
        assert(ds[ds.len() - 1] == ds.last());
        if exists|i: int|
            #![trigger t[i]]
            0 <= i < t.len() && t[i].is_primary && (t[i].severity is Error || t[i].severity is Warning) {
            let i = choose|i: int|
                #![trigger t[i]]
                0 <= i < t.len() && t[i].is_primary && (t[i].severity is Error
                    || t[i].severity is Warning);
            assert(ds[i] == t[i]);
        }
        if exists|i: int|
            #![trigger ds[i]]
            0 <= i < ds.len() && ds[i].is_primary && (ds[i].severity is Error
                || ds[i].severity is Warning) {
            let i = choose|i: int|
                #![trigger ds[i]]
                0 <= i < ds.len() && ds[i].is_primary && (ds[i].severity is Error
                    || ds[i].severity is Warning);
            if i < t.len() {
                assert(ds[i] == t[i]);
            }
        }
    }
}

/// The path by which a file is shown: the name of its worktree where that is visible, and its own path
/// behind it.
pub proof fn law_shown_file_is_below_the_name(file: &File, worktree: &Worktree, home: &Path, r: Path)
    requires
        call_ensures(File::full_path, (file, worktree, home), r),
        worktree.shown(),
        worktree.snap().name().len() > 0,
        worktree.snap().name()[0] != '/',
    ensures
        file.path@.len() == 0 || file.path.comps().len() == 0 ==> r@ == worktree.snap().name(),
        file.path.comps().len() > 0 && !(file.path@.len() > 0 && file.path@[0] == '/')
            && file.path.comps()[0] != seq!['.'] ==> r.comps() == components(worktree.snap().name())
            + file.path.comps(),
{
    let name = worktree.snap().name();
    assert(Seq::<char>::empty() + name =~= name);
    if file.path@.len() == 0 {
        assert(file.path@ =~= Seq::empty());
        crate::traversal::lemma_components_empty();
    }
    if !crate::path::is_absolute_text(file.path@) && file.path.comps().len() > 0 && file.path.comps()[0]
        != seq!['.'] {
        lemma_components_join(name, file.path@);
    }
}

/// The path by which a file of a worktree that is not visible is shown: where the worktree is local and
/// lies in the home directory, what is left of its path there, behind `~`; else its whole path. The
/// path of the file stands behind it.
pub proof fn law_hidden_file_is_below_the_path(file: &File, worktree: &Worktree, home: &Path, r: Path)
    requires
        call_ensures(File::full_path, (file, worktree, home), r),
        !worktree.shown(),
        file.path.comps().len() == 0,
        worktree.snap().root_path()@.len() > 0,
    ensures
        ({
            let root = worktree.snap().root_path();
            let n = home.comps().len() as int;
            let rest = text_behind(root@, n);
            let is_home = worktree is Local && nested_in(root.comps(), home.comps());
            &&& !is_home ==> r@ == root@
            &&& is_home && !(rest.len() > 0 && rest[0] == '/') ==> r@ == seq!['~', '/'] + rest
        }),
{
    let root = worktree.snap().root_path()@;
    let tilde: Seq<char> = seq!['~'];
    assert(Seq::<char>::empty() + root =~= root);
    assert(Seq::<char>::empty() + tilde =~= tilde);
    assert(tilde.push('/') =~= seq!['~', '/']);
    assert(tilde[0] == '~');
}

/// The name by which a file is shown is its file name, and that of its worktree where it has none.
pub proof fn law_file_is_named(file: &File, worktree: &Worktree, r: String)
    requires
        call_ensures(File::file_name, (file, worktree), r),
    ensures
        r@ == if ends_in_name(file.path.comps()) {
            file.path.comps().last()
        } else {
            worktree.snap().name()
        },
{
    crate::path_laws::law_file_name_is_last(file.path.comps());
}

/// The file of an entry is that entry's, and says what the entry says. It is not deleted, and its entry
/// is found by its number.
pub proof fn law_file_is_that_of_its_entry(
    worktree: usize,
    e: Entry,
    file: File,
    id: Option<ProjectEntryId>,
)
    requires
        call_ensures(File::for_entry, (worktree, e), file),
        call_ensures(File::project_entry_id, (&file,), id),
    ensures
        file.worktree == worktree,
        file.path == e.path,
        file.mtime == e.mtime,
        file.is_local,
        !file.is_deleted,
        id matches Some(i) && i@ == e.id@,
{
}

/// A deleted file has no entry.
pub proof fn law_deleted_file_has_no_entry(file: &File, id: Option<ProjectEntryId>)
    requires
        call_ensures(File::project_entry_id, (file,), id),
    ensures
        id is Some <==> !file.is_deleted,
        id matches Some(i) ==> i == file.entry_id,
{
}

/// Once a buffer was saved, the others are told of it where the worktree is shared, with the time at
/// which the file was written; and the buffer gets a new file exactly where it changed, of which the
/// others are told too.
pub proof fn law_saved_buffer_is_told(
    project_id: Option<u64>,
    worktree: usize,
    buffer_id: u64,
    e: Entry,
    has_changed: bool,
    version: Vec<proto::VectorClockEntry>,
    fingerprint: String,
    r: SavedBuffer,
)
    requires
        call_ensures(
            LocalWorktree::buffer_saved,
            (project_id, worktree, buffer_id, e, has_changed, version, fingerprint),
            r,
        ),
    ensures
        r.mtime == e.mtime,
        r.file is Some <==> has_changed,
        r.file matches Some(f) ==> f.path == e.path && f.entry_id == e.id && f.mtime == e.mtime
            && f.worktree == worktree,
        r.saved is Some <==> project_id is Some,
        r.saved matches Some(m) ==> {
            &&& Some(m.project_id) == project_id
            &&& m.buffer_id == buffer_id
            &&& m.version@ == version@
            &&& m.mtime == Some(e.mtime)
            &&& m.fingerprint@ == fingerprint@
        },
        r.update_file is Some <==> has_changed && project_id is Some,
        r.update_file matches Some(m) ==> {
            &&& Some(m.project_id) == project_id
            &&& m.buffer_id == buffer_id
            &&& m.file matches Some(f) && f.path@ == e.path@ && f.entry_id == e.id@ && f.mtime == Some(
                e.mtime,
            )
        },
{
}

/// What others are told of a worktree: its number, its name, its path and whether it is visible; and
/// the summaries of its diagnostics, each with its path, once it is shared and not before.
pub proof fn law_sharing_tells_summaries(
    w: &LocalWorktree,
    project_id: u64,
    m: proto::WorktreeMetadata,
    r: Option<Vec<proto::UpdateDiagnosticSummary>>,
    i: int,
)
    requires
        call_ensures(LocalWorktree::metadata_proto, (w,), m),
        call_ensures(LocalWorktree::share, (w, project_id), r),
    ensures
        m.id == w.local().snap().tree_id(),
        m.root_name@ == w.local().snap().name(),
        m.visible == w.shown(),
        m.abs_path@ == w.local().snap().root_path()@,
        r is Some <==> w.shared_in() is None,
        r matches Some(ms) ==> {
            &&& ms@.len() == w.summary_list().len()
            &&& 0 <= i < ms@.len() ==> {
                &&& ms@[i].project_id == project_id
                &&& ms@[i].worktree_id == w.local().snap().tree_id()
                &&& ms@[i].summary matches Some(s) && {
                    &&& s.path@ == w.summary_list()[i].path@
                    &&& s.language_server_id == w.summary_list()[i].value.language_server_id
                    &&& w.summary_list()[i].value.error_count <= u32::MAX ==> s.error_count
                        == w.summary_list()[i].value.error_count
                    &&& w.summary_list()[i].value.warning_count <= u32::MAX ==> s.warning_count
                        == w.summary_list()[i].value.warning_count
                }
            }
        },
{
}

/// A worktree is shared in a project once its summaries were sent there, and until it is unshared. What
/// went wrong is told.
pub proof fn law_worktree_is_shared_once_sent(
    w: &mut LocalWorktree,
    project_id: u64,
    outcome: Result<(), u64>,
    r: Result<(), u64>,
    later: &mut LocalWorktree,
    is_shared: bool,
)
    requires
        call_ensures(LocalWorktree::summaries_sent, (w, project_id, outcome), r),
        old(w).shared_in() is None,
        *old(later) == *final(w),
        call_ensures(LocalWorktree::is_shared, (&*final(w),), is_shared),
        call_ensures(LocalWorktree::unshare, (later,), ()),
    ensures
        r == outcome,
        is_shared <==> outcome is Ok,
        outcome is Ok ==> final(w).shared_in() == Some(project_id),
        final(later).shared_in() is None,
        final(later).local() == old(w).local(),
        final(later).diagnostics_map() == old(w).diagnostics_map(),
{
}

/// A scan is over where none is going on: a path belongs to a worktree exactly where it lies in its
/// root, at any depth.
pub proof fn law_worktree_holds_what_lies_in_it(w: &LocalWorktree, path: &Path, r: bool, is_over: bool)
    requires
        call_ensures(LocalWorktree::contains_abs_path, (w, path), r),
        call_ensures(LocalWorktree::scan_complete, (w,), is_over),
    ensures
        r <==> exists|rest: Seq<Seq<char>>|
            path.comps() == #[trigger] (w.local().snap().root_path().comps() + rest),
        is_over <==> w.state() is Idle || w.state() is Failed,
{
    crate::path_laws::law_nested_is_prefix(path.comps(), w.local().snap().root_path().comps());
}

/// A repository is to be opened where a `.git` directory is read for which none is known: where its
/// path is there, its last component is `.git`, and no repository has the directory above it.
pub proof fn law_unknown_repository_is_opened(l: &LocalSnapshot, path: &Path, r: Option<Path>)
    requires
        call_ensures(LocalSnapshot::repo_to_open, (l, path), r),
        l.wf(),
    ensures
        ({
            let ns = path.comps();
            let is_git = ns.len() > 0 && ns.last() == seq!['.', 'g', 'i', 't'];
            &&& r is Some <==> is_git && l.paths_map().contains_key(ns) && forall|j: int|
                #![trigger l.repos()[j]]
                0 <= j < l.repos().len() ==> l.repos()[j].content_path.comps() != ns.drop_last()
            &&& r is Some && !(path@.len() > 0 && path@[0] == '/') && ns[0] != seq!['.']
                ==> r->0.comps() == l.snap().root_path().comps() + ns
        }),
{
    let ns = path.comps();
    lemma_git_names();
    crate::path_laws::law_file_name_is_last(ns);
    if ns.len() > 0 {
        if l.repo_map().contains_key(ns.drop_last()) {
            let j = lemma_key_index(l.repos(), ns.drop_last());
            assert(l.repos()[j].content_path.comps() == ns.drop_last());
        }
        if exists|j: int|
            #![trigger l.repos()[j]]
            0 <= j < l.repos().len() && l.repos()[j].content_path.comps() == ns.drop_last() {
            let j = choose|j: int|
                #![trigger l.repos()[j]]
                0 <= j < l.repos().len() && l.repos()[j].content_path.comps() == ns.drop_last();
            lemma_item_with(l.repos(), j);
        }
        if !crate::path::is_absolute_text(path@) && ns[0] != seq!['.'] {
            lemma_components_join(l.snap().root_path()@, path@);
        }
    }
}

/// Where a path was written, a local worktree comes to show its entry at once, with what the file
/// system says; what lay in the path that it was moved from is gone; and every other entry is as it was
/// found before.
pub proof fn law_written_path_is_shown(
    w: &mut LocalWorktree,
    path: Arc<Path>,
    old_path: Option<Arc<Path>>,
    metadata: Option<Metadata>,
    contents: Option<&str>,
    next_entry_id: &mut usize,
    r: Result<(Entry, PollOutcome), WorktreeError>,
    p: Seq<Seq<char>>,
)
    requires
        call_ensures(
            LocalWorktree::refresh_entry,
            (w, path, old_path, metadata, contents, next_entry_id),
            r,
        ),
    ensures
        r is Ok <==> metadata is Some,
        r is Err ==> *final(w) == *old(w),
        r matches Ok((e, outcome)) ==> {
            let now = final(w).local().paths_map();
            let was = old(w).found().paths_map();
            let is_moved = old_path matches Some(o) && nested_in(p, o.comps());
            &&& tells_metadata(e, path.comps(), metadata->0)
            &&& now.contains_key(path.comps()) && now[path.comps()] == e
            &&& p != path.comps() && is_moved ==> !now.contains_key(p)
            &&& p != path.comps() && !is_moved ==> {
                &&& now.contains_key(p) == was.contains_key(p)
                &&& now.contains_key(p) ==> now[p] == was[p]
            }
            &&& final(w).found().paths_map() == now
            &&& final(w).state() == old(w).state()
            &&& final(w).shared_in() == old(w).shared_in()
        },
{
}

/// A worktree that is polled shows what was found, where it is local and not being updated, and what it
/// was told, where it is remote.
pub proof fn law_any_worktree_is_polled(w: &mut Worktree, r: PollOutcome)
    requires
        call_ensures(Worktree::poll_snapshot, (w,), r),
    ensures
        *old(w) matches Worktree::Local(before) ==> (*final(w) matches Worktree::Local(after) && {
            let state = before.state();
            &&& state is Idle || state is Initializing ==> after.local().snap().list()
                == before.found().snap().list()
            &&& !(state is Idle || state is Initializing) ==> after.local() == before.local()
            &&& after.found() == before.found()
        }),
        *old(w) matches Worktree::Remote(before) ==> (*final(w) matches Worktree::Remote(after) && {
            &&& after.shows().list() == before.told().list()
            &&& after.told() == before.told()
        }),
{
}

/// The scanner scans the file system once it has told that it begins; tells what went wrong, and that it
/// is idle; waits, brings in what happened, and tells that it is idle again. It stops where it cannot
/// tell, or nothing is to be waited for.
pub proof fn law_scanner_goes_round(
    first: ScannerStep,
    scan: ScannerStep,
    idle: ScannerStep,
    wait: ScannerStep,
    update: ScannerStep,
    process: ScannerStep,
    again: ScannerStep,
)
    requires
        call_ensures(ScannerStep::first, (), first),
        call_ensures(ScannerStep::next, (first, Ok(())), scan),
        call_ensures(ScannerStep::next, (scan, Ok(())), idle),
        call_ensures(ScannerStep::next, (idle, Ok(())), wait),
        call_ensures(ScannerStep::next, (wait, Ok(())), update),
        call_ensures(ScannerStep::next, (update, Ok(())), process),
        call_ensures(ScannerStep::next, (process, Ok(())), again),
    ensures
        first == ScannerStep::Notify(ScanState::Initializing),
        scan is ScanDirs,
        idle == ScannerStep::Notify(ScanState::Idle),
        wait is WaitForEvents,
        update == ScannerStep::Notify(ScanState::Updating),
        process is ProcessEvents,
        again == idle,
{
}

/// What the scanner does where something goes wrong: it tells of a first scan that failed, and is idle
/// then; else it stops, and does nothing any more.
pub proof fn law_scanner_tells_failure(
    step: ScannerStep,
    error: String,
    r: ScannerStep,
    idle: ScannerStep,
    outcome: Result<(), String>,
    still: ScannerStep,
)
    requires
        call_ensures(ScannerStep::next, (step, Err(error)), r),
        call_ensures(ScannerStep::next, (ScannerStep::Notify(ScanState::Failed(error)), Ok(())), idle),
        call_ensures(ScannerStep::next, (ScannerStep::Stop, outcome), still),
    ensures
        step is ScanDirs ==> r == ScannerStep::Notify(ScanState::Failed(error)),
        !(step is ScanDirs) ==> r is Stop,
        idle == ScannerStep::Notify(ScanState::Idle),
        still is Stop,
{
}

/// The diagnostics of a path are those that it was given last, where there is an error or a warning
/// among them that stands for itself.
pub proof fn law_given_diagnostics_are_found(
    w: &mut LocalWorktree,
    server: usize,
    path: Arc<Path>,
    ds: Vec<DiagnosticEntry>,
    r: (bool, Option<proto::UpdateDiagnosticSummary>),
    at: &Path,
    found: Option<Vec<DiagnosticEntry>>,
    i: int,
)
    requires
        call_ensures(LocalWorktree::update_diagnostics, (w, server, path, ds), r),
        call_ensures(LocalWorktree::diagnostics_for_path, (&*final(w), at), found),
        at.comps() == path.comps(),
        0 <= i < ds@.len(),
        ds@[i].is_primary,
        ds@[i].severity is Error || ds@[i].severity is Warning,
    ensures
        found matches Some(v) && v@ == ds@,
{
    lemma_something(ds@);
    lemma_few(ds);
}

/// Once a buffer was loaded again, the others are told of it where the worktree is shared, with what the
/// buffer has become.
pub proof fn law_reloaded_buffer_is_told(
    file: &File,
    worktree: &Worktree,
    buffer_id: u64,
    version: Vec<proto::VectorClockEntry>,
    fingerprint: String,
    ending: LineEnding,
    mtime: proto::Timestamp,
    r: Option<proto::BufferReloaded>,
)
    requires
        call_ensures(
            File::buffer_reloaded,
            (file, worktree, buffer_id, version, fingerprint, ending, mtime),
            r,
        ),
        worktree is Local,
    ensures
        r is Some <==> worktree->Local_0.shared_in() is Some,
        r matches Some(m) ==> {
            &&& Some(m.project_id) == worktree->Local_0.shared_in()
            &&& m.buffer_id == buffer_id
            &&& m.version@ == version@
            &&& m.mtime == Some(mtime)
            &&& m.fingerprint@ == fingerprint@
            &&& m.line_ending == ending
        },
{
}

/// A scan that begins is the next one, and has ended once it is completed; no entry changes by that.
pub proof fn law_scans_begin_and_end(l: &mut LocalSnapshot, later: &mut LocalSnapshot)
    requires
        call_ensures(LocalSnapshot::scan_started, (l,), ()),
        *old(later) == *final(l),
        call_ensures(LocalSnapshot::scan_completed, (later,), ()),
    ensures
        final(l).scan() == old(l).scan() + 1,
        final(l).snap().completed_scan() == old(l).snap().completed_scan(),
        final(later).scan() == final(l).scan(),
        final(later).snap().completed_scan() == final(later).scan(),
        final(later).snap().list() == old(l).snap().list(),
        final(later).snap().id_list() == old(l).snap().id_list(),
        final(later).ignores() == old(l).ignores(),
        final(later).repos() == old(l).repos(),
{
}

} // verus!
