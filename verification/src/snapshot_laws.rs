//! What a snapshot holds: which entry is found by a path or a number, what comes and goes with a
//! change, and how much there is.
use crate::proto;
use crate::char_bag::CharBag;
use crate::entry::{
    char_bag_for_path, total_counts, Entry, EntryKind, EntrySummary, Metadata, WorktreeError,
};
use crate::ids::{next_number, nth_number, ProjectEntryId};
use crate::ignore_stack::{gitignore_name, lemma_git_names};
use crate::inodes::InodeSet;
use crate::local_snapshot::{entries_in, path_ignored, removed_with, LocalSnapshot, Removed};
use crate::local_worktree::{LocalWorktree, PollOutcome};
use crate::path::{components, is_absolute_text, join_text, nested_in, render, root_length, Path};
use crate::path_lemmas::{
    lemma_child_comps, lemma_components_join, lemma_components_render, lemma_components_well_named,
};
use crate::path_text::{lemma_first_written, text_of_first};
use crate::refresh::absolute_text;
use crate::snapshot::{
    consistent, entries_by_path, entry_of_id, first_unknown, ids_in, is_updated, paths_of,
    paths_taken_out, ById, ByPath, Snapshot,
};
use crate::sum_tree::{lemma_item_with, lemma_key_index};
use crate::text::ascii_lower;
use crate::traversal::included;
use crate::update::lemma_entries_by_path;
use std::sync::Arc;
use vstd::prelude::*;

verus! {

/// Whether an entry tells what the file system says of a path.
pub open spec fn tells_metadata(e: Entry, path: Seq<Seq<char>>, m: Metadata) -> bool {
    &&& e.comps() == path
    &&& e.inode == m.inode
    &&& e.mtime == m.mtime
    &&& e.is_symlink == m.is_symlink
}

/// Where a path was written, its entry is there and says what the file system says, marked with a scan
/// that has begun and ended; what lay in the path that it was moved from is gone; and every other
/// entry is as it was.
pub proof fn law_written_path_is_there(
    l: &mut LocalSnapshot,
    path: Arc<Path>,
    old_path: Option<Arc<Path>>,
    metadata: Option<Metadata>,
    contents: Option<&str>,
    next_entry_id: &mut usize,
    r: Result<Entry, WorktreeError>,
    p: Seq<Seq<char>>,
)
    requires
        call_ensures(
            LocalSnapshot::refresh_entry,
            (l, path, old_path, metadata, contents, next_entry_id),
            r,
        ),
    ensures
        r is Ok <==> metadata is Some,
        r is Err ==> r->Err_0 == WorktreeError::MissingMetadata && *final(l) == *old(l),
        r matches Ok(e) ==> {
            let now = final(l).paths_map();
            let was = old(l).paths_map();
            let is_moved = old_path matches Some(o) && nested_in(p, o.comps());
            &&& tells_metadata(e, path.comps(), metadata->0)
            &&& !metadata->0.is_dir ==> e.kind is File
            &&& e.is_ignored == path_ignored(
                old(l).ignores(),
                absolute_text(old(l).snap().root_path()@, path@),
                metadata->0.is_dir,
            )
            &&& now.contains_key(path.comps()) && now[path.comps()] == e
            &&& p != path.comps() && is_moved ==> !now.contains_key(p)
            &&& p != path.comps() && !is_moved ==> {
                &&& now.contains_key(p) == was.contains_key(p)
                &&& now.contains_key(p) ==> now[p] == was[p]
            }
            &&& final(l).scan() == old(l).scan() + 1
            &&& final(l).snap().completed_scan() == final(l).scan()
            &&& final(l).ids_map().contains_key(e.id@)
            &&& final(l).ids_map()[e.id@].path.comps() == path.comps()
            &&& final(l).ids_map()[e.id@].scan_id == final(l).scan()
            &&& final(l).snap().root_path() == old(l).snap().root_path()
        },
{
}

/// Putting in an entry: it comes to its path, with all that it says, and takes the place of what was
/// there; every other entry is as it was. It has the number that its inode had before it was removed,
/// else the one of the entry that it replaces, else its own.
pub proof fn law_inserted_entry_is_there(
    l: &mut LocalSnapshot,
    e: Entry,
    contents: Option<&str>,
    r: Entry,
    p: Seq<Seq<char>>,
)
    requires
        call_ensures(LocalSnapshot::insert_entry, (l, e, contents), r),
    ensures
        ({
            let now = final(l).paths_map();
            let was = old(l).paths_map();
            &&& r.path == e.path
            &&& r.inode == e.inode
            &&& r.mtime == e.mtime
            &&& r.is_symlink == e.is_symlink
            &&& r.is_ignored == e.is_ignored
            &&& e.kind is PendingDir && was.contains_key(e.comps()) ==> r.kind == was[e.comps()].kind
            &&& !(e.kind is PendingDir && was.contains_key(e.comps())) ==> r.kind == e.kind
            &&& old(l).removed().contains_key(e.inode) ==> r.id@ == old(l).removed()[e.inode]
            &&& !old(l).removed().contains_key(e.inode) && was.contains_key(e.comps()) ==> r.id@
                == was[e.comps()].id@
            &&& !old(l).removed().contains_key(e.inode) && !was.contains_key(e.comps()) ==> r.id@
                == e.id@
            &&& now.contains_key(e.comps()) && now[e.comps()] == r
            &&& p != e.comps() ==> {
                &&& now.contains_key(p) == was.contains_key(p)
                &&& now.contains_key(p) ==> now[p] == was[p]
            }
            &&& final(l).ids_map().contains_key(r.id@)
            &&& final(l).ids_map()[r.id@].path.comps() == e.comps()
            &&& final(l).ids_map()[r.id@].is_ignored == r.is_ignored
            &&& final(l).ids_map()[r.id@].scan_id == old(l).scan()
            &&& forall|id: usize|
                id != r.id@ ==> {
                    &&& #[trigger] final(l).ids_map().contains_key(id) == old(
                        l,
                    ).ids_map().contains_key(id)
                    &&& final(l).ids_map().contains_key(id) ==> final(l).ids_map()[id] == old(
                        l,
                    ).ids_map()[id]
                }
            &&& !final(l).removed().contains_key(e.inode)
            &&& forall|n: u64|
                n != e.inode ==> {
                    &&& #[trigger] final(l).removed().contains_key(n) == old(l).removed().contains_key(n)
                    &&& final(l).removed().contains_key(n) ==> final(l).removed()[n] == old(
                        l,
                    ).removed()[n]
                }
            &&& final(l).scan() == old(l).scan()
            &&& final(l).repos() == old(l).repos()
        }),
{
}

/// Taking out a path takes out every entry that lies in it, at any depth, with its number, and no
/// other one. The numbers of those that go are remembered by their inodes: where some have one inode,
/// the greatest of theirs and of what was remembered before.
#[verifier::rlimit(40)]
#[verifier::spinoff_prover]
pub proof fn law_removed_path_is_gone(l: &mut LocalSnapshot, path: &Path, p: Seq<Seq<char>>, n: u64)
    requires
        old(l).wf(),
        call_ensures(LocalSnapshot::remove_path, (l, path), ()),
    ensures
        ({
            let now = final(l).paths_map();
            let was = old(l).paths_map();
            let kept = final(l).removed();
            let had = old(l).removed();
            &&& now.contains_key(p) <==> was.contains_key(p) && !nested_in(p, path.comps())
            &&& now.contains_key(p) ==> now[p] == was[p]
            &&& was.contains_key(p) && nested_in(p, path.comps()) ==> {
                &&& !final(l).ids_map().contains_key(was[p].id@)
                &&& kept.contains_key(was[p].inode)
                &&& kept[was[p].inode] >= was[p].id@
            }
            &&& had.contains_key(n) ==> kept.contains_key(n) && kept[n] >= had[n]
            &&& kept.contains_key(n) ==> {
                ||| had.contains_key(n) && kept[n] == had[n]
                ||| exists|q: Seq<Seq<char>>| #[trigger]
                    was.contains_key(q) && nested_in(q, path.comps()) && was[q].inode == n
                        && was[q].id@ == kept[n]
            }
            &&& final(l).scan() == old(l).scan()
        }),
        forall|id: usize| #[trigger]
            final(l).ids_map().contains_key(id) <==> old(l).ids_map().contains_key(id) && forall|
                q: Seq<Seq<char>>,
            | #[trigger]
                old(l).paths_map().contains_key(q) && nested_in(q, path.comps()) ==> old(
                    l,
                ).paths_map()[q].id@ != id,
{
    let s = old(l).snap().list();
    let base = path.comps();
    lemma_gone(old(l).removed(), s, base, n);
    if old(l).paths_map().contains_key(p) && nested_in(p, base) {
        let i = lemma_key_index(s, p);
        lemma_gone(old(l).removed(), s, base, s[i].inode);
        assert(s[i].comps() == p);
    }
    let kept = final(l).removed();
    if kept.contains_key(n) && !(old(l).removed().contains_key(n) && kept[n] == old(l).removed()[n]) {
        let i = choose|i: int|
            #![trigger s[i]]
            0 <= i < s.len() && nested_in(s[i].comps(), base) && s[i].inode == n && s[i].id@ == kept[n];
        lemma_item_with(s, i);
        assert(old(l).paths_map().contains_key(s[i].comps()));
    }
}

/// What is remembered of the entries that lie in a path.
proof fn lemma_gone(removed: Removed, s: Seq<Entry>, base: Seq<Seq<char>>, n: u64)
    ensures
        ({
            let kept = removed_with(removed, entries_in(s, base));
            &&& removed.contains_key(n) ==> kept.contains_key(n) && kept[n] >= removed[n]
            &&& forall|i: int|
                #![trigger s[i]]
                0 <= i < s.len() && nested_in(s[i].comps(), base) && s[i].inode == n
                    ==> kept.contains_key(n) && kept[n] >= s[i].id@
            &&& kept.contains_key(n) ==> {
                ||| removed.contains_key(n) && kept[n] == removed[n]
                ||| exists|i: int|
                    #![trigger s[i]]
                    0 <= i < s.len() && nested_in(s[i].comps(), base) && s[i].inode == n && s[i].id@
                        == kept[n]
            }
        }),
    decreases s.len(),
{
    reveal(Seq::filter);
    if s.len() > 0 {
        let t = s.drop_last();
        let e = s.last();
        lemma_gone(removed, t, base, n);
        assert(s[s.len() - 1] == e);
        assert forall|i: int|
            #![trigger t[i]]
            #![trigger s[i]]
            0 <= i < t.len() implies t[i] == s[i] by {
        }
        let before = removed_with(removed, entries_in(t, base));
        let gone = entries_in(s, base);
        if nested_in(e.comps(), base) {
            assert(gone == entries_in(t, base).push(e));
            assert(gone.drop_last() =~= entries_in(t, base));
        } else {
            assert(gone == entries_in(t, base));
        }
        let kept = removed_with(removed, gone);
        if nested_in(e.comps(), base) && e.inode == n {
            assert(kept.contains_key(n) && kept[n] >= e.id@);
        } else {
            assert(kept.contains_key(n) == before.contains_key(n));
            assert(kept.contains_key(n) ==> kept[n] == before[n]);
        }
        if before.contains_key(n) && !(removed.contains_key(n) && before[n] == removed[n]) {
            let i = choose|i: int|
                #![trigger t[i]]
                0 <= i < t.len() && nested_in(t[i].comps(), base) && t[i].inode == n && t[i].id@
                    == before[n];
            assert(s[i] == t[i]);
        }
    }
}

/// Taking out an ignore file marks its directory as changed by the current scan, and leaves what is
/// known of it; taking out anything else, and every other directory, changes nothing there.
#[verifier::rlimit(40)]
#[verifier::spinoff_prover]
pub proof fn law_removed_ignore_file_is_noted(
    l: &mut LocalSnapshot,
    path: &Path,
    dir: Seq<Seq<char>>,
)
    requires
        call_ensures(LocalSnapshot::remove_path, (l, path), ()),
        path.comps().len() > 0,
        path.comps()[0] != seq!['/'],
        path.comps()[0] != seq!['.'],
    ensures
        ({
            let ns = path.comps();
            let is_file = ns.last() == seq!['.', 'g', 'i', 't', 'i', 'g', 'n', 'o', 'r', 'e'];
            let here = old(l).snap().root_path().comps() + ns.drop_last();
            let now = final(l).ignores();
            let was = old(l).ignores();
            &&& now.contains_key(dir) == was.contains_key(dir)
            &&& now.contains_key(dir) ==> now[dir].verdicts == was[dir].verdicts && now[dir].text
                == was[dir].text
            &&& now.contains_key(dir) && is_file && dir == here ==> now[dir].scan_id == old(l).scan()
            &&& now.contains_key(dir) && !(is_file && dir == here) ==> now[dir].scan_id
                == was[dir].scan_id
        }),
{
    let root = old(l).snap().root_path()@;
    lemma_git_names();
    crate::path_laws::law_file_name_is_last(path.comps());
    lemma_place_above(root, path@);
}

/// Where the directory that holds a path lies in the file system.
proof fn lemma_place_above(root: Seq<char>, path: Seq<char>)
    requires
        components(path).len() > 0,
        components(path)[0] != seq!['/'],
        components(path)[0] != seq!['.'],
    ensures
        components(join_text(root, render(components(path).drop_last()))) == components(root)
            + components(path).drop_last(),
{
    let ns = components(path);
    let up = ns.drop_last();
    lemma_components_well_named(path);
    crate::path::lemma_prefix_well_named(ns, ns.len() - 1);
    assert(up =~= ns.take(ns.len() - 1));
    lemma_components_render(up);
    let t = render(up);
    if up.len() > 0 {
        assert(up[0] == ns[0]);
        assert(!is_absolute_text(t)) by {
            if is_absolute_text(t) {
                assert(components(t)[0] == seq!['/']);
            }
        }
        lemma_components_join(root, t);
    } else {
        assert(t =~= Seq::empty());
        if root.len() > 0 {
            let name: Seq<char> = seq!['a'];
            assert(name != seq!['.']) by {
                assert(name[0] != seq!['.'][0]);
            }
            crate::path_laws::law_slash_separates(root, name);
            assert(root.push('/') + t =~= root.push('/'));
        }
        assert(root + t =~= root);
        assert(components(root) + up =~= components(root));
    }
}

/// Taking out a path named `.git` marks the repositories whose `.git` directory is the one that holds
/// it as changed by the current scan; taking out anything else, and every other repository, changes
/// nothing there.
pub proof fn law_removed_git_dir_is_noted(l: &mut LocalSnapshot, path: &Path, j: int)
    requires
        call_ensures(LocalSnapshot::remove_path, (l, path), ()),
        0 <= j < old(l).repos().len(),
    ensures
        ({
            let ns = path.comps();
            let now = final(l).repos();
            let was = old(l).repos();
            let is_git = ns.len() > 0 && ns.last() == seq!['.', 'g', 'i', 't'];
            &&& now.len() == was.len()
            &&& now[j].repo == was[j].repo
            &&& now[j].content_path == was[j].content_path
            &&& now[j].git_dir_path == was[j].git_dir_path
            &&& now[j].scan_id == if is_git && was[j].git_dir_path.comps() == ns.drop_last() {
                old(l).scan()
            } else {
                was[j].scan_id
            }
        }),
{
    lemma_git_names();
    crate::path_laws::law_file_name_is_last(path.comps());
}

/// The entry that is found by a path is the one with that path, and the one that is found by a number
/// is the one with that number: one is found exactly where one is there. For numbers this holds where
/// the entries and their numbers agree.
pub proof fn law_entries_are_found(
    s: &Snapshot,
    path: &Path,
    id: ProjectEntryId,
    by_path: Option<&Entry>,
    by_id: Option<&Entry>,
    is_there: bool,
    inode: Option<u64>,
)
    requires
        s.wf(),
        s.is_consistent(),
        call_ensures(Snapshot::entry_for_path, (s, path), by_path),
        call_ensures(Snapshot::entry_for_id, (s, id), by_id),
        call_ensures(Snapshot::contains_entry, (s, id), is_there),
        call_ensures(Snapshot::inode_for_path, (s, path), inode),
    ensures
        by_path is Some <==> exists|i: int|
            #![trigger s.list()[i]]
            0 <= i < s.list().len() && s.list()[i].comps() == path.comps(),
        by_path matches Some(e) ==> s.list().contains(*e) && e.comps() == path.comps() && inode
            == Some(e.inode),
        by_path is None ==> inode is None,
        by_id is Some <==> exists|i: int|
            #![trigger s.list()[i]]
            0 <= i < s.list().len() && s.list()[i].id@ == id@,
        by_id matches Some(e) ==> s.list().contains(*e) && e.id@ == id@,
        is_there <==> by_id is Some,
{
    let list = s.list();
    if s.paths_map().contains_key(path.comps()) {
        let i = lemma_key_index(list, path.comps());
        assert(list[i].comps() == path.comps());
        assert(list.contains(list[i]));
    }
    if exists|i: int| #![trigger list[i]] 0 <= i < list.len() && list[i].comps() == path.comps() {
        let i = choose|i: int|
            #![trigger list[i]]
            0 <= i < list.len() && list[i].comps() == path.comps();
        lemma_item_with(list, i);
    }
    if s.ids_map().contains_key(id@) {
        let p = s.ids_map()[id@].path.comps();
        assert(s.paths_map().contains_key(p));
        let i = lemma_key_index(list, p);
        assert(list[i].comps() == p);
        assert(s.paths_map()[p] == list[i]);
        assert(list.contains(list[i]));
    }
    if exists|i: int| #![trigger list[i]] 0 <= i < list.len() && list[i].id@ == id@ {
        let i = choose|i: int| #![trigger list[i]] 0 <= i < list.len() && list[i].id@ == id@;
        lemma_item_with(list, i);
        assert(s.paths_map().contains_key(list[i].comps()));
    }
}

/// How many files there are, and how many that are not ignored.
pub proof fn law_files_are_counted(s: &Snapshot, all: usize, visible: usize)
    requires
        call_ensures(Snapshot::file_count, (s,), all),
        call_ensures(Snapshot::visible_file_count, (s,), visible),
    ensures
        all == s.list().filter(|e: Entry| e.kind is File).len(),
        visible == s.list().filter(|e: Entry| e.kind is File && !e.is_ignored).len(),
{
    assert((|e: Entry| included(e, false, true)) =~= (|e: Entry| e.kind is File));
    assert((|e: Entry| included(e, false, false)) =~= (|e: Entry| e.kind is File && !e.is_ignored));
}

/// The summary of a snapshot counts its files and those that are not ignored.
pub proof fn law_summary_counts_files(s: &Snapshot, sum: EntrySummary, all: usize, visible: usize)
    requires
        call_ensures(Snapshot::summary, (s,), sum),
        call_ensures(EntrySummary::file_count, (&sum,), all),
        call_ensures(EntrySummary::visible_file_count, (&sum,), visible),
    ensures
        all == s.list().filter(|e: Entry| e.kind is File).len(),
        visible == s.list().filter(|e: Entry| e.kind is File && !e.is_ignored).len(),
{
    lemma_files_counted(s.list());
}

proof fn lemma_files_counted(s: Seq<Entry>)
    ensures
        total_counts(s).file_count == s.filter(|e: Entry| e.kind is File).len(),
        total_counts(s).visible_file_count == s.filter(
            |e: Entry| e.kind is File && !e.is_ignored,
        ).len(),
    decreases s.len(),
{
    reveal(Seq::filter);
    if s.len() > 0 {
        lemma_files_counted(s.drop_last());
    }
}

/// The paths of a snapshot are those of its entries, in their order, but for that of the root.
pub proof fn law_paths_are_those_of_entries(s: &Snapshot, r: Vec<Arc<Path>>)
    requires
        call_ensures(Snapshot::paths, (s,), r),
    ensures
        ({
            let shown = s.list().filter(|e: Entry| e.path.comps().len() > 0);
            &&& r@.len() == shown.len()
            &&& forall|i: int| #![trigger r@[i]] 0 <= i < r@.len() ==> r@[i] == shown[i].path
        }),
{
    lemma_paths_of(s.list());
}

proof fn lemma_paths_of(s: Seq<Entry>)
    ensures
        ({
            let shown = s.filter(|e: Entry| e.path.comps().len() > 0);
            &&& paths_of(s).len() == shown.len()
            &&& forall|i: int|
                #![trigger paths_of(s)[i]]
                0 <= i < shown.len() ==> paths_of(s)[i] == shown[i].path
        }),
    decreases s.len(),
{
    reveal(Seq::filter);
    if s.len() > 0 {
        lemma_paths_of(s.drop_last());
    }
}

/// The inodes above a path are those of the directories that it lies in: of all of them that have an
/// entry, at any distance, and not its own.
pub proof fn law_inodes_above_are_all(l: &LocalSnapshot, path: &Path, r: InodeSet, n: u64)
    requires
        call_ensures(LocalSnapshot::ancestor_inodes_for_path, (l, path), r),
        path.comps().len() > 0 ==> path.comps()[0] != seq!['/'],
    ensures
        r@.contains(n) <==> exists|q: Seq<Seq<char>>| #[trigger]
            l.paths_map().contains_key(q) && nested_in(path.comps(), q) && q != path.comps()
                && l.paths_map()[q].inode == n,
{
    let c = path.comps();
    if r@.contains(n) {
        let k = choose|k: int|
            #![trigger c.take(k)]
            root_length(c) <= k < c.len() && l.paths_map().contains_key(c.take(k))
                && l.paths_map()[c.take(k)].inode == n;
        assert(c.take(k) =~= c.subrange(0, k));
        assert(nested_in(c, c.take(k)));
        assert(c.take(k).len() == k);
    }
    if exists|q: Seq<Seq<char>>| #[trigger]
        l.paths_map().contains_key(q) && nested_in(c, q) && q != c && l.paths_map()[q].inode == n {
        let q = choose|q: Seq<Seq<char>>| #[trigger]
            l.paths_map().contains_key(q) && nested_in(c, q) && q != c && l.paths_map()[q].inode == n;
        let k = q.len() as int;
        assert(c.take(k) =~= q);
        if k == c.len() {
            assert(q =~= c);
        }
        assert(l.paths_map().contains_key(c.take(k)));
    }
}

/// Which entry an update cannot remove: the first one whose number no entry has.
#[verifier::rlimit(40)]
#[verifier::spinoff_prover]
pub proof fn law_first_unknown_entry_is_told(s: &mut Snapshot, u: proto::UpdateWorktree, r: Result<(), WorktreeError>)
    requires
        call_ensures(Snapshot::apply_remote_update, (s, u), r),
        old(s).is_consistent(),
    ensures
        ({
            let ids = u.removed_entries@;
            let known = old(s).ids_map();
            &&& r matches Err(WorktreeError::UnknownEntry(id)) ==> exists|i: int|
                #![trigger ids[i]]
                {
                    &&& 0 <= i < ids.len()
                    &&& ids[i] == id
                    &&& !known.contains_key(id as usize)
                    &&& forall|j: int|
                        #![trigger ids[j]]
                        0 <= j < i ==> known.contains_key(ids[j] as usize)
                }
            &&& r matches Err(WorktreeError::MissingMtime) ==> {
                &&& forall|j: int|
                    #![trigger ids[j]]
                    0 <= j < ids.len() ==> known.contains_key(ids[j] as usize)
                &&& exists|i: int|
                    #![trigger u.updated_entries@[i]]
                    0 <= i < u.updated_entries@.len() && u.updated_entries@[i].mtime is None
            }
            &&& r is Ok <==> {
                &&& forall|j: int|
                    #![trigger ids[j]]
                    0 <= j < ids.len() ==> known.contains_key(ids[j] as usize)
                &&& forall|i: int|
                    #![trigger u.updated_entries@[i]]
                    0 <= i < u.updated_entries@.len() ==> u.updated_entries@[i].mtime is Some
            }
            &&& r is Err ==> {
                &&& final(s).list() == old(s).list()
                &&& final(s).id_list() == old(s).id_list()
                &&& final(s).scan() == old(s).scan()
            }
        }),
{
    lemma_first_unknown(old(s).paths_map(), old(s).ids_map(), u.removed_entries@);
}

proof fn lemma_first_unknown(paths: ByPath, ids: ById, removed: Seq<u64>)
    requires
        consistent(paths, ids),
    ensures
        first_unknown(paths, ids, removed) matches Some(id) ==> exists|i: int|
            #![trigger removed[i]]
            {
                &&& 0 <= i < removed.len()
                &&& removed[i] == id
                &&& !ids.contains_key(id as usize)
                &&& forall|j: int|
                    #![trigger removed[j]]
                    0 <= j < i ==> ids.contains_key(removed[j] as usize)
            },
        first_unknown(paths, ids, removed) is None <==> forall|j: int|
            #![trigger removed[j]]
            0 <= j < removed.len() ==> ids.contains_key(removed[j] as usize),
    decreases removed.len(),
{
    if removed.len() > 0 {
        let t = removed.drop_last();
        let n = t.len() as int;
        lemma_first_unknown(paths, ids, t);
        assert(removed[n] == removed.last());
        assert forall|i: int|
            #![trigger t[i]]
            #![trigger removed[i]]
            0 <= i < n implies t[i] == removed[i] by {
        }
        if first_unknown(paths, ids, t) is Some {
            let id = first_unknown(paths, ids, t)->0;
            let i = choose|i: int|
                #![trigger t[i]]
                {
                    &&& 0 <= i < t.len()
                    &&& t[i] == id
                    &&& !ids.contains_key(id as usize)
                    &&& forall|j: int| #![trigger t[j]] 0 <= j < i ==> ids.contains_key(t[j] as usize)
                };
            assert(removed[i] == id);
            assert forall|j: int| #![trigger removed[j]] 0 <= j < i implies ids.contains_key(
                removed[j] as usize,
            ) by {
                assert(t[j] == removed[j]);
            }
        } else {
            assert forall|j: int| #![trigger removed[j]] 0 <= j < n implies ids.contains_key(
                removed[j] as usize,
            ) by {
                assert(t[j] == removed[j]);
            }
            if first_unknown(paths, ids, removed) is Some {
                assert(removed[n] == first_unknown(paths, ids, removed)->0);
            }
        }
    }
}

/// Whether an entry says what a message says.
pub open spec fn says_message(e: Entry, m: proto::Entry) -> bool {
    &&& e.id@ == m.id as usize
    &&& e.path@ == m.path@
    &&& e.inode == m.inode
    &&& m.mtime == Some(e.mtime)
    &&& e.is_symlink == m.is_symlink
    &&& e.is_ignored == m.is_ignored
    &&& e.kind is File <==> !m.is_dir
    &&& e.kind is Dir <==> m.is_dir
}

/// Whether the last of some messages that speaks of a path is the `i`th.
pub open spec fn is_last_of_path(ms: Seq<proto::Entry>, i: int) -> bool {
    &&& 0 <= i < ms.len()
    &&& forall|j: int| #![trigger ms[j]] i < j < ms.len() ==> components(ms[j].path@) != components(
        ms[i].path@,
    )
}

/// What an update makes of a snapshot: each entry that it describes is there as it says, the last
/// one where it describes a path more than once; an entry that it removes, or to whose number it gives
/// another path, is no longer where it was, unless something else comes there; and every other entry is
/// as it was. The scan is that of the update, and it has ended where the update is the last one.
#[verifier::rlimit(40)]
#[verifier::spinoff_prover]
pub proof fn law_update_is_brought_in(
    s: &mut Snapshot,
    u: proto::UpdateWorktree,
    r: Result<(), WorktreeError>,
    p: Seq<Seq<char>>,
)
    requires
        call_ensures(Snapshot::apply_remote_update, (s, u), r),
        old(s).is_consistent(),
        r is Ok,
    ensures
        ({
            let ms = u.updated_entries@;
            let ids = u.removed_entries@;
            let was = old(s).paths_map();
            let now = final(s).paths_map();
            let is_told = exists|i: int| #![trigger ms[i]] 0 <= i < ms.len() && components(ms[i].path@) == p;
            let is_gone = was.contains_key(p) && ({
                ||| exists|i: int| #![trigger ids[i]] 0 <= i < ids.len() && ids[i] as usize == was[p].id@
                ||| exists|i: int|
                    #![trigger ms[i]]
                    0 <= i < ms.len() && ms[i].id as usize == was[p].id@
            });
            &&& forall|i: int|
                #![trigger ms[i]]
                is_last_of_path(ms, i) ==> {
                    &&& now.contains_key(components(ms[i].path@))
                    &&& says_message(now[components(ms[i].path@)], ms[i])
                }
            &&& !is_told ==> (now.contains_key(p) <==> was.contains_key(p) && !is_gone)
            &&& !is_told && now.contains_key(p) ==> now[p] == was[p]
            &&& final(s).scan() == u.scan_id as usize
            &&& u.is_last_update ==> final(s).completed_scan() == u.scan_id as usize
            &&& !u.is_last_update ==> final(s).completed_scan() == old(s).completed_scan()
            &&& final(s).root_path() == old(s).root_path()
        }),
{
    let ms = u.updated_entries@;
    let ids = u.removed_entries@;
    let was = old(s).paths_map();
    let known = old(s).ids_map();
    let es = choose|es: Seq<Entry>| #[trigger] is_updated(*old(s), u, es, *final(s));
    assert(is_updated(*old(s), u, es, *final(s)));
    lemma_entries_by_path(es, p);
    assert forall|i: int| #![trigger ms[i]] is_last_of_path(ms, i) implies {
        &&& final(s).paths_map().contains_key(components(ms[i].path@))
        &&& says_message(final(s).paths_map()[components(ms[i].path@)], ms[i])
    } by {
        let q = components(ms[i].path@);
        assert(es[i].comps() == q);
        assert forall|j: int| #![trigger es[j]] i < j < es.len() implies es[j].comps() != q by {
            assert(ms[j].path@ == es[j].path@);
        }
        lemma_last_of_path(es, i);
    }
    if exists|i: int| #![trigger es[i]] 0 <= i < es.len() && es[i].comps() == p {
        let i = choose|i: int| #![trigger es[i]] 0 <= i < es.len() && es[i].comps() == p;
        assert(components(ms[i].path@) == p);
    }
    let out = paths_taken_out(was, known, ids, ms);
    if was.contains_key(p) {
        assert(known.contains_key(was[p].id@));
        assert(was[p].comps() == p) by {
            let k = lemma_key_index(old(s).list(), p);
        }
        assert(known[was[p].id@].path.comps() == p);
        if exists|i: int| #![trigger ids[i]] 0 <= i < ids.len() && ids[i] as usize == was[p].id@ {
            let i = choose|i: int| #![trigger ids[i]] 0 <= i < ids.len() && ids[i] as usize == was[p].id@;
            assert(entry_of_id(was, known, ids[i] as usize) == Some(was[p]));
            assert(out.contains(p));
        }
        if exists|i: int| #![trigger ms[i]] 0 <= i < ms.len() && ms[i].id as usize == was[p].id@ {
            let i = choose|i: int| #![trigger ms[i]] 0 <= i < ms.len() && ms[i].id as usize == was[p].id@;
            assert(out.contains(p));
        }
        if out.contains(p) {
            if exists|i: int|
                #![trigger ids[i]]
                0 <= i < ids.len() && (entry_of_id(was, known, ids[i] as usize) matches Some(e)
                    && e.comps() == p) {
                let i = choose|i: int|
                    #![trigger ids[i]]
                    0 <= i < ids.len() && (entry_of_id(was, known, ids[i] as usize) matches Some(e)
                        && e.comps() == p);
                let q = known[ids[i] as usize].path.comps();
                assert(was[q].comps() == q) by {
                    let k = lemma_key_index(old(s).list(), q);
                }
                assert(q == p);
                assert(was[q].id@ == ids[i] as usize);
            } else {
                let i = choose|i: int|
                    #![trigger ms[i]]
                    0 <= i < ms.len() && known.contains_key(ms[i].id as usize)
                        && known[ms[i].id as usize].path.comps() == p;
                assert(was[p].id@ == ms[i].id as usize);
            }
        }
    }
}

/// Of the entries of a list with one path the last one is found by it.
pub proof fn lemma_last_of_path(es: Seq<Entry>, i: int)
    requires
        0 <= i < es.len(),
        forall|j: int| #![trigger es[j]] i < j < es.len() ==> es[j].comps() != es[i].comps(),
    ensures
        entries_by_path(es).contains_key(es[i].comps()),
        entries_by_path(es)[es[i].comps()] == es[i],
    decreases es.len(),
{
    let n = es.len() - 1;
    if i < n {
        let t = es.drop_last();
        assert forall|j: int| #![trigger t[j]] i < j < t.len() implies t[j].comps() != t[i].comps() by {
            assert(es[j] == t[j]);
        }
        lemma_last_of_path(t, i);
        assert(es[n].comps() != es[i].comps());
    }
}

/// Putting in an entry that a message describes: it is there as the message says, in the place of what
/// had its number; and every other entry is as it was.
pub proof fn law_described_entry_is_put_in(
    s: &mut Snapshot,
    m: proto::Entry,
    r: Result<Entry, WorktreeError>,
    p: Seq<Seq<char>>,
)
    requires
        call_ensures(Snapshot::insert_entry, (s, m), r),
        old(s).is_consistent(),
    ensures
        r is Ok <==> m.mtime is Some,
        r matches Ok(e) ==> {
            let was = old(s).paths_map();
            let now = final(s).paths_map();
            &&& says_message(e, m)
            &&& now.contains_key(components(m.path@)) && now[components(m.path@)] == e
            &&& p != components(m.path@) ==> {
                &&& now.contains_key(p) <==> was.contains_key(p) && was[p].id@ != m.id as usize
                &&& now.contains_key(p) ==> now[p] == was[p]
            }
            &&& final(s).ids_map().contains_key(m.id as usize)
            &&& final(s).ids_map()[m.id as usize].path.comps() == components(m.path@)
        },
        r is Err ==> r->Err_0 == WorktreeError::MissingMtime && final(s).list() == old(s).list(),
{
    if old(s).paths_map().contains_key(p) {
        let k = lemma_key_index(old(s).list(), p);
        assert(old(s).paths_map()[p].comps() == p);
        assert(old(s).ids_map().contains_key(old(s).paths_map()[p].id@));
    }
    if old(s).ids_map().contains_key(m.id as usize) {
        assert(old(s).paths_map().contains_key(old(s).ids_map()[m.id as usize].path.comps()));
    }
}

/// Deleting the entry with a number takes out everything that lies in its path, at any depth, and
/// nothing else. Nothing happens where no entry has the number.
pub proof fn law_deleted_entry_is_gone(
    s: &mut Snapshot,
    id: ProjectEntryId,
    r: bool,
    e: Entry,
    p: Seq<Seq<char>>,
)
    requires
        call_ensures(Snapshot::delete_entry, (s, id), r),
        old(s).is_consistent(),
        old(s).paths_map().contains_key(e.comps()),
        old(s).paths_map()[e.comps()] == e,
        e.id@ == id@,
    ensures
        r,
        final(s).paths_map().contains_key(p) <==> old(s).paths_map().contains_key(p) && !nested_in(
            p,
            e.comps(),
        ),
        final(s).paths_map().contains_key(p) ==> final(s).paths_map()[p] == old(s).paths_map()[p],
        old(s).paths_map().contains_key(p) && nested_in(p, e.comps()) ==> !final(
            s
        ).ids_map().contains_key(old(s).paths_map()[p].id@),
{
    if old(s).paths_map().contains_key(p) && nested_in(p, e.comps()) {
        assert(ids_in(old(s).paths_map(), e.comps()).contains(old(s).paths_map()[p].id@));
    }
}

/// Deleting the entry with a number of a local worktree takes out everything that lies in its path, at
/// any depth, and nothing else, and the worktree comes to show it.
pub proof fn law_deleted_entry_is_shown_gone(
    w: &mut LocalWorktree,
    id: ProjectEntryId,
    r: PollOutcome,
    e: Entry,
    p: Seq<Seq<char>>,
)
    requires
        call_ensures(LocalWorktree::entry_deleted, (w, id), r),
        old(w).found().snap().is_consistent(),
        old(w).found().paths_map().contains_key(e.comps()),
        old(w).found().paths_map()[e.comps()] == e,
        e.id@ == id@,
    ensures
        ({
            let was = old(w).found().paths_map();
            let now = final(w).local().paths_map();
            &&& final(w).found().paths_map() == now
            &&& now.contains_key(p) <==> was.contains_key(p) && !nested_in(p, e.comps())
            &&& now.contains_key(p) ==> now[p] == was[p]
            &&& final(w).state() == old(w).state()
        }),
{
}

/// A new entry says what the file system says, has the next number of the counter, and is not ignored;
/// a directory is to be read, and a file is found by the characters of the root and its own, in lower
/// case.
pub proof fn law_new_entry_says_what_it_is(
    path: Arc<Path>,
    m: &Metadata,
    next_entry_id: &mut usize,
    root: &CharBag,
    e: Entry,
)
    requires
        call_ensures(Entry::new, (path, m, next_entry_id, root), e),
    ensures
        tells_metadata(e, path.comps(), *m),
        e.path == path,
        e.id@ == *old(next_entry_id),
        *old(next_entry_id) < usize::MAX ==> *final(next_entry_id) == *old(next_entry_id) + 1,
        !e.is_ignored,
        e.kind is PendingDir <==> m.is_dir,
        e.kind is File <==> !m.is_dir,
        e.kind matches EntryKind::File(bag) ==> {
            &&& bag@.len() == root@.len() + path@.len()
            &&& bag@.take(root@.len() as int) == root@
            &&& forall|i: int|
                #![trigger path@[i]]
                0 <= i < path@.len() ==> bag@[root@.len() + i] == ascii_lower(path@[i])
        },
{
    if e.kind is File {
        assert(e.kind->File_0@.take(root@.len() as int) =~= root@);
    }
}

/// The characters by which a path is found are those of the root and its own, in lower case.
pub proof fn law_path_is_found_by_its_characters(root: &CharBag, path: &Path, r: CharBag, i: int)
    requires
        call_ensures(char_bag_for_path, (root, path), r),
    ensures
        r@.len() == root@.len() + path@.len(),
        0 <= i < root@.len() ==> r@[i] == root@[i],
        0 <= i < path@.len() ==> r@[root@.len() + i] == ascii_lower(path@[i]),
        0 <= i < path@.len() && 'a' <= path@[i] <= 'z' ==> r@[root@.len() + i] == path@[i],
{
}

/// The counter gives one number after the other.
pub proof fn law_numbers_go_up(n: usize, k: nat)
    requires
        n + k <= usize::MAX,
    ensures
        nth_number(n, k) == n + k,
        next_number(usize::MAX) == 0,
    decreases k,
{
    if k > 0 {
        law_numbers_go_up(n, (k - 1) as nat);
    }
}

/// An entry that takes the number of a removed one keeps all else, and the number is not given twice.
pub proof fn law_number_is_taken_once(l: &mut LocalSnapshot, e: &mut Entry)
    requires
        call_ensures(LocalSnapshot::reuse_entry_id, (l, e), ()),
    ensures
        old(l).removed().contains_key(old(e).inode) ==> final(e).id@ == old(l).removed()[old(e).inode],
        !old(l).removed().contains_key(old(e).inode) && old(l).paths_map().contains_key(old(e).comps())
            ==> final(e).id@ == old(l).paths_map()[old(e).comps()].id@,
        !old(l).removed().contains_key(old(e).inode) && !old(l).paths_map().contains_key(
            old(e).comps(),
        ) ==> final(e).id@ == old(e).id@,
        !final(l).removed().contains_key(old(e).inode),
        forall|n: u64|
            n != old(e).inode ==> {
                &&& #[trigger] final(l).removed().contains_key(n) == old(l).removed().contains_key(n)
                &&& final(l).removed().contains_key(n) ==> final(l).removed()[n] == old(l).removed()[n]
            },
        final(e).path == old(e).path,
        final(e).inode == old(e).inode,
        final(e).kind == old(e).kind,
        final(e).mtime == old(e).mtime,
        final(e).is_symlink == old(e).is_symlink,
        final(e).is_ignored == old(e).is_ignored,
        final(l).snap() == old(l).snap(),
{
}

/// The ignore files that are looked for above the root: one in each directory that it lies in, the
/// nearest first.
pub proof fn law_files_above_are_looked_for(l: &LocalSnapshot, r: Vec<Path>, i: int)
    requires
        call_ensures(LocalSnapshot::ignore_files_above, (l,), r),
    ensures
        ({
            let root = l.snap().root_path().comps();
            let rooted = root.len() > 0 && root[0] == seq!['/'];
            &&& r@.len() == if rooted {
                root.len() - 1
            } else {
                root.len() as int
            }
            &&& 0 <= i < r@.len() ==> r@[i].comps() == root.take(root.len() - 1 - i).push(
                seq!['.', 'g', 'i', 't', 'i', 'g', 'n', 'o', 'r', 'e'],
            )
        }),
{
    let root = l.snap().root_path()@;
    let n = components(root).len();
    lemma_git_names();
    let name: Seq<char> = seq!['.', 'g', 'i', 't', 'i', 'g', 'n', 'o', 'r', 'e'];
    assert(gitignore_name() =~= name);
    if n > 0 {
        crate::path_laws::lemma_root_class(components(root)[0]);
    }
    if 0 <= i < r@.len() {
        lemma_first_written(root, n - 1 - i);
        assert(crate::path::is_file_name(gitignore_name()));
        lemma_child_comps(text_of_first(root, n - 1 - i), gitignore_name());
    }
}

/// Whether every entry is found by its number.
pub proof fn law_listed_entries_have_their_numbers(s: &Snapshot, r: bool)
    requires
        call_ensures(Snapshot::is_listed, (s,), r),
        s.wf(),
    ensures
        r <==> forall|i: int|
            #![trigger s.list()[i]]
            0 <= i < s.list().len() ==> {
                let e = s.list()[i];
                &&& s.ids_map().contains_key(e.id@)
                &&& s.ids_map()[e.id@].path.comps() == e.comps()
                &&& s.ids_map()[e.id@].is_ignored == e.is_ignored
            },
{
    let list = s.list();
    if r {
        assert forall|i: int| #![trigger list[i]] 0 <= i < list.len() implies {
            let e = list[i];
            &&& s.ids_map().contains_key(e.id@)
            &&& s.ids_map()[e.id@].path.comps() == e.comps()
            &&& s.ids_map()[e.id@].is_ignored == e.is_ignored
        } by {
            lemma_item_with(list, i);
            assert(s.paths_map().contains_key(list[i].comps()));
        }
    } else {
        let p = choose|p: Seq<Seq<char>>| #[trigger]
            s.paths_map().contains_key(p) && !(s.ids_map().contains_key(s.paths_map()[p].id@)
                && crate::snapshot::speaks_of(
                s.ids_map()[s.paths_map()[p].id@],
                s.paths_map()[p],
            ));
        let i = lemma_key_index(list, p);
        assert(s.paths_map()[p] == list[i]);
        if s.ids_map().contains_key(list[i].id@) {
            let k = lemma_key_index(s.id_list(), list[i].id@);
        }
    }
}

} // verus!
