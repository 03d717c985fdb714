//! What is sent to those with whom a worktree is shared, and what they make of it.
use crate::proto;
use crate::char_bag::CharBag;
use crate::diagnostics::DiagnosticSummary;
use crate::entry::{Entry, EntryKind, WorktreeError};
use crate::file::File;
use crate::ids::ProjectEntryId;
use crate::local_snapshot::LocalSnapshot;
use crate::local_worktree::Event;
use crate::path::{components, nested_in, Path};
use crate::remote_worktree::{RemoteWorktree, Waiting};
use crate::share::{are_pieces, is_piece, pieces, split_worktree_update, SendStep, SharedSnapshot};
use crate::snapshot::{is_updated, ById, Snapshot};
use crate::snapshot_laws::{is_last_of_path, lemma_last_of_path, says_message};
use crate::sum_tree::{lemma_item_with, lemma_key_index};
use crate::update::{
    dropped, is_dropped, is_message_for, is_sent, is_update, law_update_is_accepted,
    law_update_makes_copy, mirrors, row_of, sent, stamped,
};
use crate::worktree::Worktree;
use std::sync::Arc;
use vstd::prelude::*;

verus! {

/// An update is sent in pieces that describe its entries in their order, as many each as there may be
/// but for the last one, and at least one piece. The first one alone removes what the update removes,
/// and the last one alone is the last one of the update; in all else each says what the update says.
pub proof fn law_pieces_are_the_whole(
    u: proto::UpdateWorktree,
    size: usize,
    r: Vec<proto::UpdateWorktree>,
    i: int,
)
    requires
        call_ensures(split_worktree_update, (u, size), r),
        size > 0,
        0 <= i < r@.len(),
    ensures
        ({
            let n = u.updated_entries@.len();
            let last = r@.len() - 1;
            let end = if i == last {
                n as int
            } else {
                (i + 1) * size
            };
            &&& 0 <= i * size <= end <= n
            &&& end <= (i + 1) * size
            &&& r@[i].updated_entries@ == u.updated_entries@.subrange(i * size, end)
            &&& i > 0 ==> i * size < n
            &&& i == 0 ==> r@[i].removed_entries@ == u.removed_entries@
            &&& i > 0 ==> r@[i].removed_entries@.len() == 0
            &&& r@[i].is_last_update <==> i == last && u.is_last_update
            &&& r@[i].project_id == u.project_id
            &&& r@[i].worktree_id == u.worktree_id
            &&& r@[i].root_name@ == u.root_name@
            &&& r@[i].abs_path@ == u.abs_path@
            &&& r@[i].scan_id == u.scan_id
        }),
{
    lemma_piece(u.updated_entries@, size as nat, i);
}

/// An update makes at least one piece.
pub proof fn law_update_makes_a_piece(u: proto::UpdateWorktree, size: usize, r: Vec<proto::UpdateWorktree>)
    requires
        call_ensures(split_worktree_update, (u, size), r),
    ensures
        r@.len() > 0,
{
}

proof fn lemma_piece<A>(s: Seq<A>, size: nat, i: int)
    requires
        size > 0,
        0 <= i < pieces(s, size).len(),
    ensures
        ({
            let last = pieces(s, size).len() - 1;
            let end = if i == last {
                s.len() as int
            } else {
                (i + 1) * size
            };
            &&& 0 <= i * size <= end <= s.len()
            &&& end <= (i + 1) * size
            &&& pieces(s, size)[i] == s.subrange(i * size, end)
            &&& i > 0 ==> i * size < s.len()
        }),
    decreases s.len(),
{
    let ps = pieces(s, size);
    if s.len() <= size {
        assert(ps.len() == 1);
        assert(i == 0);
        assert(s.subrange(0, s.len() as int) =~= s);
        assert(0 * size == 0);
    } else {
        let rest = s.skip(size as int);
        let qs = pieces(rest, size);
        assert(ps.len() == qs.len() + 1);
        if i == 0 {
            assert(ps[0] == s.take(size as int));
            assert(s.take(size as int) =~= s.subrange(0, size as int));
            assert(0 * size == 0);
            assert(1 * size == size);
        } else {
            lemma_piece(rest, size, i - 1);
            assert(ps[i] == qs[i - 1]);
            assert(i * size == (i - 1) * size + size) by (nonlinear_arith);
            assert((i + 1) * size == i * size + size) by (nonlinear_arith);
            let end = if i == ps.len() - 1 {
                s.len() as int
            } else {
                (i + 1) * size
            };
            assert(rest.subrange((i - 1) * size, end - size) =~= s.subrange(i * size, end));
        }
    }
}

/// Whether an entry is among what is sent.
pub open spec fn counts(ids: ById, id: usize, include_ignored: bool) -> bool {
    ids.contains_key(id) && (include_ignored || !ids[id].is_ignored)
}

/// An update describes the entries that count in the newer snapshot and do not, or come from another
/// scan, in the older one, and no others; it removes those that count in the older one and do not in
/// the newer one, and no others.
#[verifier::rlimit(40)]
#[verifier::spinoff_prover]
pub proof fn law_update_tells_what_changed(
    newer: &LocalSnapshot,
    older: &LocalSnapshot,
    project_id: u64,
    worktree_id: u64,
    include_ignored: bool,
    u: proto::UpdateWorktree,
    id: usize,
)
    requires
        call_ensures(
            LocalSnapshot::build_update,
            (newer, older, project_id, worktree_id, include_ignored),
            u,
        ),
        newer.wf(),
        older.wf(),
        newer.snap().is_consistent(),
    ensures
        ({
            let now = newer.ids_map();
            let was = older.ids_map();
            &&& (exists|i: int|
                #![trigger u.updated_entries@[i]]
                0 <= i < u.updated_entries@.len() && u.updated_entries@[i].id == id) <==> counts(
                now,
                id,
                include_ignored,
            ) && !(counts(was, id, include_ignored) && was[id].scan_id == now[id].scan_id)
            &&& (exists|i: int|
                #![trigger u.removed_entries@[i]]
                0 <= i < u.removed_entries@.len() && u.removed_entries@[i] == id) <==> counts(
                was,
                id,
                include_ignored,
            ) && !counts(now, id, include_ignored)
            &&& u.project_id == project_id
            &&& u.worktree_id == worktree_id
            &&& u.scan_id == newer.scan()
            &&& u.is_last_update <==> newer.snap().completed_scan() == newer.scan()
            &&& u.root_name@ == newer.snap().name()
            &&& u.abs_path@ == newer.snap().root_path()@
        }),
{
    let ks = newer.snap().id_list();
    let os = older.snap().id_list();
    let now = newer.ids_map();
    let was = older.ids_map();
    lemma_sent(ks, was, include_ignored, id);
    lemma_dropped(os, now, include_ignored, id);
    let list = sent(ks, was, include_ignored);
    let gone = dropped(os, now, include_ignored);
    assert forall|i: int| #![trigger u.updated_entries@[i]] 0 <= i < u.updated_entries@.len() implies u.updated_entries@[i].id
        == list[i].id@ by {
        assert(is_message_for(newer.paths_map(), now, list[i].id@, u.updated_entries@[i]));
        assert(now.contains_key(list[i].id@));
    }
    if exists|i: int|
        #![trigger u.updated_entries@[i]]
        0 <= i < u.updated_entries@.len() && u.updated_entries@[i].id == id {
        let i = choose|i: int|
            #![trigger u.updated_entries@[i]]
            0 <= i < u.updated_entries@.len() && u.updated_entries@[i].id == id;
        assert(list[i].id@ == id);
    }
    if exists|i: int| #![trigger list[i]] 0 <= i < list.len() && list[i].id@ == id {
        let i = choose|i: int| #![trigger list[i]] 0 <= i < list.len() && list[i].id@ == id;
        assert(u.updated_entries@[i].id == id);
    }
    if exists|i: int|
        #![trigger u.removed_entries@[i]]
        0 <= i < u.removed_entries@.len() && u.removed_entries@[i] == id {
        let i = choose|i: int|
            #![trigger u.removed_entries@[i]]
            0 <= i < u.removed_entries@.len() && u.removed_entries@[i] == id;
        assert(gone[i].id@ == id);
    }
    if exists|i: int| #![trigger gone[i]] 0 <= i < gone.len() && gone[i].id@ == id {
        let i = choose|i: int| #![trigger gone[i]] 0 <= i < gone.len() && gone[i].id@ == id;
        assert(u.removed_entries@[i] == id);
    }
}

proof fn lemma_sent(ks: Seq<crate::entry::PathEntry>, was: ById, include_ignored: bool, id: usize)
    requires
        crate::sum_tree::sorted(ks),
    ensures
        ({
            let list = sent(ks, was, include_ignored);
            let now = crate::sum_tree::by_key(ks);
            (exists|i: int| #![trigger list[i]] 0 <= i < list.len() && list[i].id@ == id) <==> counts(
                now,
                id,
                include_ignored,
            ) && !(counts(was, id, include_ignored) && was[id].scan_id == now[id].scan_id)
        }),
{
    broadcast use vstd::seq_lib::group_filter_ensures;
    let keep = |k: crate::entry::PathEntry| is_sent(k, was, include_ignored);
    let list = ks.filter(keep);
    let now = crate::sum_tree::by_key(ks);
    assert(list == sent(ks, was, include_ignored));
    if exists|i: int| #![trigger list[i]] 0 <= i < list.len() && list[i].id@ == id {
        let i = choose|i: int| #![trigger list[i]] 0 <= i < list.len() && list[i].id@ == id;
        assert(keep(list[i]));
        ks.lemma_filter_contains_rev(keep, list[i]);
        let j = choose|j: int| 0 <= j < ks.len() && ks[j] == list[i];
        lemma_item_with(ks, j);
    }
    if now.contains_key(id) && is_sent(now[id], was, include_ignored) {
        let j = lemma_key_index(ks, id);
        ks.lemma_filter_contains(keep, j);
        let i = choose|i: int| 0 <= i < list.len() && list[i] == ks[j];
        assert(list[i].id@ == id);
    }
    if now.contains_key(id) {
        let j = lemma_key_index(ks, id);
        assert(now[id].id@ == id);
    }
}

proof fn lemma_dropped(os: Seq<crate::entry::PathEntry>, now: ById, include_ignored: bool, id: usize)
    requires
        crate::sum_tree::sorted(os),
    ensures
        ({
            let list = dropped(os, now, include_ignored);
            let was = crate::sum_tree::by_key(os);
            (exists|i: int| #![trigger list[i]] 0 <= i < list.len() && list[i].id@ == id) <==> counts(
                was,
                id,
                include_ignored,
            ) && !counts(now, id, include_ignored)
        }),
{
    broadcast use vstd::seq_lib::group_filter_ensures;
    let keep = |k: crate::entry::PathEntry| is_dropped(k, now, include_ignored);
    let list = os.filter(keep);
    let was = crate::sum_tree::by_key(os);
    assert(list == dropped(os, now, include_ignored));
    if exists|i: int| #![trigger list[i]] 0 <= i < list.len() && list[i].id@ == id {
        let i = choose|i: int| #![trigger list[i]] 0 <= i < list.len() && list[i].id@ == id;
        assert(keep(list[i]));
        os.lemma_filter_contains_rev(keep, list[i]);
        let j = choose|j: int| 0 <= j < os.len() && os[j] == list[i];
        lemma_item_with(os, j);
    }
    if was.contains_key(id) && is_dropped(was[id], now, include_ignored) {
        let j = lemma_key_index(os, id);
        os.lemma_filter_contains(keep, j);
        let i = choose|i: int| 0 <= i < list.len() && list[i] == os[j];
        assert(list[i].id@ == id);
    }
    if was.contains_key(id) {
        let j = lemma_key_index(os, id);
        assert(was[id].id@ == id);
    }
}

/// What an update says of an entry is what the entry of the newer snapshot with that number says.
pub proof fn law_update_says_what_entries_say(
    newer: &LocalSnapshot,
    older: &LocalSnapshot,
    project_id: u64,
    worktree_id: u64,
    include_ignored: bool,
    u: proto::UpdateWorktree,
    i: int,
)
    requires
        call_ensures(
            LocalSnapshot::build_update,
            (newer, older, project_id, worktree_id, include_ignored),
            u,
        ),
        newer.wf(),
        newer.snap().is_consistent(),
        0 <= i < u.updated_entries@.len(),
    ensures
        exists|p: Seq<Seq<char>>| #[trigger]
            newer.paths_map().contains_key(p) && {
                let e = newer.paths_map()[p];
                let m = u.updated_entries@[i];
                &&& m.id == e.id@
                &&& m.path@ == e.path@
                &&& m.inode == e.inode
                &&& m.mtime == Some(e.mtime)
                &&& m.is_symlink == e.is_symlink
                &&& m.is_ignored == e.is_ignored
                &&& m.is_dir <==> !(e.kind is File)
            },
{
    let list = sent(newer.snap().id_list(), older.ids_map(), include_ignored);
    assert(is_message_for(newer.paths_map(), newer.ids_map(), list[i].id@, u.updated_entries@[i]));
    let p = newer.ids_map()[list[i].id@].path.comps();
    assert(newer.paths_map().contains_key(p));
}

/// An update between two snapshots, brought into a copy of the older one, is accepted and makes it a
/// copy of the newer one. This holds where what changed between the two is marked.
#[verifier::rlimit(40)]
#[verifier::spinoff_prover]
pub proof fn law_update_reaches_the_others(
    newer: &LocalSnapshot,
    older: &LocalSnapshot,
    project_id: u64,
    worktree_id: u64,
    include_ignored: bool,
    u: proto::UpdateWorktree,
    copy: &mut Snapshot,
    r: Result<(), WorktreeError>,
    p: Seq<Seq<char>>,
)
    requires
        call_ensures(
            LocalSnapshot::build_update,
            (newer, older, project_id, worktree_id, include_ignored),
            u,
        ),
        call_ensures(Snapshot::apply_remote_update, (copy, u), r),
        newer.wf(),
        older.wf(),
        newer.snap().is_consistent(),
        older.snap().is_consistent(),
        stamped(newer.paths_map(), newer.ids_map(), older.paths_map(), older.ids_map()),
        mirrors(*old(copy), older.snap(), include_ignored),
    ensures
        r is Ok,
        mirrors(*final(copy), newer.snap(), include_ignored),
        final(copy).scan() == newer.scan(),
        final(copy).paths_map().contains_key(p) <==> newer.paths_map().contains_key(p) && (
        include_ignored || !newer.paths_map()[p].is_ignored),
        final(copy).paths_map().contains_key(p) ==> {
            let e = newer.paths_map()[p];
            let c = final(copy).paths_map()[p];
            &&& c.id@ == e.id@
            &&& c.inode == e.inode
            &&& c.mtime == e.mtime
            &&& c.is_symlink == e.is_symlink
            &&& c.is_ignored == e.is_ignored
            &&& c.kind is File <==> e.kind is File
        },
{
    law_update_is_accepted(*newer, *older, include_ignored, u, *old(copy));
    assert(r is Ok);
    let es = choose|es: Seq<Entry>| #[trigger] is_updated(*old(copy), u, es, *final(copy));
    law_update_makes_copy(*newer, *older, include_ignored, u, *old(copy), es, *final(copy));
    let a = crate::update::rows(final(copy).paths_map(), true);
    let b = crate::update::rows(newer.paths_map(), include_ignored);
    assert(a.contains_key(p) == b.contains_key(p));
    if a.contains_key(p) {
        assert(a[p] == b[p]);
        assert(row_of(final(copy).paths_map()[p]) == row_of(newer.paths_map()[p]));
    }
}

/// The first update describes all entries, in their order, and removes none.
pub proof fn law_first_update_tells_all(l: &LocalSnapshot, project_id: u64, u: proto::UpdateWorktree, i: int)
    requires
        call_ensures(LocalSnapshot::build_initial_update, (l, project_id), u),
    ensures
        u.updated_entries@.len() == l.snap().list().len(),
        0 <= i < l.snap().list().len() ==> {
            let e = l.snap().list()[i];
            let m = u.updated_entries@[i];
            &&& m.id == e.id@
            &&& m.path@ == e.path@
            &&& m.inode == e.inode
            &&& m.mtime == Some(e.mtime)
            &&& m.is_symlink == e.is_symlink
            &&& m.is_ignored == e.is_ignored
            &&& m.is_dir <==> !(e.kind is File)
        },
        u.removed_entries@.len() == 0,
        u.is_last_update,
        u.scan_id == l.scan(),
{
}

/// An entry that is sent comes back as it was, but for a directory that is still to be read, which
/// comes back as one that was read; and its file is found by the characters of the root and its own.
pub proof fn law_sent_entry_comes_back(
    e: &Entry,
    m: proto::Entry,
    root: &CharBag,
    r: Result<Entry, WorktreeError>,
)
    requires
        call_ensures(Entry::to_proto, (e,), m),
        call_ensures(Entry::try_from, (root, m), r),
    ensures
        r matches Ok(back) && {
            &&& back.id@ == e.id@
            &&& back.path@ == e.path@
            &&& back.inode == e.inode
            &&& back.mtime == e.mtime
            &&& back.is_symlink == e.is_symlink
            &&& back.is_ignored == e.is_ignored
            &&& back.kind is File <==> e.kind is File
            &&& !(back.kind is PendingDir)
            &&& back.kind matches EntryKind::File(bag) ==> {
                &&& bag@.len() == root@.len() + e.path@.len()
                &&& bag@.take(root@.len() as int) == root@
                &&& forall|i: int|
                    #![trigger e.path@[i]]
                    0 <= i < e.path@.len() ==> bag@[root@.len() + i] == crate::text::ascii_lower(
                        e.path@[i],
                    )
            }
        },
{
    if r is Ok && r->Ok_0.kind is File {
        let bag = r->Ok_0.kind->File_0;
        assert(bag@.take(root@.len() as int) =~= root@);
    }
}

/// A file that is sent comes back as it was, as one of the worktree that takes it, and not a local
/// one; unless that one is no remote worktree, or has another number.
pub proof fn law_sent_file_comes_back(
    file: &File,
    m: proto::File,
    worktree: &Worktree,
    handle: usize,
    r: Result<File, WorktreeError>,
)
    requires
        call_ensures(File::to_proto, (file,), m),
        call_ensures(File::from_proto, (m, worktree, handle), r),
    ensures
        r is Ok <==> worktree is Remote && file.worktree == worktree.snap().tree_id(),
        r matches Ok(back) ==> {
            &&& back.path@ == file.path@
            &&& back.mtime == file.mtime
            &&& back.entry_id@ == file.entry_id@
            &&& back.is_deleted == file.is_deleted
            &&& back.worktree == handle
            &&& !back.is_local
        },
        r is Err && !(worktree is Remote) ==> r->Err_0 == WorktreeError::NotRemote,
        r is Err && worktree is Remote ==> r->Err_0 == WorktreeError::WorktreeMismatch,
{
}

/// A summary of diagnostics that is sent comes back as it was, where its counts fit in a message.
pub proof fn law_sent_summary_comes_back(
    s: &DiagnosticSummary,
    path: &Path,
    m: proto::DiagnosticSummary,
    r: DiagnosticSummary,
)
    requires
        call_ensures(DiagnosticSummary::to_proto, (s, path), m),
        call_ensures(DiagnosticSummary::from_proto, (&m,), r),
        s.error_count <= u32::MAX,
        s.warning_count <= u32::MAX,
    ensures
        m.path@ == path@,
        r == *s,
{
}

/// Once an update was brought in, a remote worktree shows what it was told, and every request that
/// waits for a scan that has ended is answered, each once; the others go on waiting.
pub proof fn law_ended_scans_answer_requests(w: &mut RemoteWorktree, r: Vec<u64>, i: int)
    requires
        call_ensures(RemoteWorktree::snapshot_updated, (w,), r),
        0 <= i < old(w).waiting().len(),
    ensures
        ({
            let (scan, request) = old(w).waiting()[i];
            let ended = old(w).told().completed_scan();
            &&& scan <= ended ==> r@.contains(request)
            &&& scan > ended ==> final(w).waiting().contains((scan, request))
            &&& r@.len() + final(w).waiting().len() == old(w).waiting().len()
            &&& forall|k: int|
                #![trigger final(w).waiting()[k]]
                0 <= k < final(w).waiting().len() ==> final(w).waiting()[k].0 > ended
            &&& final(w).shows().list() == old(w).told().list()
            &&& final(w).shows().completed_scan() == ended
        }),
{
    let (scan, request) = old(w).waiting()[i];
    let n = r@.len() as int;
    let rest = final(w).waiting();
    if i < n {
        assert(r@[i] == request);
    } else {
        assert(rest[i - n] == old(w).waiting()[i]);
    }
    assert forall|k: int| #![trigger rest[k]] 0 <= k < rest.len() implies rest[k].0 > old(
        w,
    ).told().completed_scan() by {
        assert(rest[k] == old(w).waiting()[n + k]);
    }
}

/// A request for a scan is answered at once where the scan has ended, and is kept else, in its place
/// among the others, none of which is lost; where the host is gone it is cancelled.
pub proof fn law_request_waits_for_its_scan(
    w: &mut RemoteWorktree,
    scan_id: usize,
    request: u64,
    seen: bool,
    r: Waiting,
)
    requires
        call_ensures(RemoteWorktree::observed_snapshot, (&*old(w), scan_id), seen),
        call_ensures(RemoteWorktree::wait_for_snapshot, (w, scan_id, request), r),
    ensures
        seen <==> scan_id <= old(w).shows().completed_scan(),
        r is Ready <==> seen,
        r is Cancelled <==> !seen && old(w).is_cut_off(),
        r is Kept ==> {
            &&& final(w).waiting().contains((scan_id, request))
            &&& final(w).waiting().len() == old(w).waiting().len() + 1
            &&& forall|i: int|
                #![trigger old(w).waiting()[i]]
                0 <= i < old(w).waiting().len() ==> final(w).waiting().contains(old(w).waiting()[i])
            &&& forall|i: int, j: int|
                #![trigger final(w).waiting()[i], final(w).waiting()[j]]
                0 <= i < j < final(w).waiting().len() ==> final(w).waiting()[i].0
                    <= final(w).waiting()[j].0
        },
        !(r is Kept) ==> final(w).waiting() == old(w).waiting(),
{
    if r is Kept {
        let was = old(w).waiting();
        let x = (scan_id, request);
        let k = choose|k: int|
            0 <= k <= was.len() && final(w).waiting() == #[trigger] was.insert(k, x);
        let now = was.insert(k, x);
        assert(now[k] == x);
        assert forall|i: int| #![trigger was[i]] 0 <= i < was.len() implies now.contains(was[i]) by {
            if i < k {
                assert(now[i] == was[i]);
            } else {
                assert(now[i + 1] == was[i]);
            }
        }
    }
}

/// Once the host is gone, a remote worktree takes no update, nothing waits any more, and a request for
/// a scan that has not been seen is cancelled.
pub proof fn law_nothing_comes_from_a_gone_host(
    w: &mut RemoteWorktree,
    later: &mut RemoteWorktree,
    u: proto::UpdateWorktree,
    taken: Option<proto::UpdateWorktree>,
    scan_id: usize,
    request: u64,
    r: Waiting,
)
    requires
        call_ensures(RemoteWorktree::disconnected_from_host, (w,), ()),
        *old(later) == *final(w),
        call_ensures(RemoteWorktree::update_from_remote, (&*final(w), u), taken),
        call_ensures(RemoteWorktree::wait_for_snapshot, (later, scan_id, request), r),
    ensures
        taken is None,
        final(w).waiting().len() == 0,
        scan_id > old(w).shows().completed_scan() ==> r is Cancelled,
        final(later).waiting().len() == 0,
        final(w).shows() == old(w).shows(),
{
}

/// A piece that could not be sent is sent again once sending may go on, as often as it takes, and
/// nothing else is sent before it was; where sending may not go on, nothing is sent any more. The next
/// piece follows one that was sent, and all are sent once the last one was.
pub proof fn law_failed_piece_is_sent_again(
    step: SendStep,
    count: usize,
    failed: SendStep,
    again: SendStep,
    given_up: SendStep,
    went_well: SendStep,
    i: usize,
)
    requires
        step == SendStep::Send(i) || step == SendStep::Resend(i),
        i < count,
        call_ensures(SendStep::next, (step, count, false), failed),
        call_ensures(SendStep::next, (failed, count, true), again),
        call_ensures(SendStep::next, (failed, count, false), given_up),
        call_ensures(SendStep::next, (step, count, true), went_well),
    ensures
        failed == SendStep::Wait(i),
        again == SendStep::Resend(i),
        given_up == SendStep::Ended,
        i + 1 < count ==> went_well == SendStep::Send((i + 1) as usize),
        i + 1 == count ==> went_well == SendStep::Sent,
{
}

/// Sending begins with the first piece, and once it is over nothing follows.
pub proof fn law_sending_begins_and_ends(
    count: usize,
    first: SendStep,
    well: bool,
    sent: SendStep,
    ended: SendStep,
)
    requires
        call_ensures(SendStep::first, (count,), first),
        call_ensures(SendStep::next, (SendStep::Sent, count, well), sent),
        call_ensures(SendStep::next, (SendStep::Ended, count, well), ended),
    ensures
        count > 0 ==> first == SendStep::Send(0),
        count == 0 ==> first == SendStep::Sent,
        sent == SendStep::Sent,
        ended == SendStep::Ended,
{
}

/// What is sent of a newer snapshot: together, the pieces describe and remove what changed since the
/// snapshot that was sent last, and the newer one is then the one that was sent last.
#[verifier::rlimit(40)]
#[verifier::spinoff_prover]
pub proof fn law_sent_pieces_tell_what_changed(
    shared: &mut SharedSnapshot,
    newer: LocalSnapshot,
    size: usize,
    r: Vec<proto::UpdateWorktree>,
    id: usize,
)
    requires
        call_ensures(SharedSnapshot::updates_for, (shared, newer, size), r),
        size > 0,
        newer.wf(),
        old(shared).last().wf(),
        newer.snap().is_consistent(),
    ensures
        ({
            let now = newer.ids_map();
            let was = old(shared).last().ids_map();
            &&& final(shared).last() == newer
            &&& r@.len() > 0
            &&& (exists|i: int, k: int|
                #![trigger r@[i].updated_entries@[k]]
                0 <= i < r@.len() && 0 <= k < r@[i].updated_entries@.len()
                    && r@[i].updated_entries@[k].id == id) <==> now.contains_key(id) && !(was.contains_key(
                id,
            ) && was[id].scan_id == now[id].scan_id)
            &&& (exists|k: int|
                #![trigger r@[0].removed_entries@[k]]
                0 <= k < r@[0].removed_entries@.len() && r@[0].removed_entries@[k] == id)
                <==> was.contains_key(id) && !now.contains_key(id)
        }),
{
    let older = old(shared).last();
    let u = choose|u: proto::UpdateWorktree|
        {
            &&& #[trigger] is_update(newer, older, true, u)
            &&& u.project_id == old(shared).project()
            &&& u.worktree_id == old(shared).worktree()
            &&& are_pieces(u, size as nat, r@)
        };
    lemma_tells(newer, older, u, id);
    lemma_pieces_hold(u, size as nat, r@, id);
}

proof fn lemma_tells(newer: LocalSnapshot, older: LocalSnapshot, u: proto::UpdateWorktree, id: usize)
    requires
        is_update(newer, older, true, u),
        newer.wf(),
        older.wf(),
        newer.snap().is_consistent(),
    ensures
        (exists|i: int|
            #![trigger u.updated_entries@[i]]
            0 <= i < u.updated_entries@.len() && u.updated_entries@[i].id == id) <==> counts(
            newer.ids_map(),
            id,
            true,
        ) && !(counts(older.ids_map(), id, true) && older.ids_map()[id].scan_id
            == newer.ids_map()[id].scan_id),
        (exists|i: int|
            #![trigger u.removed_entries@[i]]
            0 <= i < u.removed_entries@.len() && u.removed_entries@[i] == id) <==> counts(
            older.ids_map(),
            id,
            true,
        ) && !counts(newer.ids_map(), id, true),
{
    let ks = newer.snap().id_list();
    let os = older.snap().id_list();
    let now = newer.ids_map();
    let was = older.ids_map();
    lemma_sent(ks, was, true, id);
    lemma_dropped(os, now, true, id);
    let list = sent(ks, was, true);
    let gone = dropped(os, now, true);
    let ms = u.updated_entries@;
    assert forall|i: int| #![trigger ms[i]] 0 <= i < ms.len() implies ms[i].id == list[i].id@ by {
        assert(is_message_for(newer.paths_map(), now, list[i].id@, ms[i]));
        assert(now.contains_key(list[i].id@));
    }
    if exists|i: int| #![trigger ms[i]] 0 <= i < ms.len() && ms[i].id == id {
        let i = choose|i: int| #![trigger ms[i]] 0 <= i < ms.len() && ms[i].id == id;
        assert(list[i].id@ == id);
    }
    if exists|i: int| #![trigger list[i]] 0 <= i < list.len() && list[i].id@ == id {
        let i = choose|i: int| #![trigger list[i]] 0 <= i < list.len() && list[i].id@ == id;
        assert(ms[i].id == id);
    }
    let ids = u.removed_entries@;
    if exists|i: int| #![trigger ids[i]] 0 <= i < ids.len() && ids[i] == id {
        let i = choose|i: int| #![trigger ids[i]] 0 <= i < ids.len() && ids[i] == id;
        assert(gone[i].id@ == id);
    }
    if exists|i: int| #![trigger gone[i]] 0 <= i < gone.len() && gone[i].id@ == id {
        let i = choose|i: int| #![trigger gone[i]] 0 <= i < gone.len() && gone[i].id@ == id;
        assert(ids[i] == id);
    }
}

/// The pieces of an update describe what the update describes.
proof fn lemma_pieces_hold(u: proto::UpdateWorktree, size: nat, r: Seq<proto::UpdateWorktree>, id: usize)
    requires
        are_pieces(u, size, r),
        size > 0,
    ensures
        r.len() > 0,
        r[0].removed_entries@ == u.removed_entries@,
        (exists|i: int, k: int|
            #![trigger r[i].updated_entries@[k]]
            0 <= i < r.len() && 0 <= k < r[i].updated_entries@.len() && r[i].updated_entries@[k].id == id)
            <==> exists|i: int|
            #![trigger u.updated_entries@[i]]
            0 <= i < u.updated_entries@.len() && u.updated_entries@[i].id == id,
{
    let ms = u.updated_entries@;
    assert(r.len() > 0);
    assert(is_piece(u, size, 0, r[0]));
    if exists|i: int, k: int|
        #![trigger r[i].updated_entries@[k]]
        0 <= i < r.len() && 0 <= k < r[i].updated_entries@.len() && r[i].updated_entries@[k].id == id {
        let (i, k) = choose|i: int, k: int|
            #![trigger r[i].updated_entries@[k]]
            0 <= i < r.len() && 0 <= k < r[i].updated_entries@.len() && r[i].updated_entries@[k].id == id;
        assert(is_piece(u, size, i, r[i]));
        lemma_piece(ms, size, i);
        assert(ms[i * size + k].id == id);
    }
    if exists|x: int| #![trigger ms[x]] 0 <= x < ms.len() && ms[x].id == id {
        let x = choose|x: int| #![trigger ms[x]] 0 <= x < ms.len() && ms[x].id == id;
        let (i, k) = lemma_piece_with(ms, size, x);
        assert(is_piece(u, size, i, r[i]));
        assert(r[i].updated_entries@[k].id == id);
    }
}

/// Every item is in one of the pieces.
proof fn lemma_piece_with<A>(s: Seq<A>, size: nat, x: int) -> (r: (int, int))
    requires
        size > 0,
        0 <= x < s.len(),
    ensures
        0 <= r.0 < pieces(s, size).len(),
        0 <= r.1 < pieces(s, size)[r.0].len(),
        pieces(s, size)[r.0][r.1] == s[x],
    decreases s.len(),
{
    if s.len() <= size {
        (0, x)
    } else if x < size {
        assert(pieces(s, size)[0] == s.take(size as int));
        (0, x)
    } else {
        let rest = s.skip(size as int);
        let (i, k) = lemma_piece_with(rest, size, x - size);
        assert(pieces(s, size)[i + 1] == pieces(rest, size)[i]);
        (i + 1, k)
    }
}

/// A remote worktree takes an update as its snapshot would: each entry that is described comes, each
/// that is removed goes; and what it shows stays until it is polled. Where the update is not taken,
/// nothing changes.
pub proof fn law_remote_worktree_takes_update(
    w: &mut RemoteWorktree,
    u: proto::UpdateWorktree,
    r: Result<(), WorktreeError>,
    i: int,
)
    requires
        call_ensures(RemoteWorktree::apply_update, (w, u), r),
    ensures
        r is Ok ==> {
            &&& is_last_of_path(u.updated_entries@, i) ==> {
                let p = components(u.updated_entries@[i].path@);
                &&& final(w).told().paths_map().contains_key(p)
                &&& says_message(final(w).told().paths_map()[p], u.updated_entries@[i])
            }
            &&& final(w).told().scan() == u.scan_id as usize
            &&& u.is_last_update ==> final(w).told().completed_scan() == u.scan_id as usize
        },
        r is Err ==> final(w).told().list() == old(w).told().list(),
        final(w).shows() == old(w).shows(),
        final(w).waiting() == old(w).waiting(),
{
    if r is Ok && is_last_of_path(u.updated_entries@, i) {
        let ms = u.updated_entries@;
        let es = choose|es: Seq<Entry>| #[trigger]
            is_updated(old(w).told(), u, es, final(w).told());
        let p = components(ms[i].path@);
        assert(es[i].comps() == p);
        assert forall|j: int| #![trigger es[j]] i < j < es.len() implies es[j].comps() != p by {
            assert(ms[j].path@ == es[j].path@);
        }
        lemma_last_of_path(es, i);
    }
}

/// A remote worktree that puts in an entry, or deletes one, shows it at once.
pub proof fn law_remote_entry_is_shown(
    w: &mut RemoteWorktree,
    m: proto::Entry,
    r: Result<Entry, WorktreeError>,
    p: Seq<Seq<char>>,
)
    requires
        call_ensures(RemoteWorktree::insert_entry, (w, m), r),
        old(w).told().is_consistent(),
        old(w).wf(),
    ensures
        r is Ok <==> m.mtime is Some,
        r matches Ok(e) ==> {
            let was = old(w).told().paths_map();
            let now = final(w).shows().paths_map();
            let here = components(m.path@);
            &&& says_message(e, m)
            &&& now.contains_key(here) && now[here] == e
            &&& p != here && was.contains_key(p) && was[p].id@ != m.id as usize ==> now.contains_key(p)
                && now[p] == was[p]
            &&& p != here && was.contains_key(p) && was[p].id@ == m.id as usize ==> !now.contains_key(p)
            &&& p != here && !was.contains_key(p) ==> !now.contains_key(p)
        },
        final(w).shows().list() == final(w).told().list(),
{
    let was = old(w).told();
    if was.paths_map().contains_key(p) {
        let k = lemma_key_index(was.list(), p);
        assert(was.paths_map()[p].comps() == p);
        assert(was.ids_map().contains_key(was.paths_map()[p].id@));
    }
    if was.ids_map().contains_key(m.id as usize) {
        assert(was.paths_map().contains_key(was.ids_map()[m.id as usize].path.comps()));
    }
}

/// A remote worktree that deletes an entry takes out everything that lies in its path, at any depth,
/// and nothing else, and shows it at once.
pub proof fn law_remote_deletion_is_shown(
    w: &mut RemoteWorktree,
    id: ProjectEntryId,
    e: Entry,
    p: Seq<Seq<char>>,
)
    requires
        call_ensures(RemoteWorktree::delete_entry, (w, id), ()),
        old(w).told().is_consistent(),
        old(w).told().paths_map().contains_key(e.comps()),
        old(w).told().paths_map()[e.comps()] == e,
        e.id@ == id@,
    ensures
        ({
            let was = old(w).told().paths_map();
            let now = final(w).shows().paths_map();
            &&& now.contains_key(p) <==> was.contains_key(p) && !nested_in(p, e.comps())
            &&& now.contains_key(p) ==> now[p] == was[p]
        }),
        final(w).shows().list() == final(w).told().list(),
{
}

/// A summary that is told of a path comes in the place of the one that was known, and goes where it
/// counts no errors and no warnings; those of other paths stay.
pub proof fn law_told_summary_is_that_of_its_path(
    w: &mut RemoteWorktree,
    path: Arc<Path>,
    m: &proto::DiagnosticSummary,
    other: Seq<Seq<char>>,
)
    requires
        call_ensures(RemoteWorktree::update_diagnostic_summary, (w, path, m), ()),
    ensures
        ({
            let p = path.comps();
            let was = old(w).summaries();
            let now = final(w).summaries();
            &&& now.contains_key(p) <==> m.error_count > 0 || m.warning_count > 0
            &&& now.contains_key(p) ==> {
                &&& now[p].error_count == m.error_count
                &&& now[p].warning_count == m.warning_count
                &&& m.language_server_id <= usize::MAX ==> now[p].language_server_id
                    == m.language_server_id
            }
            &&& other != p ==> {
                &&& now.contains_key(other) == was.contains_key(other)
                &&& now.contains_key(other) ==> now[other] == was[other]
            }
        }),
{
}

/// A remote worktree begins empty, with what it is told of itself, takes updates, and shows what it was
/// told once it is polled.
pub proof fn law_remote_worktree_begins_empty(
    project_id: u64,
    replica_id: u16,
    m: proto::WorktreeMetadata,
    w: RemoteWorktree,
    later: &mut RemoteWorktree,
    event: Event,
)
    requires
        call_ensures(RemoteWorktree::new, (project_id, replica_id, m), w),
        call_ensures(RemoteWorktree::poll_snapshot, (later,), event),
    ensures
        w.shows().list().len() == 0,
        w.told().list().len() == 0,
        w.shows().name() == m.root_name@,
        w.shows().root_path()@ == m.abs_path@,
        w.shown() == m.visible,
        w.takes_updates(),
        !w.is_cut_off(),
        w.waiting().len() == 0,
        w.project() == project_id,
        w.replica() == replica_id,
        final(later).shows().list() == old(later).told().list(),
        final(later).shows().scan() == old(later).told().scan(),
        final(later).shows().completed_scan() == old(later).told().completed_scan(),
        event is UpdatedEntries,
{
}

/// A remote worktree asks the host to save a buffer, and takes the time at which it was saved from the
/// answer.
pub proof fn law_remote_buffer_is_saved(
    w: &RemoteWorktree,
    buffer_id: u64,
    version: Vec<proto::VectorClockEntry>,
    m: proto::SaveBuffer,
    answer: &proto::BufferSaved,
    r: Result<proto::Timestamp, WorktreeError>,
)
    requires
        call_ensures(RemoteWorktree::save_buffer, (w, buffer_id, version), m),
        call_ensures(RemoteWorktree::buffer_saved, (w, answer), r),
    ensures
        m.project_id == w.project(),
        m.buffer_id == buffer_id,
        m.version@ == version@,
        r is Ok <==> answer.mtime is Some,
        r matches Ok(t) ==> answer.mtime == Some(t),
        r matches Err(e) ==> e == WorktreeError::MissingMtime,
{
}

/// An update can be built to any snapshot whose entries and numbers agree.
pub proof fn law_update_can_be_built(
    newer: &LocalSnapshot,
    older: &LocalSnapshot,
    include_ignored: bool,
    r: bool,
)
    requires
        call_ensures(LocalSnapshot::can_build_update, (newer, older, include_ignored), r),
        newer.wf(),
        newer.snap().is_consistent(),
    ensures
        r,
{
    let ks = newer.snap().id_list();
    assert forall|i: int|
        #![trigger ks[i]]
        0 <= i < ks.len() implies crate::snapshot::entry_of_id(
        newer.paths_map(),
        newer.ids_map(),
        ks[i].id@,
    ) is Some by {
        lemma_item_with(ks, i);
        assert(newer.ids_map().contains_key(ks[i].id@));
    }
}

} // verus!
