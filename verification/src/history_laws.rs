//! What a worktree goes through as a whole: a first scan, and then any number of batches of
//! events. However it went, the snapshot is in the end what a new scan would find.
use crate::entry::{Entry, Metadata};
use crate::event_laws::jobs_of;
use crate::event_status_laws::root_of;
use crate::events::{are_events_applied, EventOutcome, FsEvent};
use crate::ignore_laws::is_tree;
use crate::ignore_stack::gitignore_name;
use crate::local_snapshot::LocalSnapshot;
use crate::local_worktree::is_first_snapshot;
use crate::path::{names_lt, nested_in, root_length, Path};
use crate::reflect_laws::{
    are_changes_told, are_texts_of, are_usable, is_being_scanned, is_being_updated, is_dir_scanned,
    is_read_from, law_events_begin_update, law_events_end_update, law_first_scan_begins,
    law_first_scan_step, law_reflections_are_equal, law_update_step, lemma_reflected_tree,
    lemma_same_behind, outside_of, reflects, usable, FsTexts, Outside,
};
use crate::scan_laws::{is_fs_tree, is_unchanged, law_scan_finds_all, FsTree};
use crate::scanner::{ignores_above, is_root_job, is_root_marked, DirChild, ScanJob};
use crate::statuses::{
    are_changed_dirs, dir_statuses, fresh_ignores, is_stale_dir, relative, restated,
    restated_ids,
};
use crate::sum_tree::{by_key, has_key, lemma_item_with, lemma_key_index, lemma_same_keys, sorted};
use crate::traversal::{included, selected};
use crate::walk_laws::{by_children, law_children_in_order};
use std::sync::Arc;
use vstd::prelude::*;

verus! {

/// The identifiers that were taken from a counter: the first one, and how many.
pub type Taken = (usize, nat);

/// Whether a snapshot, and the directories that are to be read, are what others become where one
/// of the directories is read, in whatever order its children are listed.
pub open spec fn is_one_read(
    tree: FsTree,
    texts: FsTexts,
    before: LocalSnapshot,
    jobs: Seq<ScanJob>,
    taken: Taken,
    after: LocalSnapshot,
    left: Seq<ScanJob>,
) -> bool {
    exists|
        k: int,
        children: Seq<DirChild>,
        es: Seq<Entry>,
        repo: Option<u64>,
        new_jobs: Seq<ScanJob>,
    |
        {
            &&& #[trigger] is_dir_scanned(
                before,
                jobs,
                k,
                children,
                taken.0,
                es,
                repo,
                new_jobs,
                after,
            )
            &&& es.len() == taken.1
            &&& is_read_from(tree, texts, jobs[k].path.comps(), children)
            &&& left == jobs.remove(k) + new_jobs
        }
}

/// Whether snapshots follow one another as directories are read, one after the other and in
/// whatever order, until none is left. `queues` holds those that are left at each time, and `taken`
/// the identifiers that each takes.
pub open spec fn is_all_read(
    tree: FsTree,
    texts: FsTexts,
    states: Seq<LocalSnapshot>,
    queues: Seq<Seq<ScanJob>>,
    taken: Seq<Taken>,
) -> bool {
    &&& states.len() > 0
    &&& states.len() == queues.len()
    &&& states.len() == taken.len() + 1
    &&& forall|i: int|
        #![trigger states[i]]
        0 <= i < states.len() - 1 ==> is_one_read(
            tree,
            texts,
            states[i],
            queues[i],
            taken[i],
            states[i + 1],
            queues[i + 1],
        )
    &&& queues.last() == Seq::<ScanJob>::empty()
}

/// A first scan.
pub struct FirstScan {
    /// What the file system said of the root when the worktree was made.
    pub metadata: Metadata,
    /// The identifier of the root.
    pub entry_id: usize,
    /// The snapshot with the root alone.
    pub first: LocalSnapshot,
    /// The texts of the ignore files above the root, that of the nearest directory first.
    pub above: Seq<Option<String>>,
    pub job: ScanJob,
    pub states: Seq<LocalSnapshot>,
    pub queues: Seq<Seq<ScanJob>>,
    pub taken: Seq<Taken>,
}

/// Whether a first scan of a directory ends with a snapshot.
pub open spec fn is_scanned(scan: FirstScan, tree: FsTree, texts: FsTexts, after: LocalSnapshot) -> bool {
    let first = scan.first;
    let top = Seq::<Seq<char>>::empty();
    let root = root_of(first);
    &&& is_fs_tree(tree)
    &&& are_texts_of(tree, texts)
    &&& root.len() > 0
    &&& exists|id: usize, path: Arc<Path>| #[trigger]
        is_first_snapshot(first, id, path, Some(scan.metadata), scan.entry_id)
    &&& scan.metadata.is_dir
    &&& tree.contains_key(top)
    &&& is_unchanged(scan.metadata, tree[top])
    &&& scan.above.len() == root.len() - root_length(root)
    &&& is_all_read(tree, texts, scan.states, scan.queues, scan.taken)
    &&& scan.states[0].snap().same_tree(first.snap())
    &&& scan.states[0].scan() == first.scan() + 1
    &&& scan.states[0].ignores() == ignores_above(
        first.ignores(),
        first.root_text(),
        scan.above,
        scan.above.len() as int,
    )
    &&& is_root_marked(first, scan.states[0])
    &&& is_root_job(scan.job, scan.states[0], first.paths_map()[top].inode)
    &&& scan.queues[0] == seq![scan.job]
    &&& after.wf()
    &&& after.scan() == scan.states.last().scan()
    &&& after.is_rescanned(scan.states.last())
}

/// A batch of events, and what was done for it.
pub struct Batch {
    pub events: Seq<FsEvent>,
    pub started: LocalSnapshot,
    pub id: usize,
    pub outcomes: Seq<EventOutcome>,
    pub next_id: usize,
    pub removed: Seq<LocalSnapshot>,
    pub handled: Seq<LocalSnapshot>,
    pub ids: Seq<usize>,
    pub states: Seq<LocalSnapshot>,
    pub queues: Seq<Seq<ScanJob>>,
    pub taken: Seq<Taken>,
    pub dirs: Seq<Arc<Path>>,
}

/// Whether a batch begins with a snapshot: a scan begins, the events are brought in, and the
/// directories that have to be read are those that come of them.
pub open spec fn is_begun(batch: Batch, root: Seq<Seq<char>>, before: LocalSnapshot) -> bool {
    &&& batch.started.is_rescanned(before)
    &&& batch.started.scan() == before.scan() + 1
    &&& are_events_applied(
        batch.started,
        root,
        batch.events,
        batch.id,
        batch.outcomes,
        batch.states[0],
        batch.next_id,
        batch.removed,
        batch.handled,
        batch.ids,
    )
    &&& batch.queues[0] == jobs_of(batch.outcomes)
}

/// Whether a snapshot is what another one becomes where a batch of events is handled: the events
/// are brought in, the directories that have to be read are, and the batch is finished.
pub open spec fn is_batch(
    batch: Batch,
    root: Seq<Seq<char>>,
    tree: FsTree,
    texts: FsTexts,
    before: LocalSnapshot,
    after: LocalSnapshot,
) -> bool {
    let read = batch.states.last();
    &&& is_begun(batch, root, before)
    &&& is_all_read(tree, texts, batch.states, batch.queues, batch.taken)
    &&& read.wf()
    &&& after.wf()
    &&& are_changed_dirs(read, batch.dirs)
    &&& after.snap().same_tree(read.snap())
    &&& after.scan() == read.scan()
    &&& after.removed() == crate::local_snapshot::Removed::empty()
    &&& after.ignores() == fresh_ignores(read)
    &&& after.paths_map() == restated(
        read.paths_map(),
        dir_statuses(read, fresh_ignores(read), batch.dirs, batch.dirs.len() as int),
    )
    &&& after.ids_map() == restated_ids(
        read.ids_map(),
        read.paths_map(),
        dir_statuses(read, fresh_ignores(read), batch.dirs, batch.dirs.len() as int),
        read.scan(),
    )
}

/// Whether no ignore file that could be used has become one that cannot be.
pub open spec fn stay_usable(
    root: Seq<char>,
    old_texts: FsTexts,
    tree: FsTree,
    texts: FsTexts,
) -> bool {
    forall|d: Seq<Seq<char>>|
        #![trigger usable(root, texts, d)]
        usable(root, old_texts, d) is Some && tree.contains_key(d.push(gitignore_name()))
            ==> usable(root, texts, d) is Some
}

/// What the file system was, and what the snapshot was, after the first scan and after each of
/// some batches of events.
pub struct History {
    pub scan: FirstScan,
    pub batches: Seq<Batch>,
    /// What the file system was, as far as events have told of it: where a batch tells of some
    /// changes only, the others are in a later one.
    pub trees: Seq<FsTree>,
    /// The texts of its ignore files, likewise.
    pub texts: Seq<FsTexts>,
    pub snapshots: Seq<LocalSnapshot>,
    /// The path of the worktree with its links resolved, in which the paths of events lie.
    pub root: Seq<Seq<char>>,
}

/// Whether a history is one of a worktree: every batch has the events for what has changed since
/// the one before. Left out are an ignore file that becomes one that cannot be used, events below a
/// directory that a scan does not enter, and events that are not plainly written.
pub open spec fn is_history(h: History) -> bool {
    &&& h.trees.len() == h.batches.len() + 1
    &&& h.texts.len() == h.batches.len() + 1
    &&& h.snapshots.len() == h.batches.len() + 1
    &&& is_scanned(h.scan, h.trees[0], h.texts[0], h.snapshots[0])
    &&& forall|i: int|
        #![trigger h.batches[i]]
        0 <= i < h.batches.len() ==> {
            &&& are_changes_told(
                h.trees[i],
                h.texts[i],
                h.trees[i + 1],
                h.texts[i + 1],
                h.root,
                h.batches[i].events,
            )
            &&& stay_usable(h.scan.first.root_text(), h.texts[i], h.trees[i + 1], h.texts[i + 1])
            &&& is_batch(
                h.batches[i],
                h.root,
                h.trees[i + 1],
                h.texts[i + 1],
                h.snapshots[i],
                h.snapshots[i + 1],
            )
        }
}

/// Reading directories in a first scan.
pub proof fn lemma_all_scanned(
    tree: FsTree,
    texts: FsTexts,
    outside: Outside,
    states: Seq<LocalSnapshot>,
    queues: Seq<Seq<ScanJob>>,
    taken: Seq<Taken>,
    n: int,
)
    requires
        is_fs_tree(tree),
        are_texts_of(tree, texts),
        is_all_read(tree, texts, states, queues, taken),
        is_being_scanned(states[0], tree, texts, outside, queues[0]),
        0 <= n < states.len(),
    ensures
        is_being_scanned(states[n], tree, texts, outside, queues[n]),
        states[n].root_text() == states[0].root_text(),
    decreases n,
{
    if n > 0 {
        let i = n - 1;
        lemma_all_scanned(tree, texts, outside, states, queues, taken, i);
        assert(is_one_read(
            tree,
            texts,
            states[i],
            queues[i],
            taken[i],
            states[i + 1],
            queues[i + 1],
        ));
        let (k, children, es, repo, new_jobs) = choose|
            k: int,
            children: Seq<DirChild>,
            es: Seq<Entry>,
            repo: Option<u64>,
            new_jobs: Seq<ScanJob>,
        |
            {
                &&& #[trigger] is_dir_scanned(
                    states[i],
                    queues[i],
                    k,
                    children,
                    taken[i].0,
                    es,
                    repo,
                    new_jobs,
                    states[i + 1],
                )
                &&& es.len() == taken[i].1
                &&& is_read_from(tree, texts, queues[i][k].path.comps(), children)
                &&& queues[i + 1] == queues[i].remove(k) + new_jobs
            };
        law_first_scan_step(
            tree,
            texts,
            outside,
            states[i],
            queues[i],
            k,
            children,
            taken[i].0,
            es,
            repo,
            new_jobs,
            states[i + 1],
        );
    }
}

/// Reading directories while events are brought in.
pub proof fn lemma_all_updated(
    tree: FsTree,
    texts: FsTexts,
    outside: Outside,
    states: Seq<LocalSnapshot>,
    queues: Seq<Seq<ScanJob>>,
    taken: Seq<Taken>,
    n: int,
)
    requires
        is_fs_tree(tree),
        are_texts_of(tree, texts),
        is_all_read(tree, texts, states, queues, taken),
        is_being_updated(states[0], tree, texts, outside, queues[0]),
        0 <= n < states.len(),
    ensures
        is_being_updated(states[n], tree, texts, outside, queues[n]),
        states[n].root_text() == states[0].root_text(),
    decreases n,
{
    if n > 0 {
        let i = n - 1;
        lemma_all_updated(tree, texts, outside, states, queues, taken, i);
        assert(is_one_read(
            tree,
            texts,
            states[i],
            queues[i],
            taken[i],
            states[i + 1],
            queues[i + 1],
        ));
        let (k, children, es, repo, new_jobs) = choose|
            k: int,
            children: Seq<DirChild>,
            es: Seq<Entry>,
            repo: Option<u64>,
            new_jobs: Seq<ScanJob>,
        |
            {
                &&& #[trigger] is_dir_scanned(
                    states[i],
                    queues[i],
                    k,
                    children,
                    taken[i].0,
                    es,
                    repo,
                    new_jobs,
                    states[i + 1],
                )
                &&& es.len() == taken[i].1
                &&& is_read_from(tree, texts, queues[i][k].path.comps(), children)
                &&& queues[i + 1] == queues[i].remove(k) + new_jobs
            };
        law_update_step(
            tree,
            texts,
            outside,
            states[i],
            queues[i],
            k,
            children,
            taken[i].0,
            es,
            repo,
            new_jobs,
            states[i + 1],
        );
    }
}

/// After a first scan of a directory, the snapshot reflects the file system.
pub proof fn law_scan_reflects(scan: FirstScan, tree: FsTree, texts: FsTexts, after: LocalSnapshot)
    requires
        is_scanned(scan, tree, texts, after),
    ensures
        reflects(after, tree, texts, outside_of(scan.first.root_text(), scan.above)),
        after.root_text() == scan.first.root_text(),
{
    let first = scan.first;
    let top = Seq::<Seq<char>>::empty();
    let outside = outside_of(first.root_text(), scan.above);
    let last = scan.states.last();
    law_first_scan_begins(tree, texts, first, scan.above, scan.job, scan.states[0]);
    lemma_all_scanned(
        tree,
        texts,
        outside,
        scan.states,
        scan.queues,
        scan.taken,
        scan.states.len() - 1,
    );
    assert(scan.queues[scan.states.len() - 1] == scan.queues.last());
    lemma_rescanned(last, after, tree, texts, outside);
}

/// A snapshot reflects what it did where nothing but the numbers of scans changed.
proof fn lemma_rescanned(
    before: LocalSnapshot,
    after: LocalSnapshot,
    tree: FsTree,
    texts: FsTexts,
    outside: Outside,
)
    requires
        reflects(before, tree, texts, outside),
        after.is_rescanned(before),
        after.scan() >= before.scan(),
    ensures
        reflects(after, tree, texts, outside),
        after.root_text() == before.root_text(),
{
    assert(after.paths_map() == before.paths_map());
    assert forall|dir: Seq<Seq<char>>| !#[trigger] is_stale_dir(after, dir) by {
        assert(!is_stale_dir(before, dir));
    }
}

/// Bringing in the events of a batch leaves the snapshot reflecting what the file system has
/// become, but for what is still to be done.
pub proof fn lemma_batch_begins(
    batch: Batch,
    root: Seq<Seq<char>>,
    old_tree: FsTree,
    old_texts: FsTexts,
    tree: FsTree,
    texts: FsTexts,
    outside: Outside,
    before: LocalSnapshot,
)
    requires
        reflects(before, old_tree, old_texts, outside),
        are_changes_told(old_tree, old_texts, tree, texts, root, batch.events),
        stay_usable(before.root_text(), old_texts, tree, texts),
        is_begun(batch, root, before),
    ensures
        is_being_updated(batch.states[0], tree, texts, outside, batch.queues[0]),
        batch.states[0].root_text() == before.root_text(),
{
    let top = root_of(before);
    let w = before.root_text();
    assert forall|d: Seq<Seq<char>>|
        #![trigger usable(w, texts, d)]
        before.ignores().contains_key(top + d) && tree.contains_key(
            d.push(gitignore_name()),
        ) implies usable(w, texts, d) is Some by {
        lemma_same_behind(top, d, d);
        assert(relative(before, top + d) =~= d);
        assert(!is_stale_dir(before, top + d));
        law_scan_finds_all(before.paths_map(), old_tree, d.push(gitignore_name()));
        assert(usable(w, old_texts, d) is Some);
    }
    assert(are_usable(before, tree, texts));
    law_events_begin_update(
        old_tree,
        old_texts,
        tree,
        texts,
        outside,
        before,
        batch.started,
        root,
        batch.events,
        batch.id,
        batch.outcomes,
        batch.states[0],
        batch.next_id,
        batch.removed,
        batch.handled,
        batch.ids,
    );
    crate::event_status_laws::law_next_scan_is_settled(before, batch.started);
    crate::event_status_laws::law_events_find_statuses(
        tree,
        batch.started,
        root,
        batch.events,
        batch.id,
        batch.outcomes,
        batch.states[0],
        batch.next_id,
        batch.removed,
        batch.handled,
        batch.ids,
    );
}

/// After a batch with the events for all that has changed, the snapshot reflects what the file
/// system has become. This holds where no ignore file becomes one that cannot be used.
pub proof fn law_batch_reflects(
    batch: Batch,
    root: Seq<Seq<char>>,
    old_tree: FsTree,
    old_texts: FsTexts,
    tree: FsTree,
    texts: FsTexts,
    outside: Outside,
    before: LocalSnapshot,
    after: LocalSnapshot,
)
    requires
        reflects(before, old_tree, old_texts, outside),
        are_changes_told(old_tree, old_texts, tree, texts, root, batch.events),
        stay_usable(before.root_text(), old_texts, tree, texts),
        is_batch(batch, root, tree, texts, before, after),
    ensures
        reflects(after, tree, texts, outside),
        after.root_text() == before.root_text(),
{
    lemma_batch_begins(
        batch,
        root,
        old_tree,
        old_texts,
        tree,
        texts,
        outside,
        before,
    );
    lemma_all_updated(
        tree,
        texts,
        outside,
        batch.states,
        batch.queues,
        batch.taken,
        batch.states.len() - 1,
    );
    assert(batch.queues[batch.states.len() - 1] == batch.queues.last());
    law_events_end_update(tree, texts, outside, batch.states.last(), batch.dirs, after);
}

/// After a first scan and any number of batches of events, the snapshot reflects the file system.
pub proof fn law_history_reflects(h: History, n: int)
    requires
        is_history(h),
        0 <= n < h.snapshots.len(),
    ensures
        reflects(
            h.snapshots[n],
            h.trees[n],
            h.texts[n],
            outside_of(h.scan.first.root_text(), h.scan.above),
        ),
        h.snapshots[n].root_text() == h.scan.first.root_text(),
        h.snapshots[n].wf(),
        is_fs_tree(h.trees[n]),
    decreases n,
{
    let outside = outside_of(h.scan.first.root_text(), h.scan.above);
    if n == 0 {
        law_scan_reflects(h.scan, h.trees[0], h.texts[0], h.snapshots[0]);
    } else {
        let i = n - 1;
        law_history_reflects(h, i);
        let batch = h.batches[i];
        law_batch_reflects(
            batch,
            h.root,
            h.trees[i],
            h.texts[i],
            h.trees[i + 1],
            h.texts[i + 1],
            outside,
            h.snapshots[i],
            h.snapshots[i + 1],
        );
    }
}

/// The paths of all entries in order, each with its inode and whether it is ignored.
pub open spec fn to_vec(s: Seq<Entry>) -> Seq<(Seq<Seq<char>>, u64, bool)> {
    s.map_values(|e: Entry| (e.comps(), e.inode, e.is_ignored))
}

/// Snapshots that reflect one file system list the same paths, with the same inodes and statuses.
pub proof fn lemma_same_lists(
    tree: FsTree,
    texts: FsTexts,
    outside: Outside,
    a: LocalSnapshot,
    b: LocalSnapshot,
)
    requires
        a.wf(),
        b.wf(),
        a.root_text() == b.root_text(),
        reflects(a, tree, texts, outside),
        reflects(b, tree, texts, outside),
    ensures
        to_vec(a.snap().list()) == to_vec(b.snap().list()),
{
    let s = a.snap().list();
    let t = b.snap().list();
    law_reflections_are_equal(tree, texts, outside, a, b);
    assert forall|p: Seq<Seq<char>>| #![trigger has_key(s, p)] #![trigger has_key(t, p)] has_key(
        s,
        p,
    ) <==> has_key(t, p) by {
        assert(a.paths_map().dom().contains(p) == has_key(s, p));
        assert(b.paths_map().dom().contains(p) == has_key(t, p));
    }
    lemma_same_keys(s, t);
    assert forall|i: int| 0 <= i < s.len() implies to_vec(s)[i] == to_vec(t)[i] by {
        lemma_item_with(s, i);
        lemma_item_with(t, i);
        assert(s[i].comps() == t[i].comps());
        assert(a.paths_map().contains_key(s[i].comps()));
    }
    assert(to_vec(s) =~= to_vec(t));
}

/// Events leave what a scan finds: after a first scan and any number of batches of events, the
/// snapshot lists the same paths, with the same inodes and statuses, as that of a new scan of what
/// the file system has become.
pub proof fn law_events_leave_what_a_scan_finds(h: History, scan: FirstScan, fresh: LocalSnapshot)
    requires
        is_history(h),
        is_scanned(scan, h.trees.last(), h.texts.last(), fresh),
        scan.first.root_text() == h.scan.first.root_text(),
        scan.above == h.scan.above,
    ensures
        to_vec(h.snapshots.last().snap().list()) == to_vec(fresh.snap().list()),
        h.snapshots.last().paths_map().dom() == fresh.paths_map().dom(),
{
    let n = h.snapshots.len() - 1;
    let outside = outside_of(h.scan.first.root_text(), h.scan.above);
    law_history_reflects(h, n);
    law_scan_reflects(scan, h.trees.last(), h.texts.last(), fresh);
    lemma_same_lists(h.trees[n], h.texts[n], outside, h.snapshots[n], fresh);
    law_reflections_are_equal(h.trees[n], h.texts[n], outside, h.snapshots[n], fresh);
}

/// After a first scan and any number of batches of events, where the root is there: entries stand
/// in the order of a depth-first walk from children to children, a walk over all entries or over
/// the files gives exactly them in that order, and every ignore file of the worktree that is known
/// has an entry for its directory and one for itself.
pub proof fn law_history_keeps_order(h: History, n: int)
    requires
        is_history(h),
        0 <= n < h.snapshots.len(),
        h.trees[n].contains_key(Seq::empty()),
    ensures
        ({
            let l = h.snapshots[n];
            let s = l.snap().list();
            let top = Seq::<Seq<char>>::empty();
            &&& sorted(s)
            &&& is_tree(l.paths_map())
            &&& s.len() > 0
            &&& s[0].comps() == top
            &&& seq![s[0]] + by_children(s, top, 1) == s
            &&& selected(s, true, true) == s
            &&& selected(s, false, true) == s.filter(|e: Entry| e.is_file_entry())
            &&& selected(s, false, false) == s.filter(
                |e: Entry| e.is_file_entry() && !e.is_ignored,
            )
            &&& forall|dir: Seq<Seq<char>>| #[trigger]
                l.ignores().contains_key(dir) && nested_in(dir, root_of(l)) ==> {
                    &&& l.paths_map().contains_key(relative(l, dir))
                    &&& l.paths_map().contains_key(relative(l, dir).push(gitignore_name()))
                }
        }),
{
    let l = h.snapshots[n];
    let s = l.snap().list();
    let top = Seq::<Seq<char>>::empty();
    law_history_reflects(h, n);
    lemma_reflected_tree(l.paths_map(), h.trees[n]);
    law_scan_finds_all(l.paths_map(), h.trees[n], top);
    lemma_walk_from_root(s);
    lemma_all_selected(s);
    let files = |e: Entry| e.is_file_entry();
    assert(files =~= (|e: Entry| included(e, false, true)));
    let shown = |e: Entry| e.is_file_entry() && !e.is_ignored;
    assert(shown =~= (|e: Entry| included(e, false, false)));
    assert forall|dir: Seq<Seq<char>>| #[trigger]
        l.ignores().contains_key(dir) && nested_in(dir, root_of(l)) implies {
        &&& l.paths_map().contains_key(relative(l, dir))
        &&& l.paths_map().contains_key(relative(l, dir).push(gitignore_name()))
    } by {
        assert(!is_stale_dir(l, dir));
        let file = relative(l, dir).push(gitignore_name());
        assert(file.drop_last() =~= relative(l, dir));
    }
}

/// The root stands first, and a walk from its children to theirs gives all the rest.
proof fn lemma_walk_from_root(s: Seq<Entry>)
    requires
        sorted(s),
        by_key(s).contains_key(Seq::empty()),
    ensures
        s.len() > 0,
        s[0].comps() == Seq::<Seq<char>>::empty(),
        seq![s[0]] + by_children(s, Seq::empty(), 1) == s,
{
    let top = Seq::<Seq<char>>::empty();
    let i = lemma_key_index(s, top);
    assert(nested_in(s[0].comps(), top)) by {
        assert(top =~= s[0].comps().subrange(0, 0));
    }
    if i > 0 {
        assert(names_lt(s[0].comps(), s[i].comps()));
        crate::path_lemmas::lemma_nested_is_after(s[0].comps(), top);
        crate::path_lemmas::lemma_names_lt_asymmetric(s[0].comps(), top);
        crate::path_lemmas::lemma_names_lt_irreflexive(top);
    }
    crate::statuses::lemma_inside_entry(s, 0);
    law_children_in_order(s, top, 1);
    let to = crate::traversal::after_subtree(s, top, 1);
    crate::traversal::lemma_after_subtree(s, top, 1);
    if to < s.len() {
        assert(nested_in(s[to].comps(), top)) by {
            assert(top =~= s[to].comps().subrange(0, 0));
        }
    }
    assert(seq![s[0]] + s.subrange(1, to) =~= s);
}

/// A walk over all entries stops at each.
proof fn lemma_all_selected(s: Seq<Entry>)
    ensures
        selected(s, true, true) == s,
    decreases s.len(),
{
    reveal(Seq::filter);
    if s.len() > 0 {
        lemma_all_selected(s.drop_last());
        assert(s.drop_last().push(s.last()) =~= s);
    } else {
        assert(selected(s, true, true) =~= s);
    }
}

} // verus!
