//! What the snapshots of a worktree keep from one scan to the next: identifiers are those of one
//! entry each, what changed is marked with the scan that changed it, and so an update brings a copy
//! of any of them up to any later one.
use crate::entry::Entry;
use crate::entry_laws::{
    are_new_entries, is_marked_since, is_orderly, law_insert_keeps_order, law_insert_marks,
    law_marks_tell_changes, law_populate_keeps_order, law_populate_marks, law_remove_keeps_marks,
    law_remove_keeps_order, law_statuses_keep_order, law_statuses_mark, lemma_gone_entries,
    lemma_removed_with,
};
use crate::event_laws::{
    are_apart, are_told, event_path, is_touched, lemma_not_there_yet, lemma_removed_paths,
};
use crate::events::{
    are_events_handled, are_paths_removed, is_event_entry, is_event_handled, is_step, text_of,
    EventOutcome, FsEvent,
};
use crate::history_laws::{
    is_all_read, is_history, is_one_read, law_history_reflects, lemma_all_scanned,
    lemma_all_updated, lemma_batch_begins, to_vec, History, Taken,
};
use crate::ids::nth_number;
use crate::local_snapshot::{
    are_repos_touched, entries_in, is_populated, is_with_entry, is_without_path, same_but_id,
    LocalSnapshot,
};
use crate::local_worktree::is_first_snapshot;
use crate::path::{nested_in, Path};
use crate::path_lemmas::lemma_child_comps;
use crate::path_text::text_behind;
use crate::proto;
use crate::reflect_laws::{
    is_dir_scanned, is_read_from, law_first_scan_begins, outside_of, FsTexts,
};
use crate::scan_laws::{
    agrees, is_pending, lemma_filter_apart, lies_in, lists, FsTree,
};
use crate::scanner::{
    dir_rules, found, is_child_entry, is_root_marked, DirChild, ScanJob,
};
use crate::snapshot::{
    all_timed, entries_by_id, first_unknown, is_updated, kept_of, speaks_of, Snapshot,
};
use crate::statuses::{dir_statuses, fresh_ignores};
use crate::sum_tree::{
    has_key, lemma_filter_sorted, lemma_item_with, lemma_key_index, lemma_same_keys,
};
use crate::update::{
    is_update, law_update_is_accepted, law_update_makes_copy, lemma_entries_by_id, lemma_keyed,
    mirrors, row_of, rows, stamped, update_fits,
};
use std::sync::Arc;
use vstd::prelude::*;

verus! {

/// Whether entries are found by their paths and by their identifiers alike, every identifier that
/// was given comes from a counter that has come to `c`, and no entry is marked with a scan that has
/// not begun.
pub open spec fn is_sound(l: LocalSnapshot, c: int) -> bool {
    &&& is_orderly(l)
    &&& forall|id: usize| #[trigger]
        l.ids_map().contains_key(id) ==> id < c && l.ids_map()[id].scan_id <= l.scan()
    &&& forall|n: u64| #[trigger] l.removed().contains_key(n) ==> l.removed()[n] < c
}

/// Whether the marks that tell what changed since an older snapshot are kept by a change.
spec fn keeps_marks(older: LocalSnapshot, before: LocalSnapshot, after: LocalSnapshot) -> bool {
    older.scan() < before.scan() && is_marked_since(older, before) ==> is_marked_since(older, after)
}

/// Nothing changes where nothing but the numbers of scans does.
proof fn lemma_rescan_sound(older: LocalSnapshot, before: LocalSnapshot, after: LocalSnapshot, c: int)
    requires
        is_sound(before, c),
        after.is_rescanned(before),
        after.scan() >= before.scan(),
    ensures
        is_sound(after, c),
        is_marked_since(older, before) ==> is_marked_since(older, after),
{
    assert(after.paths_map() == before.paths_map());
    assert(after.ids_map() == before.ids_map());
}

/// Taking out everything that lies in a path.
proof fn lemma_removal_sound(
    older: LocalSnapshot,
    before: LocalSnapshot,
    path: Seq<Seq<char>>,
    after: LocalSnapshot,
    c: int,
)
    requires
        before.wf(),
        is_sound(before, c),
        is_without_path(before, path, after),
    ensures
        is_sound(after, c),
        keeps_marks(older, before, after),
        after.scan() == before.scan(),
{
    let s = before.snap().list();
    let gone = entries_in(s, path);
    law_remove_keeps_order(before, path, after);
    if is_marked_since(older, before) {
        law_remove_keeps_marks(older, before, path, after);
    }
    lemma_gone_entries(s, path);
    assert forall|n: u64| #[trigger] after.removed().contains_key(n) implies after.removed()[n] < c by {
        lemma_removed_with(before.removed(), gone, n);
        if !(before.removed().contains_key(n) && before.removed()[n] == after.removed()[n]) {
            let i = choose|i: int|
                #![trigger gone[i]]
                0 <= i < gone.len() && gone[i].inode == n && gone[i].id@ == after.removed()[n];
            let p = gone[i].comps();
            assert(before.paths_map().contains_key(p) && before.paths_map()[p] == gone[i]);
            assert(before.ids_map().contains_key(gone[i].id@));
        }
    }
    assert forall|id: usize| #[trigger] after.ids_map().contains_key(id) implies id < c
        && after.ids_map()[id].scan_id <= after.scan() by {
        assert(before.ids_map().contains_key(id));
    }
}

/// Taking out the paths of events.
proof fn lemma_removed_sound(
    older: LocalSnapshot,
    removed: Seq<LocalSnapshot>,
    root: Seq<Seq<char>>,
    events: Seq<FsEvent>,
    n: int,
    c: int,
)
    requires
        are_paths_removed(removed, root, events),
        is_sound(removed[0], c),
        0 <= n <= events.len(),
    ensures
        is_sound(removed[n], c),
        keeps_marks(older, removed[0], removed[n]),
        removed[n].scan() == removed[0].scan(),
    decreases n,
{
    if n > 0 {
        let k = n - 1;
        lemma_removed_sound(older, removed, root, events, k, c);
        assert(removed[k].wf());
        assert(removed[n] == removed[k + 1]);
        if nested_in(events[k].path.comps(), root) {
            lemma_removal_sound(older, removed[k], event_path(root, events[k]), removed[n], c);
        }
    }
}

/// Putting in what the file system says of the path of an event.
proof fn lemma_event_sound(
    older: LocalSnapshot,
    before: LocalSnapshot,
    root: Seq<Seq<char>>,
    event: FsEvent,
    id: usize,
    outcome: EventOutcome,
    after: LocalSnapshot,
    next_id: usize,
    c: int,
)
    requires
        is_sound(before, c),
        c <= id,
        id <= next_id,
        is_step(before, root, event, id, outcome, after, next_id),
        nested_in(event.path.comps(), root) ==> !before.paths_map().contains_key(
            event_path(root, event),
        ),
    ensures
        is_sound(after, next_id as int),
        keeps_marks(older, before, after),
        after.scan() == before.scan(),
{
    if nested_in(event.path.comps(), root) && event.metadata is Some {
        let q = event_path(root, event);
        let path = choose|path: Arc<Path>|
            {
                &&& path.comps() == event.path.comps().skip(root.len() as int)
                &&& path@ == text_behind(event.path@, root.len() as int)
                &&& #[trigger] is_event_handled(before, path, event, id, outcome, after, next_id)
            };
        let m = event.metadata->0;
        let (e, r, between) = choose|e: Entry, r: Entry, between: LocalSnapshot|
            {
                &&& #[trigger] is_event_entry(e, before, path, m, id)
                &&& #[trigger] is_with_entry(before, e, text_of(event.contents), r, between)
                &&& after.snap() == between.snap()
                &&& after.ignores() == between.ignores()
                &&& after.removed() == between.removed()
                &&& are_repos_touched(
                    between.repos(),
                    path.comps(),
                    before.scan(),
                    outcome.reload,
                    after.repos(),
                )
            };
        assert(e.comps() == q);
        law_insert_keeps_order(before, e, text_of(event.contents), r, between);
        if older.scan() < before.scan() && is_marked_since(older, before) {
            law_insert_marks(older, before, e, text_of(event.contents), r, between);
        }
        assert(after.paths_map() == between.paths_map() && after.ids_map() == between.ids_map());
        assert(next_id == id + 1);
        assert forall|x: usize| #[trigger] after.ids_map().contains_key(x) implies x < next_id
            && after.ids_map()[x].scan_id <= after.scan() by {
            if x == r.id@ {
                if before.removed().contains_key(e.inode) {
                    assert(r.id@ == before.removed()[e.inode]);
                }
            } else {
                assert(before.ids_map().contains_key(x));
            }
        }
    }
}

/// Putting in what the file system says of the paths of events.
proof fn lemma_handled_sound(
    older: LocalSnapshot,
    tree: FsTree,
    root: Seq<Seq<char>>,
    events: Seq<FsEvent>,
    outcomes: Seq<EventOutcome>,
    handled: Seq<LocalSnapshot>,
    ids: Seq<usize>,
    n: int,
    c: int,
)
    requires
        are_told(tree, root, events),
        are_apart(events),
        are_events_handled(handled, ids, root, events, outcomes),
        forall|q: Seq<Seq<char>>| #[trigger]
            handled[0].paths_map().contains_key(q) ==> !is_touched(
                root,
                events,
                events.len() as int,
                q,
            ),
        is_sound(handled[0], c),
        c <= ids[0],
        forall|k: int| #![trigger ids[k]] 0 <= k < events.len() ==> ids[k] <= ids[k + 1],
        0 <= n <= events.len(),
    ensures
        is_sound(handled[n], ids[n] as int),
        keeps_marks(older, handled[0], handled[n]),
        handled[n].scan() == handled[0].scan(),
    decreases n,
{
    if n > 0 {
        let k = n - 1;
        lemma_handled_sound(older, tree, root, events, outcomes, handled, ids, k, c);
        assert(is_step(
            handled[k],
            root,
            events[k],
            ids[k],
            outcomes[k],
            handled[k + 1],
            ids[k + 1],
        ));
        if nested_in(events[k].path.comps(), root) {
            lemma_not_there_yet(tree, root, events, outcomes, handled, ids, k);
        }
        lemma_event_sound(
            older,
            handled[k],
            root,
            events[k],
            ids[k],
            outcomes[k],
            handled[n],
            ids[n],
            ids[k] as int,
        );
    }
}

/// The numbers that a counter gives, where it does not come round.
proof fn lemma_numbers_follow(first: usize, k: nat)
    requires
        first + k <= usize::MAX,
    ensures
        nth_number(first, k) == first + k,
    decreases k,
{
    if k > 0 {
        lemma_numbers_follow(first, (k - 1) as nat);
    }
}

/// What is read in a directory comes with identifiers, and to paths, of its own.
proof fn lemma_new_entries(
    tree: FsTree,
    before: LocalSnapshot,
    jobs: Seq<ScanJob>,
    k: int,
    children: Seq<DirChild>,
    first: usize,
    es: Seq<Entry>,
    repo: Option<u64>,
    new_jobs: Seq<ScanJob>,
    after: LocalSnapshot,
    c: int,
)
    requires
        is_sound(before, c),
        c <= first,
        first + es.len() <= usize::MAX,
        0 <= k < jobs.len(),
        is_pending(before.paths_map(), tree, jobs[k]),
        lists(tree, jobs[k].path.comps(), children),
        is_dir_scanned(before, jobs, k, children, first, es, repo, new_jobs, after),
    ensures
        are_new_entries(before, es),
        forall|i: int| #![trigger es[i]] 0 <= i < es.len() ==> es[i].id@ == first + i,
{
    let job = jobs[k];
    let dir = job.path.comps();
    let rules = dir_rules(job.ignore_stack@, job.abs_path@, children);
    let cs = found(children);
    let seen = |c: DirChild| c.metadata is Some;
    lemma_filter_apart(children, seen);
    assert forall|i: int| #![trigger es[i]] 0 <= i < es.len() implies {
        &&& es[i].id@ == first + i
        &&& es[i].comps() == dir.push(cs[i].name@)
        &&& !before.paths_map().contains_key(es[i].comps())
    } by {
        assert(is_child_entry(es[i], job, rules, cs[i], before.snap().root_chars()));
        lemma_numbers_follow(first, i as nat);
        let x = choose|x: int| 0 <= x < children.len() && children[x] == cs[i];
        assert(crate::path::is_file_name(children[x].name@));
        lemma_child_comps(job.path@, cs[i].name@);
        let p = es[i].comps();
        assert(lies_in(p, dir)) by {
            assert(dir =~= p.subrange(0, dir.len() as int));
        }
    }
    assert forall|i: int, j: int| #![trigger es[i], es[j]] 0 <= i < j < es.len() implies es[i].comps()
        != es[j].comps() && es[i].id@ != es[j].id@ by {
        assert(cs[i].name@ != cs[j].name@);
        assert(dir.push(cs[i].name@).last() == cs[i].name@);
        assert(dir.push(cs[j].name@).last() == cs[j].name@);
    }
}

/// Reading a directory.
proof fn lemma_read_sound(
    older: LocalSnapshot,
    tree: FsTree,
    before: LocalSnapshot,
    jobs: Seq<ScanJob>,
    k: int,
    children: Seq<DirChild>,
    first: usize,
    es: Seq<Entry>,
    repo: Option<u64>,
    new_jobs: Seq<ScanJob>,
    after: LocalSnapshot,
    c: int,
)
    requires
        is_sound(before, c),
        c <= first,
        first + es.len() <= usize::MAX,
        0 <= k < jobs.len(),
        is_pending(before.paths_map(), tree, jobs[k]),
        lists(tree, jobs[k].path.comps(), children),
        is_dir_scanned(before, jobs, k, children, first, es, repo, new_jobs, after),
    ensures
        is_sound(after, first + es.len()),
        keeps_marks(older, before, after),
        after.scan() == before.scan(),
{
    let dir = jobs[k].path.comps();
    let rs = choose|rs: Seq<Entry>| #[trigger] is_populated(before, dir, es, rs, after);
    lemma_new_entries(tree, before, jobs, k, children, first, es, repo, new_jobs, after, c);
    law_populate_keeps_order(before, dir, es, rs, after);
    if older.scan() < before.scan() && is_marked_since(older, before) {
        law_populate_marks(older, before, dir, es, rs, after);
    }
    assert forall|id: usize| #[trigger] after.ids_map().contains_key(id) implies id < first
        + es.len() && after.ids_map()[id].scan_id <= after.scan() by {
        lemma_entries_by_id(rs, before.scan(), id);
        if entries_by_id(rs, before.scan()).contains_key(id) {
            let i = choose|i: int|
                #![trigger rs[i]]
                0 <= i < rs.len() && rs[i].id@ == id && entries_by_id(rs, before.scan())[id]
                    == kept_of(rs[i], before.scan());
            assert(same_but_id(rs[i], es[i]));
            assert(es[i].id@ == first + i);
            if before.removed().contains_key(es[i].inode) {
                assert(before.removed()[es[i].inode] < c);
            }
            if before.paths_map().contains_key(es[i].comps()) {
                let x = before.paths_map()[es[i].comps()];
                assert(before.ids_map().contains_key(x.id@));
            }
        } else {
            assert(before.ids_map().contains_key(id));
        }
    }
    assert forall|n: u64| #[trigger] after.removed().contains_key(n) implies after.removed()[n]
        < first + es.len() by {
        assert(before.removed().contains_key(n));
    }
}

/// Whether identifiers were taken one after the other, from a counter that went from one number to
/// another and did not come round.
pub open spec fn is_counted(taken: Seq<Taken>, from: int, to: int) -> bool {
    &&& from <= to
    &&& forall|i: int|
        #![trigger taken[i]]
        0 <= i < taken.len() ==> from <= taken[i].0 && taken[i].0 + taken[i].1 <= to
    &&& forall|i: int, j: int|
        #![trigger taken[i], taken[j]]
        0 <= i < j < taken.len() ==> taken[i].0 + taken[i].1 <= taken[j].0
}

/// Reading directories.
proof fn lemma_all_sound(
    older: LocalSnapshot,
    tree: FsTree,
    texts: FsTexts,
    states: Seq<LocalSnapshot>,
    queues: Seq<Seq<ScanJob>>,
    taken: Seq<Taken>,
    n: int,
    from: int,
    to: int,
)
    requires
        is_all_read(tree, texts, states, queues, taken),
        forall|i: int|
            #![trigger states[i]]
            0 <= i < states.len() ==> agrees(states[i].paths_map(), tree, queues[i]),
        is_counted(taken, from, to),
        to <= usize::MAX,
        is_sound(states[0], from),
        0 <= n < states.len(),
    ensures
        is_sound(
            states[n],
            if n == 0 {
                from
            } else {
                taken[n - 1].0 + taken[n - 1].1
            },
        ),
        keeps_marks(older, states[0], states[n]),
        states[n].scan() == states[0].scan(),
    decreases n,
{
    if n > 0 {
        let i = n - 1;
        lemma_all_sound(older, tree, texts, states, queues, taken, i, from, to);
        assert(is_one_read(
            tree,
            texts,
            states[i],
            queues[i],
            taken[i],
            states[i + 1],
            queues[i + 1],
        ));
        let first: usize = taken[i].0;
        let (k, children, es, repo, new_jobs) = choose|
            k: int,
            children: Seq<DirChild>,
            es: Seq<Entry>,
            repo: Option<u64>,
            new_jobs: Seq<ScanJob>,
        |
            {
                &&& #[trigger] is_dir_scanned(
                    states[i],
                    queues[i],
                    k,
                    children,
                    first,
                    es,
                    repo,
                    new_jobs,
                    states[i + 1],
                )
                &&& es.len() == taken[i].1
                &&& is_read_from(tree, texts, queues[i][k].path.comps(), children)
                &&& queues[i + 1] == queues[i].remove(k) + new_jobs
            };
        let c = if i == 0 {
            from
        } else {
            taken[i - 1].0 + taken[i - 1].1
        };
        assert(agrees(states[i].paths_map(), tree, queues[i]));
        assert(is_pending(states[i].paths_map(), tree, queues[i][k]));
        lemma_read_sound(
            older,
            tree,
            states[i],
            queues[i],
            k,
            children,
            first,
            es,
            repo,
            new_jobs,
            states[n],
            c,
        );
    }
}

/// Whether the identifiers that a worktree gives come from a counter that does not come round.
/// `counters` holds what the counter has come to after the first scan, and after each batch.
pub open spec fn takes_new_ids(h: History, counters: Seq<usize>) -> bool {
    &&& counters.len() == h.snapshots.len()
    &&& is_counted(h.scan.taken, h.scan.entry_id + 1, counters[0] as int)
    &&& forall|i: int|
        #![trigger h.batches[i]]
        0 <= i < h.batches.len() ==> {
            let b = h.batches[i];
            &&& counters[i] <= b.id
            &&& forall|k: int| #![trigger b.ids[k]] 0 <= k < b.events.len() ==> b.ids[k] <= b.ids[k + 1]
            &&& is_counted(b.taken, b.next_id as int, counters[i + 1] as int)
        }
}

/// The first scan.
proof fn lemma_scan_sound(h: History, counters: Seq<usize>)
    requires
        is_history(h),
        takes_new_ids(h, counters),
    ensures
        is_sound(h.snapshots[0], counters[0] as int),
{
    let scan = h.scan;
    let first = scan.first;
    let begun = scan.states[0];
    let tree = h.trees[0];
    let texts = h.texts[0];
    let top = Seq::<Seq<char>>::empty();
    let outside = outside_of(first.root_text(), scan.above);
    let from = scan.entry_id + 1;
    let paths = first.paths_map();
    let (id, path) = choose|id: usize, path: Arc<Path>| #[trigger]
        is_first_snapshot(first, id, path, Some(scan.metadata), scan.entry_id);
    crate::traversal::lemma_components_empty();
    assert(paths.contains_key(top) && paths[top].id@ == scan.entry_id);
    assert(paths[top].comps() == top);
    assert(is_sound(first, from)) by {
        assert forall|p: Seq<Seq<char>>| #[trigger] paths.contains_key(p) implies first.ids_map().contains_key(
            paths[p].id@,
        ) && speaks_of(first.ids_map()[paths[p].id@], paths[p]) by {
            assert(p == top);
        }
    }
    assert(is_sound(begun, from)) by {
        lemma_root_sound(first, begun, from);
    }
    law_first_scan_begins(tree, texts, first, scan.above, scan.job, begun);
    assert forall|i: int| #![trigger scan.states[i]] 0 <= i < scan.states.len() implies agrees(
        scan.states[i].paths_map(),
        tree,
        scan.queues[i],
    ) by {
        lemma_all_scanned(tree, texts, outside, scan.states, scan.queues, scan.taken, i);
    }
    let last = scan.states.len() - 1;
    lemma_all_sound(
        first,
        tree,
        texts,
        scan.states,
        scan.queues,
        scan.taken,
        last,
        from,
        counters[0] as int,
    );
    assert(scan.states[last] == scan.states.last());
    let c = if last == 0 {
        from
    } else {
        scan.taken[last - 1].0 + scan.taken[last - 1].1
    };
    lemma_rescan_sound(first, scan.states.last(), h.snapshots[0], c);
}

/// Finding whether the root is ignored.
proof fn lemma_root_sound(first: LocalSnapshot, begun: LocalSnapshot, c: int)
    requires
        is_sound(first, c),
        first.removed() == crate::local_snapshot::Removed::empty(),
        first.paths_map().contains_key(Seq::empty()),
        first.paths_map()[Seq::empty()].comps() == Seq::<Seq<char>>::empty(),
        begun.scan() >= first.scan(),
        is_root_marked(first, begun),
    ensures
        is_sound(begun, c),
{
    let top = Seq::<Seq<char>>::empty();
    let paths = first.paths_map();
    let ids = first.ids_map();
    let np = begun.paths_map();
    let ni = begun.ids_map();
    let id = paths[top].id@;
    lemma_keyed(first.snap().list());
    assert(ids.contains_key(id) && speaks_of(ids[id], paths[top]));
    if np != paths || ni != ids {
        let r = np[top];
        assert(r.id@ == id);
        assert(r.comps() == top);
        assert forall|p: Seq<Seq<char>>| #[trigger] np.contains_key(p) implies ni.contains_key(
            np[p].id@,
        ) && speaks_of(ni[np[p].id@], np[p]) by {
            if p != top {
                assert(paths.contains_key(p));
                assert(speaks_of(ids[paths[p].id@], paths[p]));
                assert(paths[p].comps() == p);
            }
        }
        assert forall|x: usize| #[trigger] ni.contains_key(x) implies np.contains_key(
            ni[x].path.comps(),
        ) && np[ni[x].path.comps()].id@ == x by {
            if x != id {
                assert(ids.contains_key(x));
            }
        }
    }
}

/// A batch of events.
proof fn lemma_batch_sound(h: History, counters: Seq<usize>, i: int, older: LocalSnapshot)
    requires
        is_history(h),
        takes_new_ids(h, counters),
        0 <= i < h.batches.len(),
        is_sound(h.snapshots[i], counters[i] as int),
        older.scan() <= h.snapshots[i].scan(),
        is_marked_since(older, h.snapshots[i]),
    ensures
        is_sound(h.snapshots[i + 1], counters[i + 1] as int),
        is_marked_since(older, h.snapshots[i + 1]),
        h.snapshots[i + 1].scan() == h.snapshots[i].scan() + 1,
{
    let b = h.batches[i];
    let before = h.snapshots[i];
    let after = h.snapshots[i + 1];
    let tree = h.trees[i + 1];
    let texts = h.texts[i + 1];
    let outside = outside_of(h.scan.first.root_text(), h.scan.above);
    let n = b.events.len() as int;
    let c = counters[i] as int;
    law_history_reflects(h, i);
    lemma_rescan_sound(older, before, b.started, c);
    lemma_removed_sound(older, b.removed, h.root, b.events, n, c);
    assert(b.removed[n] == b.removed.last());
    assert forall|q: Seq<Seq<char>>| #[trigger]
        b.handled[0].paths_map().contains_key(q) implies !is_touched(h.root, b.events, n, q) by {
        lemma_removed_paths(b.removed, h.root, b.events, n, q);
    }
    lemma_handled_sound(older, tree, h.root, b.events, b.outcomes, b.handled, b.ids, n, c);
    assert(b.handled[n] == b.handled.last());
    lemma_batch_begins(
        b,
        h.root,
        h.trees[i],
        h.texts[i],
        tree,
        texts,
        outside,
        before,
    );
    assert forall|j: int| #![trigger b.states[j]] 0 <= j < b.states.len() implies agrees(
        b.states[j].paths_map(),
        tree,
        b.queues[j],
    ) by {
        lemma_all_updated(tree, texts, outside, b.states, b.queues, b.taken, j);
    }
    let last = b.states.len() - 1;
    let to = counters[i + 1] as int;
    let from = b.next_id as int;
    assert(b.ids[n] == b.ids.last());
    lemma_all_sound(older, tree, texts, b.states, b.queues, b.taken, last, from, to);
    assert(b.states[last] == b.states.last());
    let read = b.states.last();
    let statuses = dir_statuses(read, fresh_ignores(read), b.dirs, b.dirs.len() as int);
    law_statuses_keep_order(read, statuses, after);
    law_statuses_mark(older, read, statuses, after);
    assert forall|id: usize| #[trigger] after.ids_map().contains_key(id) implies id < to
        && after.ids_map()[id].scan_id <= after.scan() by {
        assert(read.ids_map().contains_key(id));
    }
}

/// After the first scan, and after each batch of events, entries are in order, and what changed
/// since an earlier one of these times is marked.
proof fn lemma_history_sound(h: History, counters: Seq<usize>, i: int, j: int)
    requires
        is_history(h),
        takes_new_ids(h, counters),
        0 <= i <= j < h.snapshots.len(),
    ensures
        is_sound(h.snapshots[i], counters[i] as int),
        is_sound(h.snapshots[j], counters[j] as int),
        is_marked_since(h.snapshots[i], h.snapshots[j]),
        h.snapshots[i].scan() <= h.snapshots[j].scan(),
    decreases j,
{
    if j == 0 {
        lemma_scan_sound(h, counters);
    } else if i < j {
        lemma_history_sound(h, counters, i, j - 1);
        lemma_batch_sound(h, counters, j - 1, h.snapshots[i]);
    } else {
        lemma_history_sound(h, counters, j - 1, j - 1);
        lemma_batch_sound(h, counters, j - 1, h.snapshots[j - 1]);
    }
}

/// After the first scan, and after each batch of events, every entry is found by its path and by
/// its identifier alike; and an entry that the snapshots of two of these times keep from one scan
/// is the same in both. This holds as long as the counter of identifiers does not come round.
pub proof fn law_history_is_stamped(h: History, counters: Seq<usize>, i: int, j: int)
    requires
        is_history(h),
        takes_new_ids(h, counters),
        0 <= i <= j < h.snapshots.len(),
    ensures
        h.snapshots[i].snap().is_consistent(),
        h.snapshots[j].snap().is_consistent(),
        stamped(
            h.snapshots[j].paths_map(),
            h.snapshots[j].ids_map(),
            h.snapshots[i].paths_map(),
            h.snapshots[i].ids_map(),
        ),
        h.snapshots[i].scan() <= h.snapshots[j].scan(),
{
    lemma_history_sound(h, counters, i, j);
    law_marks_tell_changes(h.snapshots[i], h.snapshots[j]);
}

/// The entries of a list, less the ignored ones where they are left out.
pub open spec fn shown(s: Seq<Entry>, include_ignored: bool) -> Seq<Entry> {
    s.filter(|e: Entry| include_ignored || !e.is_ignored)
}

/// Updates bring a copy up to date: the update from an earlier snapshot of a worktree to a later one,
/// applied to a copy of the earlier, is accepted, and makes it a copy of the later, that lists the
/// same paths, with the same inodes and statuses. The ignored entries may be left out on both sides.
/// This holds as long as the counter of identifiers does not come round.
pub proof fn law_history_updates_copies(
    h: History,
    counters: Seq<usize>,
    i: int,
    j: int,
    include_ignored: bool,
    update: proto::UpdateWorktree,
    copy: Snapshot,
    es: Seq<Entry>,
    after: Snapshot,
)
    requires
        is_history(h),
        takes_new_ids(h, counters),
        0 <= i <= j < h.snapshots.len(),
        is_update(h.snapshots[j], h.snapshots[i], include_ignored, update),
        mirrors(copy, h.snapshots[i].snap(), include_ignored),
        is_updated(copy, update, es, after),
        after.wf(),
    ensures
        first_unknown(copy.paths_map(), copy.ids_map(), update.removed_entries@) is None,
        all_timed(update.updated_entries@),
        mirrors(after, h.snapshots[j].snap(), include_ignored),
        to_vec(after.list()) == to_vec(shown(h.snapshots[j].snap().list(), include_ignored)),
{
    let older = h.snapshots[i];
    let newer = h.snapshots[j];
    law_history_reflects(h, i);
    law_history_reflects(h, j);
    law_history_is_stamped(h, counters, i, j);
    assert(update_fits(newer, older, include_ignored, update, copy));
    law_update_is_accepted(newer, older, include_ignored, update, copy);
    law_update_makes_copy(newer, older, include_ignored, update, copy, es, after);
    lemma_mirrored_list(after, newer.snap(), include_ignored);
}

/// A copy lists what its source does.
proof fn lemma_mirrored_list(copy: Snapshot, source: Snapshot, include_ignored: bool)
    requires
        source.wf(),
        mirrors(copy, source, include_ignored),
    ensures
        to_vec(copy.list()) == to_vec(shown(source.list(), include_ignored)),
{
    let s = copy.list();
    let all = source.list();
    let keep = |e: Entry| include_ignored || !e.is_ignored;
    let t = shown(all, include_ignored);
    let mine = rows(copy.paths_map(), true);
    let theirs = rows(source.paths_map(), include_ignored);
    lemma_filter_sorted(all, keep);
    assert forall|k: int| #![trigger t[k]] 0 <= k < t.len() implies {
        &&& theirs.contains_key(t[k].comps())
        &&& theirs[t[k].comps()] == row_of(t[k])
    } by {
        assert(keep(t[k]));
        let x = choose|x: int| 0 <= x < all.len() && all[x] == t[k];
        lemma_item_with(all, x);
        assert(source.paths_map()[t[k].comps()] == t[k]);
    }
    assert forall|k: int| #![trigger s[k]] 0 <= k < s.len() implies {
        &&& mine.contains_key(s[k].comps())
        &&& mine[s[k].comps()] == row_of(s[k])
    } by {
        lemma_item_with(s, k);
    }
    assert forall|p: Seq<Seq<char>>| #![trigger has_key(s, p)] #![trigger has_key(t, p)] has_key(
        s,
        p,
    ) <==> has_key(t, p) by {
        if has_key(s, p) {
            let k = lemma_key_index(s, p);
            assert(theirs.contains_key(p));
            let x = lemma_key_index(all, p);
            lemma_item_with(all, x);
            assert(all.contains(all[x]) && keep(all[x]));
            let y = choose|y: int| 0 <= y < t.len() && t[y] == all[x];
            assert(t[y].comps() == p);
        }
        if has_key(t, p) {
            let k = lemma_key_index(t, p);
            assert(mine.contains_key(p));
            assert(copy.paths_map().dom().contains(p));
        }
    }
    lemma_same_keys(s, t);
    assert forall|k: int| 0 <= k < s.len() implies to_vec(s)[k] == to_vec(t)[k] by {
        assert(s[k].comps() == t[k].comps());
        assert(mine[s[k].comps()] == row_of(s[k]));
        assert(theirs[t[k].comps()] == row_of(t[k]));
        assert(row_of(s[k]).inode == s[k].inode && row_of(t[k]).inode == t[k].inode);
        assert(row_of(s[k]).is_ignored == s[k].is_ignored);
        assert(row_of(t[k]).is_ignored == t[k].is_ignored);
    }
    assert(to_vec(s) =~= to_vec(t));
}

} // verus!
