//! What the handling of events finds: entries that agreed with the file system agree with it again
//! after it has changed.
use crate::entry::Entry;
use crate::events::{
    are_events_applied, are_events_handled, are_paths_removed, is_event_entry, is_event_handled,
    is_step, text_of, EventOutcome, FsEvent,
};
use crate::ignore_stack::gitignore_name;
use crate::local_snapshot::{
    ancestor_inodes, are_repos_touched, is_with_entry, LocalSnapshot,
};
use crate::path::{nested_in, Path};
use crate::path_lemmas::lemma_nested_transitive;
use crate::path_text::text_behind;
use crate::scan_laws::{
    agrees, inodes_to, is_awaited, is_entered, is_fs_tree, is_in_dir, is_pending, is_reachable,
    is_unchanged, lemma_above, lemma_entered_above, lemma_entered_child, lemma_inodes_to_child,
    lemma_lies_in_child, lies_in, tells, FsTree,
};
use crate::scanner::ScanJob;
use crate::snapshot::ByPath;
use crate::statuses::{fresh_ignores, is_stale_dir, relative, restated, Statuses};
use std::sync::Arc;
use vstd::prelude::*;

verus! {

/// The path of an event, relative to the root of the worktree.
pub open spec fn event_path(root: Seq<Seq<char>>, event: FsEvent) -> Seq<Seq<char>> {
    event.path.comps().skip(root.len() as int)
}

/// Whether a path lies in that of one of the first `n` events.
pub open spec fn is_touched(root: Seq<Seq<char>>, events: Seq<FsEvent>, n: int, p: Seq<Seq<char>>) -> bool {
    exists|i: int|
        #![trigger events[i]]
        0 <= i < n && nested_in(events[i].path.comps(), root) && nested_in(
            p,
            event_path(root, events[i]),
        )
}

/// Whether events tell what the file system says of their paths.
pub open spec fn are_told(tree: FsTree, root: Seq<Seq<char>>, events: Seq<FsEvent>) -> bool {
    forall|i: int|
        #![trigger events[i]]
        0 <= i < events.len() && nested_in(events[i].path.comps(), root) ==> {
            let p = event_path(root, events[i]);
            &&& events[i].metadata is Some <==> tree.contains_key(p)
            &&& events[i].metadata matches Some(m) ==> m == tree[p]
        }
}

/// Whether a scan comes to the paths of events that are there.
pub open spec fn are_in_reach(tree: FsTree, root: Seq<Seq<char>>, events: Seq<FsEvent>) -> bool {
    forall|i: int|
        #![trigger events[i]]
        0 <= i < events.len() && nested_in(events[i].path.comps(), root) && tree.contains_key(
            event_path(root, events[i]),
        ) ==> is_reachable(tree, event_path(root, events[i]))
}

/// Whether no event lies in the path of another one.
pub open spec fn are_apart(events: Seq<FsEvent>) -> bool {
    forall|i: int, j: int|
        #![trigger events[i], events[j]]
        0 <= i < events.len() && 0 <= j < events.len() && i != j ==> !nested_in(
            events[i].path.comps(),
            events[j].path.comps(),
        )
}

/// Whether two file systems differ in the paths of events only.
pub open spec fn differ_at(
    old_tree: FsTree,
    tree: FsTree,
    root: Seq<Seq<char>>,
    events: Seq<FsEvent>,
) -> bool {
    forall|p: Seq<Seq<char>>|
        #![trigger tree.contains_key(p)]
        #![trigger old_tree.contains_key(p)]
        !is_touched(root, events, events.len() as int, p) ==> {
            &&& old_tree.contains_key(p) <==> tree.contains_key(p)
            &&& old_tree.contains_key(p) ==> is_unchanged(old_tree[p], tree[p])
        }
}

/// The directories that are left to be read after events.
pub open spec fn jobs_of(outcomes: Seq<EventOutcome>) -> Seq<ScanJob>
    decreases outcomes.len(),
{
    if outcomes.len() == 0 {
        Seq::empty()
    } else {
        match outcomes.last().job {
            Some(job) => jobs_of(outcomes.drop_last()).push(job),
            None => jobs_of(outcomes.drop_last()),
        }
    }
}

/// Where the jobs of outcomes stand among them.
pub proof fn lemma_jobs_of(outcomes: Seq<EventOutcome>) -> (at: Seq<int>)
    ensures
        at.len() == jobs_of(outcomes).len(),
        forall|i: int|
            #![trigger at[i]]
            0 <= i < at.len() ==> 0 <= at[i] < outcomes.len() && outcomes[at[i]].job == Some(
                jobs_of(outcomes)[i],
            ),
        forall|i: int, j: int| #![trigger at[i], at[j]] 0 <= i < j < at.len() ==> at[i] < at[j],
        forall|k: int|
            #![trigger outcomes[k]]
            0 <= k < outcomes.len() && outcomes[k].job is Some ==> exists|i: int|
                #![trigger at[i]]
                0 <= i < at.len() && at[i] == k,
    decreases outcomes.len(),
{
    if outcomes.len() == 0 {
        Seq::empty()
    } else {
        let before = outcomes.drop_last();
        let n = outcomes.len() - 1;
        let at = lemma_jobs_of(before);
        let r = match outcomes.last().job {
            Some(_) => at.push(n),
            None => at,
        };
        assert forall|i: int| #![trigger r[i]] 0 <= i < r.len() implies 0 <= r[i] < outcomes.len()
            && outcomes[r[i]].job == Some(jobs_of(outcomes)[i]) by {
            if i < at.len() {
                assert(r[i] == at[i]);
                assert(before[at[i]] == outcomes[at[i]]);
            }
        }
        assert forall|i: int, j: int| #![trigger r[i], r[j]] 0 <= i < j < r.len() implies r[i] < r[j] by {
            assert(r[i] == at[i]);
            if j < at.len() {
                assert(r[j] == at[j]);
            }
        }
        assert forall|k: int|
            #![trigger outcomes[k]]
            0 <= k < outcomes.len() && outcomes[k].job is Some implies exists|i: int|
            #![trigger r[i]]
            0 <= i < r.len() && r[i] == k by {
            if k < n {
                assert(before[k] == outcomes[k]);
                let i = choose|i: int| #![trigger at[i]] 0 <= i < at.len() && at[i] == k;
                assert(r[i] == k);
            } else {
                assert(r[at.len() as int] == k);
            }
        }
        r
    }
}

/// What lies in a path of the worktree lies in it when seen from the root, and only then.
proof fn lemma_nested_from_root(a: Seq<Seq<char>>, b: Seq<Seq<char>>, root: Seq<Seq<char>>)
    requires
        nested_in(a, root),
        nested_in(b, root),
        nested_in(a.skip(root.len() as int), b.skip(root.len() as int)),
    ensures
        nested_in(a, b),
{
    let n = root.len() as int;
    let x = a.skip(n);
    let y = b.skip(n);
    assert(y =~= x.subrange(0, y.len() as int));
    assert(b =~= a.subrange(0, b.len() as int)) by {
        assert forall|i: int| 0 <= i < b.len() implies b[i] == a.subrange(0, b.len() as int)[i] by {
            if i < n {
                assert(a.subrange(0, n)[i] == root[i]);
                assert(b.subrange(0, n)[i] == root[i]);
            } else {
                assert(b[i] == y[i - n]);
                assert(x.subrange(0, y.len() as int)[i - n] == x[i - n]);
            }
        }
    }
}

/// The paths of two events lie apart.
pub proof fn lemma_event_paths_apart(root: Seq<Seq<char>>, events: Seq<FsEvent>, i: int, j: int)
    requires
        are_apart(events),
        0 <= i < events.len(),
        0 <= j < events.len(),
        i != j,
        nested_in(events[i].path.comps(), root),
        nested_in(events[j].path.comps(), root),
    ensures
        !nested_in(event_path(root, events[i]), event_path(root, events[j])),
{
    if nested_in(event_path(root, events[i]), event_path(root, events[j])) {
        lemma_nested_from_root(events[i].path.comps(), events[j].path.comps(), root);
    }
}

/// What is left once the paths of some events are taken out.
pub proof fn lemma_removed_paths(
    removed: Seq<LocalSnapshot>,
    root: Seq<Seq<char>>,
    events: Seq<FsEvent>,
    n: int,
    p: Seq<Seq<char>>,
)
    requires
        are_paths_removed(removed, root, events),
        0 <= n <= events.len(),
    ensures
        removed[n].paths_map().contains_key(p) <==> removed[0].paths_map().contains_key(p)
            && !is_touched(root, events, n, p),
        removed[n].paths_map().contains_key(p) ==> removed[n].paths_map()[p]
            == removed[0].paths_map()[p],
    decreases n,
{
    if n > 0 {
        let k = n - 1;
        lemma_removed_paths(removed, root, events, k, p);
        let q = event_path(root, events[k]);
        assert(is_touched(root, events, n, p) <==> is_touched(root, events, k, p) || (nested_in(
            events[k].path.comps(),
            root,
        ) && nested_in(p, q))) by {
            if is_touched(root, events, n, p) {
                let i = choose|i: int|
                    #![trigger events[i]]
                    0 <= i < n && nested_in(events[i].path.comps(), root) && nested_in(
                        p,
                        event_path(root, events[i]),
                    );
                assert(i == k || 0 <= i < k);
            }
            if is_touched(root, events, k, p) {
                let i = choose|i: int|
                    #![trigger events[i]]
                    0 <= i < k && nested_in(events[i].path.comps(), root) && nested_in(
                        p,
                        event_path(root, events[i]),
                    );
                assert(0 <= i < n);
            }
        }
        assert(removed[n] == removed[k + 1]);
    }
}

/// What the handling of an event puts in.
proof fn lemma_event_step(
    before: LocalSnapshot,
    root: Seq<Seq<char>>,
    event: FsEvent,
    id: usize,
    outcome: EventOutcome,
    after: LocalSnapshot,
    next_id: usize,
)
    requires
        is_step(before, root, event, id, outcome, after, next_id),
        nested_in(event.path.comps(), root),
        !before.paths_map().contains_key(event_path(root, event)),
    ensures
        ({
            let p = event_path(root, event);
            let np = after.paths_map();
            match event.metadata {
                Some(m) => {
                    &&& np == before.paths_map().insert(p, np[p])
                    &&& tells(np[p], m)
                    &&& m.is_dir ==> np[p].kind is PendingDir
                    &&& outcome.job is Some <==> m.is_dir && !ancestor_inodes(np, p).contains(
                        m.inode,
                    )
                    &&& outcome.job matches Some(job) ==> job.path.comps() == p
                        && job.ancestor_inodes@ == ancestor_inodes(np, p).insert(m.inode)
                },
                None => np == before.paths_map() && outcome.job is None,
            }
        }),
{
    let p = event_path(root, event);
    let path = choose|path: Arc<Path>|
        {
            &&& path.comps() == event.path.comps().skip(root.len() as int)
            &&& path@ == text_behind(event.path@, root.len() as int)
            &&& #[trigger] is_event_handled(before, path, event, id, outcome, after, next_id)
        };
    if event.metadata is Some {
        let m = event.metadata->0;
        let (e, r, between) = choose|e: Entry, r: Entry, between: LocalSnapshot|
            {
                &&& #[trigger] is_event_entry(e, before, path, m, id)
                &&& #[trigger] is_with_entry(before, e, text_of(event.contents), r, between)
                &&& after.snap() == between.snap()
                &&& after.ignores() == between.ignores()
                &&& after.removed() == between.removed()
                &&& are_repos_touched(
                    between.repos(),
                    path.comps(),
                    before.scan(),
                    outcome.reload,
                    after.repos(),
                )
            };
        assert(e.comps() == p);
        assert(r.comps() == p);
        assert(after.paths_map() == between.paths_map());
        assert(after.paths_map()[p] == r);
    }
}

/// Whether a path is that of one of the first `n` events, and there.
pub open spec fn is_put(
    tree: FsTree,
    root: Seq<Seq<char>>,
    events: Seq<FsEvent>,
    n: int,
    p: Seq<Seq<char>>,
) -> bool {
    tree.contains_key(p) && exists|i: int|
        #![trigger events[i]]
        0 <= i < n && nested_in(events[i].path.comps(), root) && p == event_path(root, events[i])
}

/// What is there once some events are handled.
pub proof fn lemma_handled_paths(
    tree: FsTree,
    root: Seq<Seq<char>>,
    events: Seq<FsEvent>,
    outcomes: Seq<EventOutcome>,
    handled: Seq<LocalSnapshot>,
    ids: Seq<usize>,
    n: int,
    p: Seq<Seq<char>>,
)
    requires
        are_told(tree, root, events),
        are_apart(events),
        are_events_handled(handled, ids, root, events, outcomes),
        forall|q: Seq<Seq<char>>| #[trigger]
            handled[0].paths_map().contains_key(q) ==> !is_touched(
                root,
                events,
                events.len() as int,
                q,
            ),
        0 <= n <= events.len(),
    ensures
        handled[n].paths_map().contains_key(p) <==> handled[0].paths_map().contains_key(p)
            || is_put(tree, root, events, n, p),
        handled[0].paths_map().contains_key(p) ==> handled[n].paths_map()[p]
            == handled[0].paths_map()[p],
        is_put(tree, root, events, n, p) ==> tells(handled[n].paths_map()[p], tree[p]) && (
        tree[p].is_dir ==> handled[n].paths_map()[p].kind is PendingDir),
    decreases n, 0int,
{
    if n > 0 {
        let k = n - 1;
        let q = event_path(root, events[k]);
        lemma_handled_paths(tree, root, events, outcomes, handled, ids, k, p);
        assert(is_step(
            handled[k],
            root,
            events[k],
            ids[k],
            outcomes[k],
            handled[k + 1],
            ids[k + 1],
        ));
        lemma_put_more(tree, root, events, k, p);
        if nested_in(events[k].path.comps(), root) {
            lemma_not_there_yet(tree, root, events, outcomes, handled, ids, k);
            lemma_event_step(
                handled[k],
                root,
                events[k],
                ids[k],
                outcomes[k],
                handled[k + 1],
                ids[k + 1],
            );
            assert(nested_in(q, q)) by {
                assert(q =~= q.subrange(0, q.len() as int));
            }
            assert(is_touched(root, events, events.len() as int, q)) by {
                assert(0 <= k < events.len());
            }
            if p == q && is_put(tree, root, events, k, p) {
                let i = choose|i: int|
                    #![trigger events[i]]
                    0 <= i < k && nested_in(events[i].path.comps(), root) && p == event_path(
                        root,
                        events[i],
                    );
                lemma_event_paths_apart(root, events, i, k);
            }
        }
    }
}

/// The path of an event is not there before it is handled.
pub proof fn lemma_not_there_yet(
    tree: FsTree,
    root: Seq<Seq<char>>,
    events: Seq<FsEvent>,
    outcomes: Seq<EventOutcome>,
    handled: Seq<LocalSnapshot>,
    ids: Seq<usize>,
    k: int,
)
    requires
        are_told(tree, root, events),
        are_apart(events),
        are_events_handled(handled, ids, root, events, outcomes),
        forall|q: Seq<Seq<char>>| #[trigger]
            handled[0].paths_map().contains_key(q) ==> !is_touched(
                root,
                events,
                events.len() as int,
                q,
            ),
        0 <= k < events.len(),
        nested_in(events[k].path.comps(), root),
    ensures
        !handled[k].paths_map().contains_key(event_path(root, events[k])),
    decreases k, 1int,
{
    let q = event_path(root, events[k]);
    assert(nested_in(q, q)) by {
        assert(q =~= q.subrange(0, q.len() as int));
    }
    lemma_handled_paths(tree, root, events, outcomes, handled, ids, k, q);
    assert(is_touched(root, events, events.len() as int, q));
    if is_put(tree, root, events, k, q) {
        let i = choose|i: int|
            #![trigger events[i]]
            0 <= i < k && nested_in(events[i].path.comps(), root) && q == event_path(
                root,
                events[i],
            );
        lemma_event_paths_apart(root, events, i, k);
    }
}

/// What one more event puts in.
proof fn lemma_put_more(
    tree: FsTree,
    root: Seq<Seq<char>>,
    events: Seq<FsEvent>,
    k: int,
    p: Seq<Seq<char>>,
)
    requires
        0 <= k < events.len(),
    ensures
        is_put(tree, root, events, k + 1, p) <==> is_put(tree, root, events, k, p) || (
        tree.contains_key(p) && nested_in(events[k].path.comps(), root) && p == event_path(
            root,
            events[k],
        )),
{
    if is_put(tree, root, events, k + 1, p) {
        let i = choose|i: int|
            #![trigger events[i]]
            0 <= i < k + 1 && nested_in(events[i].path.comps(), root) && p == event_path(
                root,
                events[i],
            );
        assert(i == k || 0 <= i < k);
    }
    if is_put(tree, root, events, k, p) {
        let i = choose|i: int|
            #![trigger events[i]]
            0 <= i < k && nested_in(events[i].path.comps(), root) && p == event_path(
                root,
                events[i],
            );
        assert(0 <= i < k + 1);
    }
}

/// What lies above a path that no event touches is not touched.
proof fn lemma_untouched_above(
    root: Seq<Seq<char>>,
    events: Seq<FsEvent>,
    p: Seq<Seq<char>>,
    k: int,
)
    requires
        !is_touched(root, events, events.len() as int, p),
        0 <= k <= p.len(),
    ensures
        !is_touched(root, events, events.len() as int, p.take(k)),
{
    if is_touched(root, events, events.len() as int, p.take(k)) {
        let i = choose|i: int|
            #![trigger events[i]]
            0 <= i < events.len() && nested_in(events[i].path.comps(), root) && nested_in(
                p.take(k),
                event_path(root, events[i]),
            );
        assert(nested_in(p, p.take(k))) by {
            assert(p.take(k) =~= p.subrange(0, k));
        }
        lemma_nested_transitive(p, p.take(k), event_path(root, events[i]));
        assert(is_touched(root, events, events.len() as int, p));
    }
}

/// A path that a scan comes to, and that no event touches, is one that a scan came to before.
proof fn lemma_reached_before(
    old_tree: FsTree,
    tree: FsTree,
    root: Seq<Seq<char>>,
    events: Seq<FsEvent>,
    p: Seq<Seq<char>>,
)
    requires
        is_fs_tree(tree),
        differ_at(old_tree, tree, root, events),
        is_reachable(tree, p),
        !is_touched(root, events, events.len() as int, p),
    ensures
        is_reachable(old_tree, p),
        is_unchanged(old_tree[p], tree[p]),
{
    assert(tree.contains_key(p));
    if p.len() > 0 {
        let up = p.drop_last();
        assert forall|k: int| 0 <= k <= p.len() implies is_unchanged(
            old_tree[#[trigger] p.take(k)],
            tree[p.take(k)],
        ) by {
            lemma_above(tree, p, k);
            lemma_untouched_above(root, events, p, k);
            assert(tree.contains_key(p.take(k)));
        }
        assert forall|k: int| #![trigger up.take(k)] 1 <= k <= up.len() implies !inodes_to(
            old_tree,
            up.take(k).drop_last(),
        ).contains(old_tree[up.take(k)].inode) by {
            let q = up.take(k);
            let d = q.drop_last();
            assert(q =~= p.take(k));
            assert(!inodes_to(tree, d).contains(tree[q].inode));
            if inodes_to(old_tree, d).contains(old_tree[q].inode) {
                let j = choose|j: int|
                    #![trigger d.take(j)]
                    0 <= j <= d.len() && old_tree[d.take(j)].inode == old_tree[q].inode;
                assert(d.take(j) =~= p.take(j));
                assert(inodes_to(tree, d).contains(tree[q].inode));
            }
        }
    }
}

/// The inodes that are known above the path of an event are those of the file system, where a
/// scan comes to the path.
proof fn lemma_known_above(
    old_tree: FsTree,
    tree: FsTree,
    root: Seq<Seq<char>>,
    events: Seq<FsEvent>,
    before: ByPath,
    np: ByPath,
    k: int,
)
    requires
        is_fs_tree(tree),
        are_apart(events),
        differ_at(old_tree, tree, root, events),
        agrees(before, old_tree, Seq::empty()),
        0 <= k < events.len(),
        nested_in(events[k].path.comps(), root),
        is_reachable(tree, event_path(root, events[k])),
        forall|p: Seq<Seq<char>>| #[trigger]
            before.contains_key(p) && !is_touched(root, events, events.len() as int, p)
                ==> np.contains_key(p) && np[p] == before[p],
    ensures
        ({
            let q = event_path(root, events[k]);
            ancestor_inodes(np, q) == if q.len() == 0 {
                Set::empty()
            } else {
                inodes_to(tree, q.drop_last())
            }
        }),
{
    let q = event_path(root, events[k]);
    if q.len() == 0 {
        assert(ancestor_inodes(np, q) =~= Set::<u64>::empty());
    } else {
        let up = q.drop_last();
        lemma_above(tree, q, 1);
        assert(is_in_dir(tree, q.take(1)));
        assert(q.take(1).last() == q[0]);
        assert(crate::path::root_length(q) == 0);
        assert forall|j: int| 0 <= j < q.len() implies np.contains_key(#[trigger] q.take(j))
            && np[q.take(j)].inode == tree[q.take(j)].inode by {
            let a = q.take(j);
            lemma_above(tree, q, j);
            assert(!is_touched(root, events, events.len() as int, a)) by {
                if is_touched(root, events, events.len() as int, a) {
                    let i = choose|i: int|
                        #![trigger events[i]]
                        0 <= i < events.len() && nested_in(events[i].path.comps(), root)
                            && nested_in(a, event_path(root, events[i]));
                    assert(nested_in(q, a)) by {
                        assert(a =~= q.subrange(0, j));
                    }
                    lemma_nested_transitive(q, a, event_path(root, events[i]));
                    if i != k {
                        lemma_event_paths_apart(root, events, k, i);
                    }
                }
            }
            assert(is_reachable(tree, a)) by {
                if a.len() > 0 {
                    lemma_entered_above(tree, up, j - 1);
                    assert(up.take(j - 1) =~= a.drop_last());
                }
            }
            lemma_reached_before(old_tree, tree, root, events, a);
            assert(before.contains_key(a)) by {
                assert(is_reachable(old_tree, a));
                assert(!is_awaited(Seq::empty(), a));
            }
        }
        assert forall|x: u64| ancestor_inodes(np, q).contains(x) <==> inodes_to(tree, up).contains(x) by {
            if ancestor_inodes(np, q).contains(x) {
                let j = choose|j: int|
                    #![trigger q.take(j)]
                    crate::path::root_length(q) <= j < q.len() && np.contains_key(q.take(j))
                        && np[q.take(j)].inode == x;
                assert(up.take(j) =~= q.take(j));
            }
            if inodes_to(tree, up).contains(x) {
                let j = choose|j: int|
                    #![trigger up.take(j)]
                    0 <= j <= up.len() && tree[up.take(j)].inode == x;
                assert(up.take(j) =~= q.take(j));
            }
        }
        assert(ancestor_inodes(np, q) =~= inodes_to(tree, up));
    }
}

/// Entries that agreed with the file system agree with it again once the events for all that has
/// changed are brought in, but for the directories that are then to be read. This holds where no
/// event lies in a directory that a scan does not enter.
#[verifier::rlimit(40)]
pub proof fn law_events_bring_agreement(
    old_tree: FsTree,
    tree: FsTree,
    before: LocalSnapshot,
    root: Seq<Seq<char>>,
    events: Seq<FsEvent>,
    id: usize,
    outcomes: Seq<EventOutcome>,
    after: LocalSnapshot,
    next_id: usize,
    removed: Seq<LocalSnapshot>,
    handled: Seq<LocalSnapshot>,
    ids: Seq<usize>,
)
    requires
        is_fs_tree(old_tree),
        is_fs_tree(tree),
        agrees(before.paths_map(), old_tree, Seq::empty()),
        differ_at(old_tree, tree, root, events),
        are_told(tree, root, events),
        are_in_reach(tree, root, events),
        are_apart(events),
        are_events_applied(
            before,
            root,
            events,
            id,
            outcomes,
            after,
            next_id,
            removed,
            handled,
            ids,
        ),
    ensures
        agrees(after.paths_map(), tree, jobs_of(outcomes)),
{
    let n = events.len() as int;
    let bp = before.paths_map();
    let np = after.paths_map();
    let jobs = jobs_of(outcomes);
    assert(removed[n] == removed.last());
    assert(handled[n] == handled.last());
    assert forall|q: Seq<Seq<char>>|
        #![trigger handled[0].paths_map().contains_key(q)]
        (handled[0].paths_map().contains_key(q) <==> bp.contains_key(q) && !is_touched(
            root,
            events,
            n,
            q,
        )) && (handled[0].paths_map().contains_key(q) ==> handled[0].paths_map()[q] == bp[q]) by {
        lemma_removed_paths(removed, root, events, n, q);
    }
    assert(differ_at(tree, old_tree, root, events));
    assert forall|p: Seq<Seq<char>>| #[trigger] np.contains_key(p) implies is_reachable(tree, p)
        && tells(np[p], tree[p]) by {
        lemma_handled_paths(tree, root, events, outcomes, handled, ids, n, p);
        if handled[0].paths_map().contains_key(p) {
            assert(bp.contains_key(p));
            assert(is_reachable(old_tree, p));
            lemma_reached_before(tree, old_tree, root, events, p);
        }
    }
    let at = lemma_jobs_of(outcomes);
    assert forall|p: Seq<Seq<char>>|
        #![trigger is_reachable(tree, p)]
        is_reachable(tree, p) implies np.contains_key(p) || is_awaited(jobs, p) by {
        lemma_handled_paths(tree, root, events, outcomes, handled, ids, n, p);
        if !is_touched(root, events, n, p) {
            lemma_reached_before(old_tree, tree, root, events, p);
            assert(!is_awaited(Seq::empty(), p));
            assert(bp.contains_key(p));
            assert(handled[0].paths_map().contains_key(p));
        } else {
            let k = choose|k: int|
                #![trigger events[k]]
                0 <= k < n && nested_in(events[k].path.comps(), root) && nested_in(
                    p,
                    event_path(root, events[k]),
                );
            let q = event_path(root, events[k]);
            if p == q {
                assert(is_put(tree, root, events, n, p));
            } else {
                lemma_lies_in_child(p, q);
                lemma_above(tree, p, q.len() as int);
                let up = p.drop_last();
                assert(up.take(q.len() as int) =~= q);
                lemma_entered_above(tree, up, q.len() as int);
                lemma_event_job(
                    old_tree,
                    tree,
                    bp,
                    root,
                    events,
                    outcomes,
                    handled,
                    ids,
                    k,
                );
                let i = choose|i: int| #![trigger at[i]] 0 <= i < at.len() && at[i] == k;
                assert(outcomes[k].job == Some(jobs[i]));
                assert(lies_in(p, jobs[i].path.comps()));
            }
        }
    }
    assert forall|j: int| #![trigger jobs[j]] 0 <= j < jobs.len() implies is_pending(
        np,
        tree,
        jobs[j],
    ) && jobs[j].path.comps() == event_path(root, events[at[j]]) && nested_in(
        events[at[j]].path.comps(),
        root,
    ) by {
        let k = at[j];
        assert(outcomes[k].job == Some(jobs[j]));
        lemma_event_job(old_tree, tree, bp, root, events, outcomes, handled, ids, k);
        let q = event_path(root, events[k]);
        lemma_handled_paths(tree, root, events, outcomes, handled, ids, n, q);
        assert(is_put(tree, root, events, n, q));
        assert forall|p: Seq<Seq<char>>| #[trigger] np.contains_key(p) implies !lies_in(p, q) by {
            lemma_handled_paths(tree, root, events, outcomes, handled, ids, n, p);
            if lies_in(p, q) {
                assert(is_touched(root, events, n, p));
                if is_put(tree, root, events, n, p) {
                    let i = choose|i: int|
                        #![trigger events[i]]
                        0 <= i < n && nested_in(events[i].path.comps(), root) && p == event_path(
                            root,
                            events[i],
                        );
                    if i != k {
                        lemma_event_paths_apart(root, events, i, k);
                    }
                }
            }
        }
    }
    assert forall|i: int, j: int|
        #![trigger jobs[i], jobs[j]]
        0 <= i < j < jobs.len() implies jobs[i].path.comps() != jobs[j].path.comps() by {
        assert(at[i] < at[j]);
        lemma_event_paths_apart(root, events, at[i], at[j]);
        let q = jobs[i].path.comps();
        assert(nested_in(q, q)) by {
            assert(q =~= q.subrange(0, q.len() as int));
        }
    }
}

/// The job that comes of an event: there is one for a directory that a scan enters, and it knows
/// the inodes above it.
proof fn lemma_event_job(
    old_tree: FsTree,
    tree: FsTree,
    before: ByPath,
    root: Seq<Seq<char>>,
    events: Seq<FsEvent>,
    outcomes: Seq<EventOutcome>,
    handled: Seq<LocalSnapshot>,
    ids: Seq<usize>,
    k: int,
)
    requires
        is_fs_tree(tree),
        agrees(before, old_tree, Seq::empty()),
        differ_at(old_tree, tree, root, events),
        are_told(tree, root, events),
        are_in_reach(tree, root, events),
        are_apart(events),
        are_events_handled(handled, ids, root, events, outcomes),
        forall|q: Seq<Seq<char>>|
            #![trigger handled[0].paths_map().contains_key(q)]
            (handled[0].paths_map().contains_key(q) <==> before.contains_key(q) && !is_touched(
                root,
                events,
                events.len() as int,
                q,
            )) && (handled[0].paths_map().contains_key(q) ==> handled[0].paths_map()[q]
                == before[q]),
        0 <= k < events.len(),
    ensures
        outcomes[k].job matches Some(job) ==> {
            let q = event_path(root, events[k]);
            &&& nested_in(events[k].path.comps(), root)
            &&& job.path.comps() == q
            &&& tree.contains_key(q)
            &&& tree[q].is_dir
            &&& is_entered(tree, q)
            &&& job.ancestor_inodes@ == inodes_to(tree, q)
        },
        nested_in(events[k].path.comps(), root) && tree.contains_key(event_path(root, events[k]))
            && tree[event_path(root, events[k])].is_dir && is_entered(
            tree,
            event_path(root, events[k]),
        ) ==> outcomes[k].job is Some && outcomes[k].job->0.path.comps() == event_path(
            root,
            events[k],
        ),
{
    let q = event_path(root, events[k]);
    assert(is_step(handled[k], root, events[k], ids[k], outcomes[k], handled[k + 1], ids[k + 1]));
    if nested_in(events[k].path.comps(), root) {
        lemma_not_there_yet(tree, root, events, outcomes, handled, ids, k);
        lemma_event_step(
            handled[k],
            root,
            events[k],
            ids[k],
            outcomes[k],
            handled[k + 1],
            ids[k + 1],
        );
        let np = handled[k + 1].paths_map();
        if tree.contains_key(q) {
            assert forall|p: Seq<Seq<char>>| #[trigger]
                before.contains_key(p) && !is_touched(
                    root,
                    events,
                    events.len() as int,
                    p,
                ) implies np.contains_key(p) && np[p] == before[p] by {
                lemma_handled_paths(tree, root, events, outcomes, handled, ids, k + 1, p);
                assert(handled[0].paths_map().contains_key(p));
            }
            assert(is_reachable(tree, q));
            lemma_known_above(old_tree, tree, root, events, before, np, k);
            if q.len() > 0 {
                lemma_inodes_to_child(tree, q.drop_last(), q.last());
                assert(q.drop_last().push(q.last()) =~= q);
                assert(q.take(q.len() as int) =~= q);
                if is_entered(tree, q) {
                    assert(!inodes_to(tree, q.take(q.len() as int).drop_last()).contains(
                        tree[q.take(q.len() as int)].inode,
                    ));
                }
                if outcomes[k].job is Some {
                    lemma_entered_child(tree, q.drop_last(), q.last());
                }
            } else {
                assert(inodes_to(tree, q) =~= Set::<u64>::empty().insert(tree[q].inode)) by {
                    assert(q.take(0) =~= q);
                    assert forall|x: u64| inodes_to(tree, q).contains(x) <==> x == tree[q].inode by {
                        if inodes_to(tree, q).contains(x) {
                            let j = choose|j: int|
                                #![trigger q.take(j)]
                                0 <= j <= q.len() && tree[q.take(j)].inode == x;
                            assert(q.take(j) =~= q);
                        }
                    }
                }
            }
        }
    }
}

/// Bringing statuses up to date leaves entries in agreement with the file system.
pub proof fn law_statuses_keep_agreement(
    tree: FsTree,
    before: LocalSnapshot,
    statuses: Statuses,
    after: LocalSnapshot,
)
    requires
        agrees(before.paths_map(), tree, Seq::empty()),
        after.paths_map() == restated(before.paths_map(), statuses),
    ensures
        agrees(after.paths_map(), tree, Seq::empty()),
{
    let paths = before.paths_map();
    let np = after.paths_map();
    assert forall|p: Seq<Seq<char>>| #[trigger] np.contains_key(p) implies is_reachable(tree, p)
        && tells(np[p], tree[p]) by {
        assert(paths.contains_key(p));
    }
    assert forall|p: Seq<Seq<char>>|
        #![trigger is_reachable(tree, p)]
        is_reachable(tree, p) implies np.contains_key(p) || is_awaited(Seq::empty(), p) by {
        assert(paths.contains_key(p) || is_awaited(Seq::empty(), p));
    }
}

/// Once events are finished, every ignore file of the worktree that counts is there.
pub proof fn law_ignore_files_are_there(before: LocalSnapshot, after: LocalSnapshot, dir: Seq<Seq<char>>)
    requires
        after.snap().same_tree(before.snap()),
        after.ignores() == fresh_ignores(before),
        after.paths_map().dom() == before.paths_map().dom(),
        after.ignores().contains_key(dir),
        nested_in(dir, after.snap().root_path().comps()),
    ensures
        after.paths_map().contains_key(relative(after, dir).push(gitignore_name())),
{
    assert(!is_stale_dir(before, dir));
    assert(before.paths_map().dom().contains(relative(before, dir).push(gitignore_name())));
}

} // verus!
