//! What becomes of identifiers where files are renamed: they follow the inodes within a batch of
//! events, and not beyond it.
use crate::entry::Entry;
use crate::entry_laws::{
    lemma_gone_entries, lemma_populated_path, lemma_removed_has, lemma_removed_with,
};
use crate::event_laws::{
    are_apart, are_told, event_path, is_touched, jobs_of, lemma_event_paths_apart,
    lemma_handled_paths, lemma_jobs_of, lemma_not_there_yet, lemma_removed_paths,
};
use crate::events::{
    are_events_handled, are_paths_removed, is_event_entry, is_event_handled, is_step, text_of,
    EventOutcome, FsEvent,
};
use crate::history_laws::{
    is_all_read, is_batch, is_one_read, law_batch_reflects, lemma_all_updated, lemma_batch_begins,
    stay_usable, Taken, Batch,
};
use crate::ids::{next_number, nth_number};
use crate::local_snapshot::{
    are_repos_touched, entries_in, inodes_of, is_populated, is_with_entry, is_without_path,
    reused_id, same_but_id, LocalSnapshot, Removed,
};
use crate::path::{is_file_name, nested_in, Path};
use crate::path_lemmas::{lemma_child_comps, lemma_nested_transitive};
use crate::path_text::text_behind;
use crate::reflect_laws::{
    are_changes_told, are_texts_of, is_being_updated, is_dir_scanned, is_read_from, reflects,
    FsTexts, Outside,
};
use crate::scan_laws::{
    agrees, inodes_to, is_fs_tree, is_pending, is_reachable, law_scan_finds_all, lemma_above,
    lemma_filter_apart, lies_in, tells, FsTree,
};
use crate::scanner::{dir_rules, found, is_child_entry, is_child_job, is_to_read, DirChild, ScanJob};
use crate::snapshot::{entries_by_path, ByPath};
use crate::sum_tree::{lemma_filter_sorted, lemma_key_index};
use std::sync::Arc;
use vstd::prelude::*;

verus! {

/// Whether no two paths of a file system have one inode.
pub open spec fn are_inodes_apart(tree: FsTree) -> bool {
    forall|a: Seq<Seq<char>>, b: Seq<Seq<char>>| #[trigger]
        tree.contains_key(a) && #[trigger] tree.contains_key(b) && tree[a].inode == tree[b].inode
            ==> a == b
}

/// Whether entries stand at paths of a file system, with its inodes.
spec fn are_inodes_of(paths: ByPath, tree: FsTree) -> bool {
    forall|p: Seq<Seq<char>>| #[trigger]
        paths.contains_key(p) ==> tree.contains_key(p) && paths[p].inode == tree[p].inode
}

/// Whether an entry with an inode is there at a path that events touch.
spec fn is_inode_there(
    paths: ByPath,
    inode: u64,
    root: Seq<Seq<char>>,
    events: Seq<FsEvent>,
) -> bool {
    exists|y: Seq<Seq<char>>| #[trigger]
        paths.contains_key(y) && is_touched(root, events, events.len() as int, y) && paths[y].inode
            == inode
}

/// Whether the identifiers of what events touch follow the inodes: an entry that is there has the
/// identifier that the one with its inode had before, and that of an inode that is not there is
/// kept for it.
spec fn do_ids_follow(
    l: LocalSnapshot,
    before: ByPath,
    root: Seq<Seq<char>>,
    events: Seq<FsEvent>,
) -> bool {
    let n = events.len() as int;
    let paths = l.paths_map();
    &&& forall|x: Seq<Seq<char>>, y: Seq<Seq<char>>|
        #![trigger before.contains_key(x), paths.contains_key(y)]
        before.contains_key(x) && paths.contains_key(y) && is_touched(root, events, n, x)
            && is_touched(root, events, n, y) && before[x].inode == paths[y].inode
            ==> paths[y].id@ == before[x].id@
    &&& forall|x: Seq<Seq<char>>| #[trigger]
        before.contains_key(x) && is_touched(root, events, n, x) && !is_inode_there(
            paths,
            before[x].inode,
            root,
            events,
        ) ==> l.removed().contains_key(before[x].inode) && l.removed()[before[x].inode]
            == before[x].id@
}

/// What is kept of the entries that lie in a path which is taken out.
proof fn lemma_taken_out_ids(
    before: LocalSnapshot,
    path: Seq<Seq<char>>,
    after: LocalSnapshot,
    tree: FsTree,
    n: u64,
)
    requires
        before.wf(),
        is_without_path(before, path, after),
        are_inodes_of(before.paths_map(), tree),
        are_inodes_apart(tree),
    ensures
        forall|x: Seq<Seq<char>>| #[trigger]
            before.paths_map().contains_key(x) && nested_in(x, path)
                && before.paths_map()[x].inode == n && !before.removed().contains_key(n)
                ==> after.removed().contains_key(n) && after.removed()[n]
                == before.paths_map()[x].id@,
        after.removed().contains_key(n) ==> before.removed().contains_key(n) || exists|
            x: Seq<Seq<char>>,
        | #[trigger]
            before.paths_map().contains_key(x) && nested_in(x, path)
                && before.paths_map()[x].inode == n,
        before.removed().contains_key(n) && (forall|x: Seq<Seq<char>>| #[trigger]
            before.paths_map().contains_key(x) && nested_in(x, path)
                ==> before.paths_map()[x].inode != n) ==> after.removed().contains_key(n)
            && after.removed()[n] == before.removed()[n],
{
    let s = before.snap().list();
    let paths = before.paths_map();
    let gone = entries_in(s, path);
    let inside = |e: Entry| nested_in(e.comps(), path);
    lemma_filter_sorted(s, inside);
    lemma_gone_entries(s, path);
    lemma_removed_with(before.removed(), gone, n);
    assert forall|x: Seq<Seq<char>>| #[trigger]
        paths.contains_key(x) && nested_in(x, path) && paths[x].inode == n
            && !before.removed().contains_key(n) implies after.removed().contains_key(n)
        && after.removed()[n] == paths[x].id@ by {
        let k = lemma_key_index(s, x);
        let e = paths[x];
        assert(s.contains(e));
        assert(inside(e));
        assert(gone.contains(e));
        let i = choose|i: int| 0 <= i < gone.len() && gone[i] == e;
        lemma_removed_has(before.removed(), gone, i);
        let j = choose|j: int|
            #![trigger gone[j]]
            0 <= j < gone.len() && gone[j].inode == n && gone[j].id@ == after.removed()[n];
        assert(paths.contains_key(gone[j].comps()));
        assert(gone[j].comps() == x);
    }
    if after.removed().contains_key(n) && !before.removed().contains_key(n) {
        let j = choose|j: int|
            #![trigger gone[j]]
            0 <= j < gone.len() && gone[j].inode == n && gone[j].id@ == after.removed()[n];
        assert(paths.contains_key(gone[j].comps()));
    }
    if before.removed().contains_key(n) && after.removed().contains_key(n) && after.removed()[n]
        != before.removed()[n] {
        let j = choose|j: int|
            #![trigger gone[j]]
            0 <= j < gone.len() && gone[j].inode == n && gone[j].id@ == after.removed()[n];
        assert(paths.contains_key(gone[j].comps()));
    }
}

/// Once the paths of some events are taken out, the identifiers of what stood there are kept, and
/// no others.
proof fn lemma_removed_ids(
    removed: Seq<LocalSnapshot>,
    root: Seq<Seq<char>>,
    events: Seq<FsEvent>,
    tree: FsTree,
    n: int,
)
    requires
        are_paths_removed(removed, root, events),
        removed[0].removed() == Removed::empty(),
        are_inodes_of(removed[0].paths_map(), tree),
        are_inodes_apart(tree),
        0 <= n <= events.len(),
    ensures
        are_inodes_of(removed[n].paths_map(), tree),
        forall|x: Seq<Seq<char>>| #[trigger]
            removed[0].paths_map().contains_key(x) && is_touched(root, events, n, x) ==> {
                let inode = removed[0].paths_map()[x].inode;
                &&& removed[n].removed().contains_key(inode)
                &&& removed[n].removed()[inode] == removed[0].paths_map()[x].id@
            },
        forall|inode: u64| #[trigger]
            removed[n].removed().contains_key(inode) ==> exists|x: Seq<Seq<char>>| #[trigger]
                removed[0].paths_map().contains_key(x) && is_touched(root, events, n, x)
                    && removed[0].paths_map()[x].inode == inode,
    decreases n,
{
    let first = removed[0].paths_map();
    assert forall|p: Seq<Seq<char>>| #[trigger] removed[n].paths_map().contains_key(
        p,
    ) implies tree.contains_key(p) && removed[n].paths_map()[p].inode == tree[p].inode by {
        lemma_removed_paths(removed, root, events, n, p);
        assert(first.contains_key(p));
    }
    if n == 0 {
        assert forall|x: Seq<Seq<char>>| !#[trigger] is_touched(root, events, 0, x) by {
        }
    } else {
        let k = n - 1;
        lemma_removed_ids(removed, root, events, tree, k);
        let a = removed[k];
        let b = removed[n];
        assert(removed[k + 1] == b);
        assert(a.wf());
        let q = event_path(root, events[k]);
        let here = nested_in(events[k].path.comps(), root);
        assert forall|x: Seq<Seq<char>>| #[trigger]
            first.contains_key(x) && is_touched(root, events, n, x) implies {
            let inode = first[x].inode;
            &&& b.removed().contains_key(inode)
            &&& b.removed()[inode] == first[x].id@
        } by {
            let inode = first[x].inode;
            lemma_removed_paths(removed, root, events, k, x);
            if here {
                lemma_taken_out_ids(a, q, b, tree, inode);
            }
            if is_touched(root, events, k, x) {
                if here {
                    assert forall|z: Seq<Seq<char>>| #[trigger]
                        a.paths_map().contains_key(z) && nested_in(
                            z,
                            q,
                        ) implies a.paths_map()[z].inode != inode by {
                        lemma_removed_paths(removed, root, events, k, z);
                        assert(first.contains_key(z));
                        assert(tree.contains_key(z) && tree.contains_key(x));
                        if a.paths_map()[z].inode == inode {
                            assert(z == x);
                        }
                    }
                }
            } else {
                let i = choose|i: int|
                    #![trigger events[i]]
                    0 <= i < n && nested_in(events[i].path.comps(), root) && nested_in(
                        x,
                        event_path(root, events[i]),
                    );
                assert(i == k) by {
                    if i < k {
                        assert(is_touched(root, events, k, x));
                    }
                }
                assert(a.paths_map().contains_key(x));
                if a.removed().contains_key(inode) {
                    let z = choose|z: Seq<Seq<char>>| #[trigger]
                        first.contains_key(z) && is_touched(root, events, k, z) && first[z].inode
                            == inode;
                    assert(tree.contains_key(z) && tree.contains_key(x));
                    assert(z == x);
                }
            }
        }
        assert forall|inode: u64| #[trigger] b.removed().contains_key(inode) implies exists|
            x: Seq<Seq<char>>,
        | #[trigger]
            first.contains_key(x) && is_touched(root, events, n, x) && first[x].inode == inode by {
            if here {
                lemma_taken_out_ids(a, q, b, tree, inode);
            }
            if a.removed().contains_key(inode) {
                let z = choose|z: Seq<Seq<char>>| #[trigger]
                    first.contains_key(z) && is_touched(root, events, k, z) && first[z].inode
                        == inode;
                let i = choose|i: int|
                    #![trigger events[i]]
                    0 <= i < k && nested_in(events[i].path.comps(), root) && nested_in(
                        z,
                        event_path(root, events[i]),
                    );
                assert(0 <= i < n);
                assert(is_touched(root, events, n, z));
            } else {
                let z = choose|z: Seq<Seq<char>>| #[trigger]
                    a.paths_map().contains_key(z) && nested_in(z, q) && a.paths_map()[z].inode
                        == inode;
                lemma_removed_paths(removed, root, events, k, z);
                assert(0 <= k < n);
                assert(is_touched(root, events, n, z));
                assert(first.contains_key(z));
            }
        }
    }
}

/// What identifier the handling of an event gives.
proof fn lemma_event_ids(
    before: LocalSnapshot,
    root: Seq<Seq<char>>,
    event: FsEvent,
    id: usize,
    outcome: EventOutcome,
    after: LocalSnapshot,
    next_id: usize,
)
    requires
        is_step(before, root, event, id, outcome, after, next_id),
        nested_in(event.path.comps(), root) ==> !before.paths_map().contains_key(
            event_path(root, event),
        ),
    ensures
        ({
            let q = event_path(root, event);
            let r = after.paths_map()[q];
            if nested_in(event.path.comps(), root) && event.metadata is Some {
                let inode = event.metadata->0.inode;
                &&& after.paths_map() == before.paths_map().insert(q, r)
                &&& r.inode == inode
                &&& r.id@ == if before.removed().contains_key(inode) {
                    before.removed()[inode]
                } else {
                    id
                }
                &&& after.removed() == before.removed().remove(inode)
                &&& next_id == next_number(id)
            } else {
                &&& after == before
                &&& next_id == id
            }
        }),
{
    if nested_in(event.path.comps(), root) && event.metadata is Some {
        let path = choose|path: Arc<Path>|
            {
                &&& path.comps() == event.path.comps().skip(root.len() as int)
                &&& path@ == text_behind(event.path@, root.len() as int)
                &&& #[trigger] is_event_handled(before, path, event, id, outcome, after, next_id)
            };
        let m = event.metadata->0;
        let (e, r, between) = choose|e: Entry, r: Entry, between: LocalSnapshot|
            {
                &&& #[trigger] is_event_entry(e, before, path, m, id)
                &&& #[trigger] is_with_entry(before, e, text_of(event.contents), r, between)
                &&& after.snap() == between.snap()
                &&& after.ignores() == between.ignores()
                &&& after.removed() == between.removed()
                &&& are_repos_touched(
                    between.repos(),
                    path.comps(),
                    before.scan(),
                    outcome.reload,
                    after.repos(),
                )
            };
        assert(r.comps() == path.comps() && e.comps() == path.comps());
        assert(after.paths_map() == between.paths_map());
    }
}

/// Identifiers follow the inodes where one entry more comes to a path that is touched.
proof fn lemma_follow_put(
    l: LocalSnapshot,
    before: ByPath,
    root: Seq<Seq<char>>,
    events: Seq<FsEvent>,
    q: Seq<Seq<char>>,
    id: usize,
    after: LocalSnapshot,
)
    requires
        do_ids_follow(l, before, root, events),
        is_touched(root, events, events.len() as int, q),
        !l.paths_map().contains_key(q),
        after.paths_map() == l.paths_map().insert(q, after.paths_map()[q]),
        forall|y: Seq<Seq<char>>| #[trigger]
            l.paths_map().contains_key(y) ==> l.paths_map()[y].inode
                != after.paths_map()[q].inode,
        after.paths_map()[q].id@ == if l.removed().contains_key(after.paths_map()[q].inode) {
            l.removed()[after.paths_map()[q].inode]
        } else {
            id
        },
        after.removed() == l.removed().remove(after.paths_map()[q].inode),
    ensures
        do_ids_follow(after, before, root, events),
{
    let n = events.len() as int;
    let paths = l.paths_map();
    let np = after.paths_map();
    assert forall|x: Seq<Seq<char>>, y: Seq<Seq<char>>|
        #![trigger before.contains_key(x), np.contains_key(y)]
        before.contains_key(x) && np.contains_key(y) && is_touched(root, events, n, x)
            && is_touched(root, events, n, y) && before[x].inode == np[y].inode implies np[y].id@
        == before[x].id@ by {
        if y == q {
            assert(!is_inode_there(paths, before[x].inode, root, events));
        } else {
            assert(paths.contains_key(y));
        }
    }
    assert forall|x: Seq<Seq<char>>| #[trigger]
        before.contains_key(x) && is_touched(root, events, n, x) && !is_inode_there(
            np,
            before[x].inode,
            root,
            events,
        ) implies after.removed().contains_key(before[x].inode)
        && after.removed()[before[x].inode] == before[x].id@ by {
        assert(np.contains_key(q));
        assert(before[x].inode != np[q].inode);
        if is_inode_there(paths, before[x].inode, root, events) {
            let y = choose|y: Seq<Seq<char>>| #[trigger]
                paths.contains_key(y) && is_touched(root, events, n, y) && paths[y].inode
                    == before[x].inode;
            assert(np.contains_key(y));
        }
    }
}

/// The entries that are there while events are handled have the inodes of the file system.
proof fn lemma_handled_inodes(
    old_tree: FsTree,
    tree: FsTree,
    before: ByPath,
    root: Seq<Seq<char>>,
    events: Seq<FsEvent>,
    outcomes: Seq<EventOutcome>,
    handled: Seq<LocalSnapshot>,
    ids: Seq<usize>,
    n: int,
)
    requires
        is_fs_tree(old_tree),
        agrees(before, old_tree, Seq::empty()),
        crate::event_laws::differ_at(old_tree, tree, root, events),
        are_told(tree, root, events),
        are_apart(events),
        are_events_handled(handled, ids, root, events, outcomes),
        forall|q: Seq<Seq<char>>|
            #![trigger handled[0].paths_map().contains_key(q)]
            handled[0].paths_map().contains_key(q) ==> before.contains_key(q)
                && handled[0].paths_map()[q] == before[q] && !is_touched(
                root,
                events,
                events.len() as int,
                q,
            ),
        0 <= n <= events.len(),
    ensures
        are_inodes_of(handled[n].paths_map(), tree),
{
    assert forall|p: Seq<Seq<char>>| #[trigger] handled[n].paths_map().contains_key(
        p,
    ) implies tree.contains_key(p) && handled[n].paths_map()[p].inode == tree[p].inode by {
        lemma_handled_paths(tree, root, events, outcomes, handled, ids, n, p);
        if handled[0].paths_map().contains_key(p) {
            assert(is_reachable(old_tree, p) && tells(before[p], old_tree[p]));
            assert(old_tree.contains_key(p));
        }
    }
}

/// Identifiers follow the inodes while events are handled, and new ones are numbers of the
/// counter.
proof fn lemma_handled_follow(
    old_tree: FsTree,
    tree: FsTree,
    before: ByPath,
    root: Seq<Seq<char>>,
    events: Seq<FsEvent>,
    outcomes: Seq<EventOutcome>,
    handled: Seq<LocalSnapshot>,
    ids: Seq<usize>,
    n: int,
)
    requires
        is_fs_tree(old_tree),
        agrees(before, old_tree, Seq::empty()),
        crate::event_laws::differ_at(old_tree, tree, root, events),
        are_inodes_apart(tree),
        are_told(tree, root, events),
        are_apart(events),
        are_events_handled(handled, ids, root, events, outcomes),
        forall|q: Seq<Seq<char>>|
            #![trigger handled[0].paths_map().contains_key(q)]
            handled[0].paths_map().contains_key(q) ==> before.contains_key(q)
                && handled[0].paths_map()[q] == before[q] && !is_touched(
                root,
                events,
                events.len() as int,
                q,
            ),
        do_ids_follow(handled[0], before, root, events),
        0 <= n <= events.len(),
    ensures
        do_ids_follow(handled[n], before, root, events),
    decreases n,
{
    if n > 0 {
        let k = n - 1;
        lemma_handled_follow(old_tree, tree, before, root, events, outcomes, handled, ids, k);
        assert(is_step(
            handled[k],
            root,
            events[k],
            ids[k],
            outcomes[k],
            handled[k + 1],
            ids[k + 1],
        ));
        if nested_in(events[k].path.comps(), root) {
            lemma_not_there_yet(tree, root, events, outcomes, handled, ids, k);
        }
        lemma_event_ids(
            handled[k],
            root,
            events[k],
            ids[k],
            outcomes[k],
            handled[k + 1],
            ids[k + 1],
        );
        if nested_in(events[k].path.comps(), root) && events[k].metadata is Some {
            let q = event_path(root, events[k]);
            lemma_handled_inodes(old_tree, tree, before, root, events, outcomes, handled, ids, k);
            assert(tree.contains_key(q) && tree[q].inode == events[k].metadata->0.inode);
            assert(nested_in(q, q)) by {
                assert(q =~= q.subrange(0, q.len() as int));
            }
            assert(is_touched(root, events, events.len() as int, q));
            assert forall|y: Seq<Seq<char>>| #[trigger] handled[k].paths_map().contains_key(
                y,
            ) implies handled[k].paths_map()[y].inode != tree[q].inode by {
                assert(tree.contains_key(y));
                if handled[k].paths_map()[y].inode == tree[q].inode {
                    assert(y == q);
                }
            }
            lemma_follow_put(handled[k], before, root, events, q, ids[k], handled[k + 1]);
        }
    }
}

/// What lies in a directory that is read.
proof fn lemma_read_child(
    tree: FsTree,
    texts: FsTexts,
    l: LocalSnapshot,
    jobs: Seq<ScanJob>,
    k: int,
    children: Seq<DirChild>,
    id: usize,
    es: Seq<Entry>,
    repo: Option<u64>,
    new_jobs: Seq<ScanJob>,
    after: LocalSnapshot,
    i: int,
)
    requires
        is_dir_scanned(l, jobs, k, children, id, es, repo, new_jobs, after),
        is_read_from(tree, texts, jobs[k].path.comps(), children),
        0 <= i < es.len(),
    ensures
        ({
            let p = es[i].comps();
            &&& p.len() == jobs[k].path.comps().len() + 1
            &&& p.drop_last() == jobs[k].path.comps()
            &&& tree.contains_key(p)
            &&& es[i].inode == tree[p].inode
            &&& lies_in(p, jobs[k].path.comps())
        }),
        forall|j: int| #![trigger es[j]] 0 <= j < es.len() && j != i ==> es[j].comps() != es[i].comps(),
{
    let job = jobs[k];
    let dir = job.path.comps();
    let rules = dir_rules(job.ignore_stack@, job.abs_path@, children);
    let chars = l.snap().root_chars();
    let seen = |c: DirChild| c.metadata is Some;
    let cs = found(children);
    lemma_filter_apart(children, seen);
    assert forall|j: int| #![trigger es[j]] 0 <= j < es.len() implies {
        let q = dir.push(cs[j].name@);
        &&& es[j].comps() == q
        &&& tree.contains_key(q)
        &&& es[j].inode == tree[q].inode
    } by {
        assert(is_child_entry(es[j], job, rules, cs[j], chars));
        assert(seen(cs[j]));
        let x = choose|x: int| 0 <= x < children.len() && children[x] == cs[j];
        assert(is_file_name(children[x].name@));
        lemma_child_comps(job.path@, cs[j].name@);
    }
    let p = es[i].comps();
    assert(p == dir.push(cs[i].name@));
    assert(p.drop_last() =~= dir);
    assert(dir =~= p.subrange(0, dir.len() as int));
    assert forall|j: int| #![trigger es[j]] 0 <= j < es.len() && j != i implies es[j].comps() != p by {
        assert(es[j].comps() == dir.push(cs[j].name@));
        assert(dir.push(cs[j].name@).last() == cs[j].name@);
        assert(p.last() == cs[i].name@);
        if i < j {
            assert(cs[i].name@ != cs[j].name@);
        } else {
            assert(cs[j].name@ != cs[i].name@);
        }
    }
}

/// What is there once a directory was read: what was there, and its children, each with the
/// identifier that is kept for its inode.
#[verifier::rlimit(40)]
proof fn lemma_read_ids(
    tree: FsTree,
    texts: FsTexts,
    l: LocalSnapshot,
    jobs: Seq<ScanJob>,
    k: int,
    children: Seq<DirChild>,
    id: usize,
    es: Seq<Entry>,
    repo: Option<u64>,
    new_jobs: Seq<ScanJob>,
    after: LocalSnapshot,
)
    requires
        are_inodes_apart(tree),
        agrees(l.paths_map(), tree, jobs),
        is_dir_scanned(l, jobs, k, children, id, es, repo, new_jobs, after),
        is_read_from(tree, texts, jobs[k].path.comps(), children),
    ensures
        forall|p: Seq<Seq<char>>| #[trigger]
            l.paths_map().contains_key(p) ==> after.paths_map().contains_key(p)
                && after.paths_map()[p].id == l.paths_map()[p].id && after.paths_map()[p].inode
                == l.paths_map()[p].inode,
        forall|p: Seq<Seq<char>>| #[trigger]
            after.paths_map().contains_key(p) && !l.paths_map().contains_key(p) ==> {
                let r = after.paths_map()[p];
                &&& lies_in(p, jobs[k].path.comps())
                &&& l.removed().contains_key(r.inode) ==> r.id@ == l.removed()[r.inode]
                &&& !after.removed().contains_key(r.inode)
            },
        forall|n: u64| #[trigger]
            l.removed().contains_key(n) && !after.removed().contains_key(n) ==> exists|
                p: Seq<Seq<char>>,
            | #[trigger]
                after.paths_map().contains_key(p) && lies_in(p, jobs[k].path.comps())
                    && after.paths_map()[p].inode == n,
        forall|n: u64| #[trigger]
            after.removed().contains_key(n) ==> l.removed().contains_key(n) && after.removed()[n]
                == l.removed()[n],
{
    let dir = jobs[k].path.comps();
    let paths = l.paths_map();
    let np = after.paths_map();
    assert(is_pending(paths, tree, jobs[k]));
    assert(paths.contains_key(dir));
    let rs = choose|rs: Seq<Entry>| #[trigger] is_populated(l, dir, es, rs, after);
    assert(after.removed() == l.removed().remove_keys(inodes_of(es)));
    assert forall|i: int| #![trigger rs[i]] 0 <= i < rs.len() implies {
        let p = rs[i].comps();
        &&& p == es[i].comps()
        &&& rs[i].inode == es[i].inode
        &&& lies_in(p, dir)
        &&& inodes_of(es).contains(rs[i].inode)
        &&& l.removed().contains_key(rs[i].inode) ==> rs[i].id@ == l.removed()[rs[i].inode]
    } by {
        assert(same_but_id(rs[i], es[i]));
        lemma_read_child(tree, texts, l, jobs, k, children, id, es, repo, new_jobs, after, i);
        assert(es[i].inode == rs[i].inode);
        let first = es.take(i);
        if inodes_of(first).contains(es[i].inode) {
            let j = choose|j: int| #![trigger first[j]] 0 <= j < first.len() && first[j].inode == es[i].inode;
            assert(first[j] == es[j]);
            lemma_read_child(tree, texts, l, jobs, k, children, id, es, repo, new_jobs, after, j);
            assert(tree.contains_key(es[i].comps()) && tree.contains_key(es[j].comps()));
            assert(es[j].comps() == es[i].comps());
        }
        assert(rs[i].id@ == reused_id(l.removed().remove_keys(inodes_of(first)), paths, es[i]));
    }
    assert forall|p: Seq<Seq<char>>| #[trigger] paths.contains_key(p) implies np.contains_key(p)
        && np[p].id == paths[p].id && np[p].inode == paths[p].inode by {
        lemma_populated_path(l, dir, es, rs, p);
        assert(!lies_in(p, dir));
        if entries_by_path(rs).contains_key(p) {
            let i = choose|i: int|
                #![trigger rs[i]]
                0 <= i < rs.len() && rs[i].comps() == p && np[p] == rs[i];
            assert(lies_in(p, dir));
        }
    }
    assert forall|p: Seq<Seq<char>>| #[trigger]
        np.contains_key(p) && !paths.contains_key(p) implies {
        let r = np[p];
        &&& lies_in(p, dir)
        &&& l.removed().contains_key(r.inode) ==> r.id@ == l.removed()[r.inode]
        &&& !after.removed().contains_key(r.inode)
    } by {
        lemma_populated_path(l, dir, es, rs, p);
        let i = choose|i: int|
            #![trigger rs[i]]
            0 <= i < rs.len() && rs[i].comps() == p && np[p] == rs[i];
        assert(inodes_of(es).contains(rs[i].inode));
    }
    assert forall|n: u64| #[trigger]
        l.removed().contains_key(n) && !after.removed().contains_key(n) implies exists|
        p: Seq<Seq<char>>,
    | #[trigger] np.contains_key(p) && lies_in(p, dir) && np[p].inode == n by {
        assert(inodes_of(es).contains(n));
        let i = choose|i: int| #![trigger es[i]] 0 <= i < es.len() && es[i].inode == n;
        let p = rs[i].comps();
        crate::update::lemma_entries_by_path(rs, p);
        lemma_populated_path(l, dir, es, rs, p);
        assert(entries_by_path(rs).contains_key(p));
        let j = choose|j: int|
            #![trigger rs[j]]
            0 <= j < rs.len() && rs[j].comps() == p && np[p] == rs[j];
        lemma_read_child(tree, texts, l, jobs, k, children, id, es, repo, new_jobs, after, i);
        assert(rs[j].comps() == es[j].comps());
        assert(j == i);
    }
}

/// Identifiers follow the inodes where a directory is read.
#[verifier::rlimit(40)]
proof fn lemma_follow_read(
    tree: FsTree,
    texts: FsTexts,
    before: ByPath,
    root: Seq<Seq<char>>,
    events: Seq<FsEvent>,
    l: LocalSnapshot,
    jobs: Seq<ScanJob>,
    k: int,
    children: Seq<DirChild>,
    id: usize,
    es: Seq<Entry>,
    repo: Option<u64>,
    new_jobs: Seq<ScanJob>,
    after: LocalSnapshot,
)
    requires
        are_inodes_apart(tree),
        agrees(l.paths_map(), tree, jobs),
        agrees(after.paths_map(), tree, jobs.remove(k) + new_jobs),
        is_dir_scanned(l, jobs, k, children, id, es, repo, new_jobs, after),
        is_read_from(tree, texts, jobs[k].path.comps(), children),
        is_touched(root, events, events.len() as int, jobs[k].path.comps()),
        do_ids_follow(l, before, root, events),
    ensures
        do_ids_follow(after, before, root, events),
{
    let n = events.len() as int;
    let paths = l.paths_map();
    let np = after.paths_map();
    let dir = jobs[k].path.comps();
    lemma_read_ids(tree, texts, l, jobs, k, children, id, es, repo, new_jobs, after);
    assert forall|x: Seq<Seq<char>>, y: Seq<Seq<char>>|
        #![trigger before.contains_key(x), np.contains_key(y)]
        before.contains_key(x) && np.contains_key(y) && is_touched(root, events, n, x)
            && is_touched(root, events, n, y) && before[x].inode == np[y].inode implies np[y].id@
        == before[x].id@ by {
        if !paths.contains_key(y) {
            assert(is_reachable(tree, y) && tells(np[y], tree[y]));
            assert(!is_inode_there(paths, before[x].inode, root, events)) by {
                if is_inode_there(paths, before[x].inode, root, events) {
                    let z = choose|z: Seq<Seq<char>>| #[trigger]
                        paths.contains_key(z) && is_touched(root, events, n, z) && paths[z].inode
                            == before[x].inode;
                    assert(is_reachable(tree, z) && tells(paths[z], tree[z]));
                    assert(tree.contains_key(z) && tree.contains_key(y));
                    assert(z == y);
                }
            }
        }
    }
    assert forall|x: Seq<Seq<char>>| #[trigger]
        before.contains_key(x) && is_touched(root, events, n, x) && !is_inode_there(
            np,
            before[x].inode,
            root,
            events,
        ) implies after.removed().contains_key(before[x].inode)
        && after.removed()[before[x].inode] == before[x].id@ by {
        let inode = before[x].inode;
        if is_inode_there(paths, inode, root, events) {
            let y = choose|y: Seq<Seq<char>>| #[trigger]
                paths.contains_key(y) && is_touched(root, events, n, y) && paths[y].inode == inode;
            assert(np.contains_key(y));
        }
        assert(l.removed().contains_key(inode));
        if !after.removed().contains_key(inode) {
            let p = choose|p: Seq<Seq<char>>| #[trigger]
                np.contains_key(p) && lies_in(p, dir) && np[p].inode == inode;
            lemma_touched_below(root, events, dir, p);
            assert(is_inode_there(np, inode, root, events));
        }
    }
}

/// What lies in a path that is touched is touched.
proof fn lemma_touched_below(
    root: Seq<Seq<char>>,
    events: Seq<FsEvent>,
    dir: Seq<Seq<char>>,
    p: Seq<Seq<char>>,
)
    requires
        is_touched(root, events, events.len() as int, dir),
        nested_in(p, dir),
    ensures
        is_touched(root, events, events.len() as int, p),
{
    let i = choose|i: int|
        #![trigger events[i]]
        0 <= i < events.len() && nested_in(events[i].path.comps(), root) && nested_in(
            dir,
            event_path(root, events[i]),
        );
    lemma_nested_transitive(p, dir, event_path(root, events[i]));
}

/// Whether the directories that are to be read lie in the paths of events.
spec fn are_jobs_touched(jobs: Seq<ScanJob>, root: Seq<Seq<char>>, events: Seq<FsEvent>) -> bool {
    forall|j: int|
        #![trigger jobs[j]]
        0 <= j < jobs.len() ==> is_touched(root, events, events.len() as int, jobs[j].path.comps())
}

/// The directories that are to be read next lie in the paths of events.
proof fn lemma_jobs_stay_touched(
    tree: FsTree,
    texts: FsTexts,
    root: Seq<Seq<char>>,
    events: Seq<FsEvent>,
    l: LocalSnapshot,
    jobs: Seq<ScanJob>,
    k: int,
    children: Seq<DirChild>,
    id: usize,
    es: Seq<Entry>,
    repo: Option<u64>,
    new_jobs: Seq<ScanJob>,
    after: LocalSnapshot,
)
    requires
        are_jobs_touched(jobs, root, events),
        is_dir_scanned(l, jobs, k, children, id, es, repo, new_jobs, after),
        is_read_from(tree, texts, jobs[k].path.comps(), children),
    ensures
        are_jobs_touched(jobs.remove(k) + new_jobs, root, events),
{
    let left = jobs.remove(k);
    let all = left + new_jobs;
    let job = jobs[k];
    let dir = job.path.comps();
    let ancestors = job.ancestor_inodes@;
    let reads = |c: DirChild| is_to_read(c, ancestors);
    let cs = children.filter(reads);
    let rules = dir_rules(job.ignore_stack@, job.abs_path@, children);
    lemma_filter_apart(children, reads);
    assert forall|j: int| #![trigger all[j]] 0 <= j < all.len() implies is_touched(
        root,
        events,
        events.len() as int,
        all[j].path.comps(),
    ) by {
        if j < left.len() {
            let o = if j < k {
                j
            } else {
                j + 1
            };
            assert(all[j] == jobs[o]);
        } else {
            let i = j - left.len();
            assert(all[j] == new_jobs[i]);
            assert(is_child_job(new_jobs[i], job, rules, cs[i]));
            let x = choose|x: int| 0 <= x < children.len() && children[x] == cs[i];
            assert(is_file_name(children[x].name@));
            lemma_child_comps(job.path@, cs[i].name@);
            let p = new_jobs[i].path.comps();
            assert(p == dir.push(cs[i].name@));
            assert(nested_in(p, dir)) by {
                assert(dir =~= p.subrange(0, dir.len() as int));
            }
            lemma_touched_below(root, events, dir, p);
        }
    }
}

/// Identifiers follow the inodes while directories are read, and what is there keeps its own.
proof fn lemma_all_follow(
    tree: FsTree,
    texts: FsTexts,
    outside: Outside,
    before: ByPath,
    root: Seq<Seq<char>>,
    events: Seq<FsEvent>,
    states: Seq<LocalSnapshot>,
    queues: Seq<Seq<ScanJob>>,
    taken: Seq<Taken>,
    n: int,
)
    requires
        is_fs_tree(tree),
        are_texts_of(tree, texts),
        are_inodes_apart(tree),
        is_all_read(tree, texts, states, queues, taken),
        is_being_updated(states[0], tree, texts, outside, queues[0]),
        are_jobs_touched(queues[0], root, events),
        0 <= n < states.len(),
    ensures
        are_jobs_touched(queues[n], root, events),
        do_ids_follow(states[0], before, root, events) ==> do_ids_follow(
            states[n],
            before,
            root,
            events,
        ),
        forall|p: Seq<Seq<char>>| #[trigger]
            states[0].paths_map().contains_key(p) ==> states[n].paths_map().contains_key(p)
                && states[n].paths_map()[p].id == states[0].paths_map()[p].id,
    decreases n,
{
    if n > 0 {
        let i = n - 1;
        lemma_all_follow(tree, texts, outside, before, root, events, states, queues, taken, i);
        lemma_all_updated(tree, texts, outside, states, queues, taken, i);
        lemma_all_updated(tree, texts, outside, states, queues, taken, n);
        assert(is_one_read(
            tree,
            texts,
            states[i],
            queues[i],
            taken[i],
            states[i + 1],
            queues[i + 1],
        ));
        let id: usize = taken[i].0;
        let (k, children, es, repo, new_jobs) = choose|
            k: int,
            children: Seq<DirChild>,
            es: Seq<Entry>,
            repo: Option<u64>,
            new_jobs: Seq<ScanJob>,
        |
            {
                &&& #[trigger] is_dir_scanned(
                    states[i],
                    queues[i],
                    k,
                    children,
                    id,
                    es,
                    repo,
                    new_jobs,
                    states[i + 1],
                )
                &&& es.len() == taken[i].1
                &&& is_read_from(tree, texts, queues[i][k].path.comps(), children)
                &&& queues[i + 1] == queues[i].remove(k) + new_jobs
            };
        lemma_jobs_stay_touched(
            tree,
            texts,
            root,
            events,
            states[i],
            queues[i],
            k,
            children,
            id,
            es,
            repo,
            new_jobs,
            states[n],
        );
        lemma_read_ids(
            tree,
            texts,
            states[i],
            queues[i],
            k,
            children,
            id,
            es,
            repo,
            new_jobs,
            states[n],
        );
        if do_ids_follow(states[0], before, root, events) {
            assert(is_touched(root, events, events.len() as int, queues[i][k].path.comps()));
            lemma_follow_read(
                tree,
                texts,
                before,
                root,
                events,
                states[i],
                queues[i],
                k,
                children,
                id,
                es,
                repo,
                new_jobs,
                states[n],
            );
        }
    }
}

/// What the reading of directories in a batch begins with, where identifiers are concerned.
proof fn lemma_batch_follows(
    batch: Batch,
    root: Seq<Seq<char>>,
    old_tree: FsTree,
    old_texts: FsTexts,
    tree: FsTree,
    texts: FsTexts,
    outside: Outside,
    before: LocalSnapshot,
    after: LocalSnapshot,
)
    requires
        reflects(before, old_tree, old_texts, outside),
        before.removed() == Removed::empty(),
        are_inodes_apart(old_tree),
        are_inodes_apart(tree),
        are_changes_told(old_tree, old_texts, tree, texts, root, batch.events),
        stay_usable(before.root_text(), old_texts, tree, texts),
        is_batch(batch, root, tree, texts, before, after),
    ensures
        is_being_updated(batch.states[0], tree, texts, outside, batch.queues[0]),
        are_jobs_touched(batch.queues[0], root, batch.events),
        do_ids_follow(batch.states[0], before.paths_map(), root, batch.events),
{
    let events = batch.events;
    let n = events.len() as int;
    let paths = before.paths_map();
    let removed = batch.removed;
    let handled = batch.handled;
    lemma_batch_begins(
        batch,
        root,
        old_tree,
        old_texts,
        tree,
        texts,
        outside,
        before,
    );
    assert(removed[n] == removed.last());
    assert(handled[n] == handled.last());
    assert(batch.started.paths_map() == paths);
    assert(are_inodes_of(paths, old_tree)) by {
        assert forall|p: Seq<Seq<char>>| #[trigger] paths.contains_key(p) implies old_tree.contains_key(
            p,
        ) && paths[p].inode == old_tree[p].inode by {
            assert(is_reachable(old_tree, p) && tells(paths[p], old_tree[p]));
        }
    }
    lemma_removed_ids(removed, root, events, old_tree, n);
    assert forall|q: Seq<Seq<char>>|
        #![trigger handled[0].paths_map().contains_key(q)]
        handled[0].paths_map().contains_key(q) implies paths.contains_key(q)
        && handled[0].paths_map()[q] == paths[q] && !is_touched(root, events, n, q) by {
        lemma_removed_paths(removed, root, events, n, q);
    }
    assert(do_ids_follow(handled[0], paths, root, events));
    lemma_handled_follow(
        old_tree,
        tree,
        paths,
        root,
        events,
        batch.outcomes,
        handled,
        batch.ids,
        n,
    );
    lemma_event_jobs_touched(tree, root, batch);
}

/// The directories that are to be read after events are at the paths of events.
proof fn lemma_event_jobs_touched(tree: FsTree, root: Seq<Seq<char>>, batch: Batch)
    requires
        are_events_handled(batch.handled, batch.ids, root, batch.events, batch.outcomes),
        batch.queues[0] == jobs_of(batch.outcomes),
    ensures
        are_jobs_touched(batch.queues[0], root, batch.events),
{
    let events = batch.events;
    let outcomes = batch.outcomes;
    let jobs = jobs_of(outcomes);
    let at = lemma_jobs_of(outcomes);
    assert forall|j: int| #![trigger jobs[j]] 0 <= j < jobs.len() implies is_touched(
        root,
        events,
        events.len() as int,
        jobs[j].path.comps(),
    ) by {
        let k = at[j];
        assert(outcomes[k].job == Some(jobs[j]));
        let a = batch.handled[k];
        let b = batch.handled[k + 1];
        let id = batch.ids[k];
        let next_id = batch.ids[k + 1];
        assert(is_step(a, root, events[k], id, outcomes[k], b, next_id));
        let path = choose|path: Arc<Path>|
            {
                &&& path.comps() == events[k].path.comps().skip(root.len() as int)
                &&& path@ == text_behind(events[k].path@, root.len() as int)
                &&& #[trigger] is_event_handled(a, path, events[k], id, outcomes[k], b, next_id)
            };
        let q = event_path(root, events[k]);
        assert(jobs[j].path.comps() == q);
        assert(nested_in(q, q)) by {
            assert(q =~= q.subrange(0, q.len() as int));
        }
    }
}

/// Identifiers follow the inodes within a batch of events: an entry at a path that the events touch
/// has the identifier of the entry that had its inode before, where that one stood at a path that
/// they touch too. This holds where no two paths have one inode, before and after.
pub proof fn law_ids_follow_inodes(
    batch: Batch,
    root: Seq<Seq<char>>,
    old_tree: FsTree,
    old_texts: FsTexts,
    tree: FsTree,
    texts: FsTexts,
    outside: Outside,
    before: LocalSnapshot,
    after: LocalSnapshot,
    x: Seq<Seq<char>>,
    y: Seq<Seq<char>>,
)
    requires
        reflects(before, old_tree, old_texts, outside),
        before.removed() == Removed::empty(),
        are_inodes_apart(old_tree),
        are_inodes_apart(tree),
        are_changes_told(old_tree, old_texts, tree, texts, root, batch.events),
        stay_usable(before.root_text(), old_texts, tree, texts),
        is_batch(batch, root, tree, texts, before, after),
        before.paths_map().contains_key(x),
        after.paths_map().contains_key(y),
        is_touched(root, batch.events, batch.events.len() as int, x),
        is_touched(root, batch.events, batch.events.len() as int, y),
        before.paths_map()[x].inode == after.paths_map()[y].inode,
    ensures
        after.paths_map()[y].id@ == before.paths_map()[x].id@,
{
    let last = batch.states.len() - 1;
    lemma_batch_follows(
        batch,
        root,
        old_tree,
        old_texts,
        tree,
        texts,
        outside,
        before,
        after,
    );
    lemma_all_follow(
        tree,
        texts,
        outside,
        before.paths_map(),
        root,
        batch.events,
        batch.states,
        batch.queues,
        batch.taken,
        last,
    );
    assert(batch.states[last] == batch.states.last());
    assert(batch.states.last().paths_map().contains_key(y));
}

/// Whether everything that lay in one path lies in another one in the same way, with the same
/// inodes, and the first path is gone.
pub open spec fn is_renamed(
    old_tree: FsTree,
    tree: FsTree,
    p: Seq<Seq<char>>,
    q: Seq<Seq<char>>,
) -> bool {
    &&& !tree.contains_key(p)
    &&& forall|d: Seq<Seq<char>>| #[trigger]
        old_tree.contains_key(p + d) ==> tree.contains_key(q + d) && tree[q + d].inode
            == old_tree[p + d].inode
}

/// Whether a path is that of an event.
pub open spec fn is_event_path(
    root: Seq<Seq<char>>,
    events: Seq<FsEvent>,
    p: Seq<Seq<char>>,
) -> bool {
    exists|i: int|
        #![trigger events[i]]
        0 <= i < events.len() && nested_in(events[i].path.comps(), root) && event_path(
            root,
            events[i],
        ) == p
}

/// Where no two paths have one inode, a scan comes to everything.
proof fn lemma_all_reached(tree: FsTree, p: Seq<Seq<char>>)
    requires
        is_fs_tree(tree),
        are_inodes_apart(tree),
        tree.contains_key(p),
    ensures
        is_reachable(tree, p),
{
    if p.len() > 0 {
        let up = p.drop_last();
        assert forall|k: int| #![trigger up.take(k)] 1 <= k <= up.len() implies !inodes_to(
            tree,
            up.take(k).drop_last(),
        ).contains(tree[up.take(k)].inode) by {
            let a = up.take(k);
            let d = a.drop_last();
            assert(a =~= p.take(k));
            lemma_above(tree, p, k);
            if inodes_to(tree, d).contains(tree[a].inode) {
                let j = choose|j: int|
                    #![trigger d.take(j)]
                    0 <= j <= d.len() && tree[d.take(j)].inode == tree[a].inode;
                assert(d.take(j) =~= p.take(j));
                lemma_above(tree, p, j);
                assert(tree.contains_key(a) && tree.contains_key(p.take(j)));
                assert(a.len() == k && p.take(j).len() == j);
            }
        }
    }
}

/// What is renamed keeps its identifier, and so does everything that lies in it, where both paths
/// come in one batch of events; and nothing is left at the path that it had. This holds where no
/// two paths have one inode.
pub proof fn law_rename_in_batch_keeps_ids(
    batch: Batch,
    root: Seq<Seq<char>>,
    old_tree: FsTree,
    old_texts: FsTexts,
    tree: FsTree,
    texts: FsTexts,
    outside: Outside,
    before: LocalSnapshot,
    after: LocalSnapshot,
    p: Seq<Seq<char>>,
    q: Seq<Seq<char>>,
    d: Seq<Seq<char>>,
)
    requires
        reflects(before, old_tree, old_texts, outside),
        before.removed() == Removed::empty(),
        are_inodes_apart(old_tree),
        are_inodes_apart(tree),
        are_changes_told(old_tree, old_texts, tree, texts, root, batch.events),
        stay_usable(before.root_text(), old_texts, tree, texts),
        is_batch(batch, root, tree, texts, before, after),
        is_event_path(root, batch.events, p),
        is_event_path(root, batch.events, q),
        is_renamed(old_tree, tree, p, q),
        before.paths_map().contains_key(p + d),
    ensures
        !after.paths_map().contains_key(p),
        after.paths_map().contains_key(q + d),
        after.paths_map()[q + d].id@ == before.paths_map()[p + d].id@,
{
    let events = batch.events;
    let x = p + d;
    let y = q + d;
    law_batch_reflects(
        batch,
        root,
        old_tree,
        old_texts,
        tree,
        texts,
        outside,
        before,
        after,
    );
    law_scan_finds_all(before.paths_map(), old_tree, x);
    lemma_all_reached(tree, y);
    law_scan_finds_all(after.paths_map(), tree, y);
    law_scan_finds_all(after.paths_map(), tree, p);
    assert(nested_in(x, p)) by {
        assert(p =~= x.subrange(0, p.len() as int));
    }
    assert(nested_in(y, q)) by {
        assert(q =~= y.subrange(0, q.len() as int));
    }
    law_ids_follow_inodes(
        batch,
        root,
        old_tree,
        old_texts,
        tree,
        texts,
        outside,
        before,
        after,
        x,
        y,
    );
}

/// The identifiers that events take are numbers of the counter, in order.
proof fn lemma_ids_are_numbers(
    root: Seq<Seq<char>>,
    events: Seq<FsEvent>,
    outcomes: Seq<EventOutcome>,
    handled: Seq<LocalSnapshot>,
    ids: Seq<usize>,
    n: int,
) -> (j: nat)
    requires
        are_events_handled(handled, ids, root, events, outcomes),
        0 <= n <= events.len(),
    ensures
        j <= n,
        ids[n] == nth_number(ids[0], j),
    decreases n,
{
    if n == 0 {
        0
    } else {
        let k = n - 1;
        let j = lemma_ids_are_numbers(root, events, outcomes, handled, ids, k);
        assert(is_step(
            handled[k],
            root,
            events[k],
            ids[k],
            outcomes[k],
            handled[k + 1],
            ids[k + 1],
        ));
        if ids[n] == ids[k] {
            j
        } else {
            let event = events[k];
            let path = choose|path: Arc<Path>|
                {
                    &&& path.comps() == event.path.comps().skip(root.len() as int)
                    &&& path@ == text_behind(event.path@, root.len() as int)
                    &&& #[trigger] is_event_handled(
                        handled[k],
                        path,
                        event,
                        ids[k],
                        outcomes[k],
                        handled[k + 1],
                        ids[k + 1],
                    )
                };
            assert(ids[n] == next_number(ids[k]));
            j + 1
        }
    }
}

/// What comes to the path of an event with an inode that nothing had before gets a new identifier:
/// one of the numbers that the counter gives for the events of the batch.
pub proof fn law_new_inode_takes_new_id(
    batch: Batch,
    root: Seq<Seq<char>>,
    old_tree: FsTree,
    old_texts: FsTexts,
    tree: FsTree,
    texts: FsTexts,
    outside: Outside,
    before: LocalSnapshot,
    after: LocalSnapshot,
    q: Seq<Seq<char>>,
) -> (j: nat)
    requires
        reflects(before, old_tree, old_texts, outside),
        before.removed() == Removed::empty(),
        are_inodes_apart(old_tree),
        are_inodes_apart(tree),
        are_changes_told(old_tree, old_texts, tree, texts, root, batch.events),
        stay_usable(before.root_text(), old_texts, tree, texts),
        is_batch(batch, root, tree, texts, before, after),
        is_event_path(root, batch.events, q),
        tree.contains_key(q),
        forall|x: Seq<Seq<char>>| #[trigger]
            before.paths_map().contains_key(x) ==> before.paths_map()[x].inode != tree[q].inode,
    ensures
        j <= batch.events.len(),
        after.paths_map().contains_key(q),
        after.paths_map()[q].id@ == nth_number(batch.id, j),
{
    let events = batch.events;
    let n = events.len() as int;
    let paths = before.paths_map();
    let removed = batch.removed;
    let handled = batch.handled;
    let ids = batch.ids;
    let outcomes = batch.outcomes;
    let k = choose|k: int|
        #![trigger events[k]]
        0 <= k < events.len() && nested_in(events[k].path.comps(), root) && event_path(
            root,
            events[k],
        ) == q;
    lemma_batch_follows(
        batch,
        root,
        old_tree,
        old_texts,
        tree,
        texts,
        outside,
        before,
        after,
    );
    assert(removed[n] == removed.last());
    assert(handled[n] == handled.last());
    assert(batch.started.paths_map() == paths);
    assert(are_inodes_of(paths, old_tree)) by {
        assert forall|p: Seq<Seq<char>>| #[trigger] paths.contains_key(p) implies old_tree.contains_key(
            p,
        ) && paths[p].inode == old_tree[p].inode by {
            assert(is_reachable(old_tree, p) && tells(paths[p], old_tree[p]));
        }
    }
    lemma_removed_ids(removed, root, events, old_tree, n);
    assert forall|p: Seq<Seq<char>>|
        #![trigger handled[0].paths_map().contains_key(p)]
        handled[0].paths_map().contains_key(p) implies !is_touched(root, events, n, p) by {
        lemma_removed_paths(removed, root, events, n, p);
    }
    assert(!handled[0].removed().contains_key(tree[q].inode)) by {
        if handled[0].removed().contains_key(tree[q].inode) {
            let x = choose|x: Seq<Seq<char>>| #[trigger]
                paths.contains_key(x) && is_touched(root, events, n, x) && paths[x].inode
                    == tree[q].inode;
        }
    }
    lemma_put_keeps_id(tree, root, events, outcomes, handled, ids, k, n);
    let j = lemma_ids_are_numbers(root, events, outcomes, handled, ids, k);
    let last = batch.states.len() - 1;
    lemma_all_follow(
        tree,
        texts,
        outside,
        paths,
        root,
        events,
        batch.states,
        batch.queues,
        batch.taken,
        last,
    );
    assert(batch.states[last] == batch.states.last());
    assert(batch.states[0].paths_map().contains_key(q));
    assert(batch.states.last().paths_map().contains_key(q));
    j
}

/// What the handling of an event puts in keeps the identifier that it got.
proof fn lemma_put_keeps_id(
    tree: FsTree,
    root: Seq<Seq<char>>,
    events: Seq<FsEvent>,
    outcomes: Seq<EventOutcome>,
    handled: Seq<LocalSnapshot>,
    ids: Seq<usize>,
    k: int,
    n: int,
)
    requires
        are_told(tree, root, events),
        are_apart(events),
        are_events_handled(handled, ids, root, events, outcomes),
        forall|q: Seq<Seq<char>>| #[trigger]
            handled[0].paths_map().contains_key(q) ==> !is_touched(
                root,
                events,
                events.len() as int,
                q,
            ),
        0 <= k < events.len(),
        nested_in(events[k].path.comps(), root),
        tree.contains_key(event_path(root, events[k])),
        !handled[0].removed().contains_key(tree[event_path(root, events[k])].inode),
        0 <= n <= events.len(),
    ensures
        !handled[n].removed().contains_key(tree[event_path(root, events[k])].inode),
        n > k ==> {
            let q = event_path(root, events[k]);
            &&& handled[n].paths_map().contains_key(q)
            &&& handled[n].paths_map()[q].id@ == ids[k]
        },
    decreases n,
{
    if n > 0 {
        let i = n - 1;
        let q = event_path(root, events[k]);
        lemma_put_keeps_id(tree, root, events, outcomes, handled, ids, k, i);
        assert(is_step(
            handled[i],
            root,
            events[i],
            ids[i],
            outcomes[i],
            handled[i + 1],
            ids[i + 1],
        ));
        if nested_in(events[i].path.comps(), root) {
            lemma_not_there_yet(tree, root, events, outcomes, handled, ids, i);
        }
        lemma_event_ids(
            handled[i],
            root,
            events[i],
            ids[i],
            outcomes[i],
            handled[i + 1],
            ids[i + 1],
        );
        if i != k && nested_in(events[i].path.comps(), root) && event_path(root, events[i]) == q {
            lemma_event_paths_apart(root, events, i, k);
            assert(nested_in(q, q)) by {
                assert(q =~= q.subrange(0, q.len() as int));
            }
        }
    }
}

/// A rename is followed within one batch of events only: where the path that something had comes
/// in one batch and the path that it has in the next one, it gets a new identifier there. This
/// holds as long as the counter has not come round to the identifier that it had.
pub proof fn law_late_rename_takes_new_id(
    first: Batch,
    second: Batch,
    root: Seq<Seq<char>>,
    trees: Seq<FsTree>,
    texts: Seq<FsTexts>,
    outside: Outside,
    before: LocalSnapshot,
    between: LocalSnapshot,
    after: LocalSnapshot,
    p: Seq<Seq<char>>,
    q: Seq<Seq<char>>,
)
    requires
        trees.len() == 3,
        texts.len() == 3,
        reflects(before, trees[0], texts[0], outside),
        are_inodes_apart(trees[1]),
        are_inodes_apart(trees[2]),
        are_changes_told(trees[0], texts[0], trees[1], texts[1], root, first.events),
        stay_usable(before.root_text(), texts[0], trees[1], texts[1]),
        is_batch(first, root, trees[1], texts[1], before, between),
        are_changes_told(trees[1], texts[1], trees[2], texts[2], root, second.events),
        stay_usable(before.root_text(), texts[1], trees[2], texts[2]),
        is_batch(second, root, trees[2], texts[2], between, after),
        before.paths_map().contains_key(p),
        forall|x: Seq<Seq<char>>| #[trigger]
            trees[1].contains_key(x) ==> trees[1][x].inode != trees[0][p].inode,
        is_event_path(root, second.events, q),
        trees[2].contains_key(q),
        trees[2][q].inode == trees[0][p].inode,
        forall|j: nat|
            j <= second.events.len() ==> #[trigger] nth_number(second.id, j)
                != before.paths_map()[p].id@,
    ensures
        after.paths_map().contains_key(q),
        after.paths_map()[q].inode == before.paths_map()[p].inode,
        after.paths_map()[q].id@ != before.paths_map()[p].id@,
{
    law_batch_reflects(
        first,
        root,
        trees[0],
        texts[0],
        trees[1],
        texts[1],
        outside,
        before,
        between,
    );
    law_batch_reflects(
        second,
        root,
        trees[1],
        texts[1],
        trees[2],
        texts[2],
        outside,
        between,
        after,
    );
    law_scan_finds_all(before.paths_map(), trees[0], p);
    assert forall|x: Seq<Seq<char>>| #[trigger]
        between.paths_map().contains_key(x) implies between.paths_map()[x].inode
        != trees[2][q].inode by {
        law_scan_finds_all(between.paths_map(), trees[1], x);
        assert(trees[1].contains_key(x));
    }
    let j = law_new_inode_takes_new_id(
        second,
        root,
        trees[1],
        texts[1],
        trees[2],
        texts[2],
        outside,
        between,
        after,
        q,
    );
    law_scan_finds_all(after.paths_map(), trees[2], q);
}

} // verus!
