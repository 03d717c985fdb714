//! What does not matter about events: in which order they come, how often, and what comes for
//! paths below that of another one.
use crate::entry::Entry;
use crate::event_laws::{
    are_apart, are_told, event_path, is_put, is_touched, jobs_of, lemma_event_paths_apart,
    lemma_handled_paths, lemma_jobs_of, lemma_removed_paths,
};
use crate::events::{
    are_events_handled, are_paths_removed, is_event_entry, is_event_handled, is_event_job, is_step,
    text_of, EventOutcome, FsEvent,
};
use crate::history_laws::{is_batch, is_begun, to_vec, Batch};
use crate::ignore_laws::{lemma_rules_trimmed, rules_below};
use crate::ignore_stack::gitignore_name;
use crate::local_snapshot::{
    ancestor_inodes, are_repos_touched, is_with_entry, Ignores, LocalSnapshot,
};
use crate::outermost::{are_outermost, is_covered, is_flat, sorted_paths};
use crate::path::{is_absolute_text, nested_in, root_length, Path};
use crate::path_lemmas::{lemma_components_well_named, lemma_nested_transitive};
use crate::path_map::AtPath;
use crate::path_text::{lemma_trimmed, text_behind, trimmed};
use crate::reading_laws::{
    are_jobs_ready, are_jobs_same, is_waiting, law_reading_order_is_free, leads_down, reading_of,
    same_row, shows_same,
};
use crate::reflect_laws::{are_texts_of, are_texts_told, FsTexts};
use crate::scan_laws::{lies_in, FsTree};
use crate::statuses::{
    are_changed_dirs, dir_statuses, fresh_ignores, is_changed_dir, is_stale_dir, lemma_distinct,
    place_of, relative, restate, restated, Statuses,
};
use crate::sum_tree::{
    has_key, lemma_item_with, lemma_key_index, lemma_same_keys, sorted, KeyedItem,
};
use crate::traversal::{after_subtree, lemma_after_subtree};
use std::sync::Arc;
use vstd::prelude::*;

verus! {

/// Whether every one of some paths is one of others or lies below one of them.
#[verifier::opaque]
pub open spec fn are_covered(ps: Seq<Arc<Path>>, by: Seq<Arc<Path>>) -> bool {
    forall|i: int| #![trigger ps[i]] 0 <= i < ps.len() ==> is_covered(ps[i].comps(), by)
}

/// What covers covers what is covered by what it covers.
proof fn lemma_covered_transitive(a: Seq<Arc<Path>>, b: Seq<Arc<Path>>, c: Seq<Arc<Path>>)
    requires
        are_covered(a, b),
        are_covered(b, c),
    ensures
        are_covered(a, c),
{
    reveal(are_covered);
    assert forall|i: int| #![trigger a[i]] 0 <= i < a.len() implies is_covered(a[i].comps(), c) by {
        let j = choose|j: int| #![trigger b[j]] 0 <= j < b.len() && nested_in(a[i].comps(), b[j].comps());
        let k = choose|k: int| #![trigger c[k]] 0 <= k < c.len() && nested_in(b[j].comps(), c[k].comps());
        lemma_nested_transitive(a[i].comps(), b[j].comps(), c[k].comps());
    }
}

/// The outermost of some paths cover them, and are covered by them.
proof fn lemma_outermost_cover(all: Seq<Arc<Path>>, ps: Seq<Arc<Path>>)
    requires
        are_outermost(all, ps),
    ensures
        are_covered(all, ps),
        are_covered(ps, all),
        is_flat(ps),
        sorted_paths(ps),
{
    assert(are_covered(all, ps)) by {
        reveal(are_covered);
    }
    assert(are_covered(ps, all)) by {
        reveal(are_covered);
        assert forall|i: int| #![trigger ps[i]] 0 <= i < ps.len() implies is_covered(
            ps[i].comps(),
            all,
        ) by {
            let p = ps[i].comps();
            let a = choose|a: int| 0 <= a < all.len() && all[a] == ps[i];
            assert(nested_in(p, all[a].comps())) by {
                assert(p =~= p.subrange(0, p.len() as int));
            }
        }
    }
}

/// The path that covers another one.
proof fn lemma_covers(ps: Seq<Arc<Path>>, by: Seq<Arc<Path>>, i: int) -> (j: int)
    requires
        are_covered(ps, by),
        0 <= i < ps.len(),
    ensures
        0 <= j < by.len(),
        nested_in(ps[i].comps(), by[j].comps()),
{
    reveal(are_covered);
    assert(is_covered(ps[i].comps(), by));
    choose|j: int| #![trigger by[j]] 0 <= j < by.len() && nested_in(ps[i].comps(), by[j].comps())
}

/// A path of some that lie apart is one of others, where they cover one another.
proof fn lemma_flat_in(ps: Seq<Arc<Path>>, qs: Seq<Arc<Path>>, i: int) -> (j: int)
    requires
        is_flat(ps),
        are_covered(ps, qs),
        are_covered(qs, ps),
        0 <= i < ps.len(),
    ensures
        0 <= j < qs.len(),
        qs[j].comps() == ps[i].comps(),
{
    let p = ps[i].comps();
    let j = lemma_covers(ps, qs, i);
    let q = qs[j].comps();
    let k = lemma_covers(qs, ps, j);
    lemma_nested_transitive(p, q, ps[k].comps());
    if k != i {
        assert(!nested_in(ps[i].comps(), ps[k].comps()));
    }
    assert(p =~= q) by {
        assert(q =~= p.subrange(0, q.len() as int));
        assert(p =~= q.subrange(0, p.len() as int));
    }
    j
}

/// Two lists of paths that lie apart, stand in order and cover one another are the same.
proof fn lemma_flat_same(ps: Seq<Arc<Path>>, qs: Seq<Arc<Path>>)
    requires
        is_flat(ps),
        is_flat(qs),
        sorted_paths(ps),
        sorted_paths(qs),
        are_covered(ps, qs),
        are_covered(qs, ps),
    ensures
        ps.len() == qs.len(),
        forall|i: int|
            #![trigger ps[i]]
            #![trigger qs[i]]
            0 <= i < ps.len() ==> ps[i].comps() == qs[i].comps(),
{
    let mark = |p: Arc<Path>| AtPath::<()> { path: p, value: () };
    let s = ps.map_values(mark);
    let t = qs.map_values(mark);
    assert(sorted(s)) by {
        assert forall|i: int, j: int| #![trigger s[i], s[j]] 0 <= i < j < s.len() implies AtPath::<
            (),
        >::key_lt(s[i].item_key(), s[j].item_key()) by {
            assert(s[i].path == ps[i] && s[j].path == ps[j]);
        }
    }
    assert(sorted(t)) by {
        assert forall|i: int, j: int| #![trigger t[i], t[j]] 0 <= i < j < t.len() implies AtPath::<
            (),
        >::key_lt(t[i].item_key(), t[j].item_key()) by {
            assert(t[i].path == qs[i] && t[j].path == qs[j]);
        }
    }
    assert forall|p: Seq<Seq<char>>| #![trigger has_key(s, p)] #![trigger has_key(t, p)] has_key(
        s,
        p,
    ) <==> has_key(t, p) by {
        if has_key(s, p) {
            let i = choose|i: int| #![trigger s[i]] 0 <= i < s.len() && s[i].item_key() == p;
            assert(ps[i].comps() == p);
            let j = lemma_flat_in(ps, qs, i);
            assert(t[j].item_key() == p);
        }
        if has_key(t, p) {
            let i = choose|i: int| #![trigger t[i]] 0 <= i < t.len() && t[i].item_key() == p;
            assert(qs[i].comps() == p);
            let j = lemma_flat_in(qs, ps, i);
            assert(s[j].item_key() == p);
        }
    }
    lemma_same_keys(s, t);
    assert forall|i: int|
        #![trigger ps[i]]
        #![trigger qs[i]]
        0 <= i < ps.len() implies ps[i].comps() == qs[i].comps() by {
        assert(s[i].item_key() == t[i].item_key());
    }
}

/// The paths that have to be looked at are settled by what the paths of events cover: they are
/// the same in whatever order the paths come, however often, and whatever comes for paths below
/// them.
pub proof fn law_outermost_are_settled(
    all: Seq<Arc<Path>>,
    other: Seq<Arc<Path>>,
    ps: Seq<Arc<Path>>,
    qs: Seq<Arc<Path>>,
)
    requires
        are_covered(all, other),
        are_covered(other, all),
        are_outermost(all, ps),
        are_outermost(other, qs),
    ensures
        ps.len() == qs.len(),
        forall|i: int|
            #![trigger ps[i]]
            #![trigger qs[i]]
            0 <= i < ps.len() ==> ps[i].comps() == qs[i].comps(),
{
    lemma_outermost_cover(all, ps);
    lemma_outermost_cover(other, qs);
    lemma_covered_transitive(ps, all, other);
    lemma_covered_transitive(ps, other, qs);
    lemma_covered_transitive(qs, other, all);
    lemma_covered_transitive(qs, all, ps);
    lemma_flat_same(ps, qs);
}

/// The paths of events.
pub open spec fn paths_of(events: Seq<FsEvent>) -> Seq<Arc<Path>> {
    events.map_values(|e: FsEvent| e.path)
}

/// Taking out the paths of events leaves snapshots showing the same.
proof fn lemma_removed_same(
    root: Seq<Seq<char>>,
    a: Seq<FsEvent>,
    b: Seq<FsEvent>,
    removed_a: Seq<LocalSnapshot>,
    removed_b: Seq<LocalSnapshot>,
    n: int,
)
    requires
        are_paths_removed(removed_a, root, a),
        are_paths_removed(removed_b, root, b),
        are_paths_same(a, b),
        shows_same(removed_a[0], removed_b[0]),
        0 <= n <= a.len(),
    ensures
        shows_same(removed_a[n], removed_b[n]),
    decreases n,
{
    if n > 0 {
        let k = n - 1;
        lemma_removed_same(root, a, b, removed_a, removed_b, k);
        assert(a[k].path@ == b[k].path@);
        let x = removed_a[k];
        let y = removed_b[k];
        let x1 = removed_a[k + 1];
        let y1 = removed_b[k + 1];
        assert forall|p: Seq<Seq<char>>|
            #![trigger x1.paths_map().contains_key(p)]
            #![trigger y1.paths_map().contains_key(p)]
            {
                &&& x1.paths_map().contains_key(p) <==> y1.paths_map().contains_key(p)
                &&& x1.paths_map().contains_key(p) ==> same_row(
                    x1.paths_map()[p],
                    y1.paths_map()[p],
                )
            } by {
            assert(x.paths_map().contains_key(p) <==> y.paths_map().contains_key(p));
        }
    }
}

/// Whether events are for the same paths.
spec fn are_paths_same(a: Seq<FsEvent>, b: Seq<FsEvent>) -> bool {
    &&& a.len() == b.len()
    &&& forall|i: int|
        #![trigger a[i]]
        #![trigger b[i]]
        0 <= i < a.len() ==> a[i].path@ == b[i].path@
}

/// Whether outcomes leave the same directory to be read.
spec fn is_job_same(a: EventOutcome, b: EventOutcome) -> bool {
    &&& a.job is Some <==> b.job is Some
    &&& a.job is Some ==> {
        &&& a.job->0.path.comps() == b.job->0.path.comps()
        &&& reading_of(a.job->0) == reading_of(b.job->0)
    }
}

/// What is above a path where snapshots show the same.
proof fn lemma_ancestors_same(x: LocalSnapshot, y: LocalSnapshot, p: Seq<Seq<char>>)
    requires
        shows_same(x, y),
    ensures
        ancestor_inodes(x.paths_map(), p) == ancestor_inodes(y.paths_map(), p),
{
    assert forall|n: u64| ancestor_inodes(x.paths_map(), p).contains(n) <==> ancestor_inodes(
        y.paths_map(),
        p,
    ).contains(n) by {
        if ancestor_inodes(x.paths_map(), p).contains(n) {
            let k = choose|k: int|
                #![trigger p.take(k)]
                root_length(p) <= k < p.len() && x.paths_map().contains_key(p.take(k))
                    && x.paths_map()[p.take(k)].inode == n;
            assert(y.paths_map().contains_key(p.take(k)));
        }
        if ancestor_inodes(y.paths_map(), p).contains(n) {
            let k = choose|k: int|
                #![trigger p.take(k)]
                root_length(p) <= k < p.len() && y.paths_map().contains_key(p.take(k))
                    && y.paths_map()[p.take(k)].inode == n;
            assert(x.paths_map().contains_key(p.take(k)));
        }
    }
    assert(ancestor_inodes(x.paths_map(), p) =~= ancestor_inodes(y.paths_map(), p));
}

/// Handling an event leaves snapshots showing the same, and the same directory to be read.
proof fn lemma_step_same(
    tree: FsTree,
    texts: FsTexts,
    root: Seq<Seq<char>>,
    a: Seq<FsEvent>,
    b: Seq<FsEvent>,
    k: int,
    x: LocalSnapshot,
    y: LocalSnapshot,
    id_a: usize,
    id_b: usize,
    out_a: EventOutcome,
    out_b: EventOutcome,
    x1: LocalSnapshot,
    y1: LocalSnapshot,
    next_a: usize,
    next_b: usize,
)
    requires
        are_paths_same(a, b),
        are_told(tree, root, a),
        are_told(tree, root, b),
        are_texts_told(texts, root, a),
        are_texts_told(texts, root, b),
        0 <= k < a.len(),
        shows_same(x, y),
        is_step(x, root, a[k], id_a, out_a, x1, next_a),
        is_step(y, root, b[k], id_b, out_b, y1, next_b),
    ensures
        shows_same(x1, y1),
        is_job_same(out_a, out_b),
{
    let ea = a[k];
    let eb = b[k];
    assert(ea.path@ == eb.path@);
    if nested_in(ea.path.comps(), root) {
        let q = event_path(root, ea);
        assert(ea.metadata == eb.metadata);
        let pa = choose|path: Arc<Path>|
            {
                &&& path.comps() == ea.path.comps().skip(root.len() as int)
                &&& path@ == text_behind(ea.path@, root.len() as int)
                &&& #[trigger] is_event_handled(x, path, ea, id_a, out_a, x1, next_a)
            };
        let pb = choose|path: Arc<Path>|
            {
                &&& path.comps() == eb.path.comps().skip(root.len() as int)
                &&& path@ == text_behind(eb.path@, root.len() as int)
                &&& #[trigger] is_event_handled(y, path, eb, id_b, out_b, y1, next_b)
            };
        if ea.metadata is Some {
            let m = ea.metadata->0;
            let (e, r, xb) = choose|e: Entry, r: Entry, between: LocalSnapshot|
                {
                    &&& #[trigger] is_event_entry(e, x, pa, m, id_a)
                    &&& #[trigger] is_with_entry(x, e, text_of(ea.contents), r, between)
                    &&& x1.snap() == between.snap()
                    &&& x1.ignores() == between.ignores()
                    &&& x1.removed() == between.removed()
                    &&& are_repos_touched(
                        between.repos(),
                        pa.comps(),
                        x.scan(),
                        out_a.reload,
                        x1.repos(),
                    )
                };
            let (f, s, yb) = choose|e: Entry, r: Entry, between: LocalSnapshot|
                {
                    &&& #[trigger] is_event_entry(e, y, pb, m, id_b)
                    &&& #[trigger] is_with_entry(y, e, text_of(eb.contents), r, between)
                    &&& y1.snap() == between.snap()
                    &&& y1.ignores() == between.ignores()
                    &&& y1.removed() == between.removed()
                    &&& are_repos_touched(
                        between.repos(),
                        pb.comps(),
                        y.scan(),
                        out_b.reload,
                        y1.repos(),
                    )
                };
            assert(e.comps() == q && f.comps() == q && r.comps() == q && s.comps() == q);
            assert(x.paths_map().contains_key(q) <==> y.paths_map().contains_key(q));
            assert(same_row(r, s));
            assert(x1.paths_map() == x.paths_map().insert(q, r));
            assert(y1.paths_map() == y.paths_map().insert(q, s));
            assert forall|p: Seq<Seq<char>>|
                #![trigger x1.paths_map().contains_key(p)]
                #![trigger y1.paths_map().contains_key(p)]
                {
                    &&& x1.paths_map().contains_key(p) <==> y1.paths_map().contains_key(p)
                    &&& x1.paths_map().contains_key(p) ==> same_row(
                        x1.paths_map()[p],
                        y1.paths_map()[p],
                    )
                } by {
                assert(x.paths_map().contains_key(p) <==> y.paths_map().contains_key(p));
            }
            assert(x1.ignores() == y1.ignores()) by {
                if crate::local_snapshot::is_ignore_file(e) {
                    assert(q.last() == gitignore_name());
                    assert(text_of(ea.contents) == text_of(eb.contents));
                }
            }
            assert(shows_same(x1, y1));
            lemma_ancestors_same(x1, y1, q);
            if out_a.job is Some {
                assert(is_event_job(out_a.job->0, x, pa, m, x1));
                assert(is_event_job(out_b.job->0, y, pb, m, y1));
                assert(reading_of(out_a.job->0).ancestors =~= reading_of(out_b.job->0).ancestors);
            }
        }
    }
}

/// Handling events leaves snapshots showing the same, and the same directories to be read.
proof fn lemma_handled_same(
    tree: FsTree,
    texts: FsTexts,
    root: Seq<Seq<char>>,
    a: Batch,
    b: Batch,
    n: int,
)
    requires
        are_paths_same(a.events, b.events),
        are_told(tree, root, a.events),
        are_told(tree, root, b.events),
        are_texts_told(texts, root, a.events),
        are_texts_told(texts, root, b.events),
        are_events_handled(a.handled, a.ids, root, a.events, a.outcomes),
        are_events_handled(b.handled, b.ids, root, b.events, b.outcomes),
        shows_same(a.handled[0], b.handled[0]),
        0 <= n <= a.events.len(),
    ensures
        shows_same(a.handled[n], b.handled[n]),
        forall|i: int|
            #![trigger a.outcomes[i]]
            #![trigger b.outcomes[i]]
            0 <= i < n ==> is_job_same(a.outcomes[i], b.outcomes[i]),
    decreases n,
{
    if n > 0 {
        let k = n - 1;
        lemma_handled_same(tree, texts, root, a, b, k);
        assert(a.events[k].path@ == b.events[k].path@);
        assert(is_step(
            a.handled[k],
            root,
            a.events[k],
            a.ids[k],
            a.outcomes[k],
            a.handled[k + 1],
            a.ids[k + 1],
        ));
        assert(is_step(
            b.handled[k],
            root,
            b.events[k],
            b.ids[k],
            b.outcomes[k],
            b.handled[k + 1],
            b.ids[k + 1],
        ));
        lemma_step_same(
            tree,
            texts,
            root,
            a.events,
            b.events,
            k,
            a.handled[k],
            b.handled[k],
            a.ids[k],
            b.ids[k],
            a.outcomes[k],
            b.outcomes[k],
            a.handled[k + 1],
            b.handled[k + 1],
            a.ids[k + 1],
            b.ids[k + 1],
        );
    }
}

/// The directories that are left to be read are the same where each outcome leaves the same.
proof fn lemma_jobs_same(a: Seq<EventOutcome>, b: Seq<EventOutcome>)
    requires
        a.len() == b.len(),
        forall|i: int|
            #![trigger a[i]]
            #![trigger b[i]]
            0 <= i < a.len() ==> is_job_same(a[i], b[i]),
    ensures
        are_jobs_same(jobs_of(a), jobs_of(b)),
    decreases a.len(),
{
    if a.len() > 0 {
        let s = a.drop_last();
        let t = b.drop_last();
        assert forall|i: int| #![trigger s[i]] #![trigger t[i]] 0 <= i < s.len() implies is_job_same(
            s[i],
            t[i],
        ) by {
            assert(s[i] == a[i] && t[i] == b[i]);
        }
        lemma_jobs_same(s, t);
        let n = a.len() - 1;
        assert(is_job_same(a[n], b[n]));
        assert(a[n] == a.last() && b[n] == b.last());
        let x = jobs_of(a);
        let y = jobs_of(b);
        assert forall|j: int| #![trigger x[j]] #![trigger y[j]] 0 <= j < x.len() implies {
            &&& x[j].path.comps() == y[j].path.comps()
            &&& reading_of(x[j]) == reading_of(y[j])
        } by {
            if j < jobs_of(s).len() {
                assert(x[j] == jobs_of(s)[j] && y[j] == jobs_of(t)[j]);
            }
        }
    }
}

/// What lies behind the root in the path of an event leads down from it.
proof fn lemma_behind_leads_down(root: Seq<Seq<char>>, event: FsEvent, path: Arc<Path>)
    requires
        root.len() > 0,
        nested_in(event.path.comps(), root),
        path.comps() == event_path(root, event),
    ensures
        leads_down(path),
{
    let all = event.path.comps();
    let n = root.len() as int;
    let slash: Seq<char> = seq!['/'];
    lemma_components_well_named(event.path@);
    if is_absolute_text(path@) {
        assert(path.comps().len() > 0 && path.comps()[0] == slash);
        assert(slash.contains(slash[0]));
    }
    if path.comps().len() > 0 {
        assert(path.comps()[0] == all[n]);
        assert(crate::path::fits(all[n], n == 0));
    }
}

/// The directories that events leave to be read are there, lie apart, and nothing is known of them
/// yet.
proof fn lemma_jobs_ready(tree: FsTree, root: Seq<Seq<char>>, batch: Batch, before: LocalSnapshot)
    requires
        root.len() > 0,
        are_told(tree, root, batch.events),
        are_apart(batch.events),
        is_begun(batch, root, before),
    ensures
        are_jobs_ready(batch.states[0].paths_map(), batch.queues[0]),
{
    let events = batch.events;
    let outcomes = batch.outcomes;
    let handled = batch.handled;
    let ids = batch.ids;
    let n = events.len() as int;
    let jobs = jobs_of(outcomes);
    let np = batch.states[0].paths_map();
    assert(handled[n] == handled.last());
    assert(batch.removed[n] == batch.removed.last());
    assert forall|q: Seq<Seq<char>>| #[trigger]
        handled[0].paths_map().contains_key(q) implies !is_touched(root, events, n, q) by {
        lemma_removed_paths(batch.removed, root, events, n, q);
    }
    let at = lemma_jobs_of(outcomes);
    assert forall|j: int| #![trigger jobs[j]] 0 <= j < jobs.len() implies {
        &&& is_waiting(np, jobs[j])
        &&& leads_down(jobs[j].path)
        &&& nested_in(events[at[j]].path.comps(), root)
        &&& jobs[j].path.comps() == event_path(root, events[at[j]])
    } by {
        let k = at[j];
        let job = jobs[j];
        assert(outcomes[k].job == Some(job));
        assert(is_step(handled[k], root, events[k], ids[k], outcomes[k], handled[k + 1], ids[k + 1]));
        let q = event_path(root, events[k]);
        let path = choose|path: Arc<Path>|
            {
                &&& path.comps() == events[k].path.comps().skip(root.len() as int)
                &&& path@ == text_behind(events[k].path@, root.len() as int)
                &&& #[trigger] is_event_handled(
                    handled[k],
                    path,
                    events[k],
                    ids[k],
                    outcomes[k],
                    handled[k + 1],
                    ids[k + 1],
                )
            };
        assert(job.path == path);
        lemma_behind_leads_down(root, events[k], path);
        lemma_handled_paths(tree, root, events, outcomes, handled, ids, n, q);
        assert(is_put(tree, root, events, n, q));
        assert forall|p: Seq<Seq<char>>| #[trigger] np.contains_key(p) implies !lies_in(p, q) by {
            lemma_handled_paths(tree, root, events, outcomes, handled, ids, n, p);
            if lies_in(p, q) {
                assert(is_touched(root, events, n, p));
                if is_put(tree, root, events, n, p) {
                    let i = choose|i: int|
                        #![trigger events[i]]
                        0 <= i < n && nested_in(events[i].path.comps(), root) && p == event_path(
                            root,
                            events[i],
                        );
                    if i != k {
                        lemma_event_paths_apart(root, events, i, k);
                    }
                }
            }
        }
    }
    assert forall|i: int, j: int|
        #![trigger jobs[i], jobs[j]]
        0 <= i < jobs.len() && 0 <= j < jobs.len() && i != j implies !nested_in(
        jobs[i].path.comps(),
        jobs[j].path.comps(),
    ) by {
        assert(at[i] != at[j]) by {
            if i < j {
                assert(at[i] < at[j]);
            } else {
                assert(at[j] < at[i]);
            }
        }
        lemma_event_paths_apart(root, events, at[i], at[j]);
    }
}

/// Whether two lists hold entries with the same paths, written alike, and kinds.
spec fn are_alike(s: Seq<Entry>, t: Seq<Entry>) -> bool {
    &&& s.len() == t.len()
    &&& forall|i: int|
        #![trigger s[i]]
        #![trigger t[i]]
        0 <= i < s.len() ==> {
            &&& s[i].path@ == t[i].path@
            &&& s[i].is_file_entry() == t[i].is_file_entry()
        }
}

/// The lists of snapshots that show the same.
proof fn lemma_lists_alike(a: LocalSnapshot, b: LocalSnapshot)
    requires
        a.wf(),
        b.wf(),
        shows_same(a, b),
    ensures
        are_alike(a.snap().list(), b.snap().list()),
        to_vec(a.snap().list()) == to_vec(b.snap().list()),
{
    let s = a.snap().list();
    let t = b.snap().list();
    assert forall|p: Seq<Seq<char>>| #![trigger has_key(s, p)] #![trigger has_key(t, p)] has_key(
        s,
        p,
    ) <==> has_key(t, p) by {
        assert(a.paths_map().contains_key(p) == has_key(s, p));
        assert(b.paths_map().contains_key(p) == has_key(t, p));
    }
    lemma_same_keys(s, t);
    assert forall|i: int| #![trigger s[i]] #![trigger t[i]] 0 <= i < s.len() implies {
        &&& s[i].path@ == t[i].path@
        &&& s[i].is_file_entry() == t[i].is_file_entry()
        &&& s[i].inode == t[i].inode
        &&& s[i].is_ignored == t[i].is_ignored
    } by {
        lemma_item_with(s, i);
        lemma_item_with(t, i);
        assert(a.paths_map().contains_key(s[i].comps()));
    }
    assert(to_vec(s) =~= to_vec(t));
}

/// Where what lies in a path ends is settled by the paths.
proof fn lemma_subtree_alike(s: Seq<Entry>, t: Seq<Entry>, base: Seq<Seq<char>>, from: int)
    requires
        are_alike(s, t),
    ensures
        after_subtree(s, base, from) == after_subtree(t, base, from),
    decreases s.len() - from,
{
    if 0 <= from < s.len() {
        assert(s[from].path@ == t[from].path@);
        if nested_in(s[from].comps(), base) {
            lemma_subtree_alike(s, t, base, from + 1);
        }
    }
}

/// The statuses of entries are settled by their paths and kinds.
proof fn lemma_restate_alike(
    known: Statuses,
    s: Seq<Entry>,
    t: Seq<Entry>,
    ignores: Ignores,
    root: Seq<char>,
    rules: crate::ignore_stack::IgnoreRules,
    from: int,
    to: int,
)
    requires
        are_alike(s, t),
    ensures
        restate(known, s, ignores, root, rules, from, to) == restate(
            known,
            t,
            ignores,
            root,
            rules,
            from,
            to,
        ),
    decreases to - from,
{
    if 0 <= from < to <= s.len() {
        let e = s[from];
        assert(e.path@ == t[from].path@);
        lemma_subtree_alike(s, t, e.comps(), from + 1);
        lemma_after_subtree(s, e.comps(), from + 1);
        let abs = crate::path::join_text(root, e.path@);
        let end = after_subtree(s, e.comps(), from + 1);
        let here = known.insert(
            e.comps(),
            crate::ignore_stack::is_ignored_by(rules, abs, !e.is_file_entry()),
        );
        if end <= to {
            let inner = crate::local_snapshot::rules_in(ignores, rules, abs);
            let inside = if e.is_file_entry() {
                here
            } else {
                restate(here, s, ignores, root, inner, from + 1, end)
            };
            if !e.is_file_entry() {
                lemma_restate_alike(here, s, t, ignores, root, inner, from + 1, end);
            }
            lemma_restate_alike(inside, s, t, ignores, root, rules, end, to);
        }
    }
}

/// The statuses in directories whose ignore files changed are the same where snapshots show the
/// same.
proof fn lemma_statuses_same(
    a: LocalSnapshot,
    b: LocalSnapshot,
    ignores: Ignores,
    dirs_a: Seq<Arc<Path>>,
    dirs_b: Seq<Arc<Path>>,
    n: int,
)
    requires
        a.wf(),
        b.wf(),
        shows_same(a, b),
        dirs_a.len() == dirs_b.len(),
        forall|i: int|
            #![trigger dirs_a[i]]
            #![trigger dirs_b[i]]
            0 <= i < dirs_a.len() ==> trimmed(dirs_a[i]@) == trimmed(dirs_b[i]@),
        forall|i: int|
            #![trigger dirs_a[i]]
            0 <= i < dirs_a.len() ==> a.paths_map().contains_key(relative(a, dirs_a[i].comps())),
        n <= dirs_a.len(),
    ensures
        dir_statuses(a, ignores, dirs_a, n) == dir_statuses(b, ignores, dirs_b, n),
    decreases n,
{
    if n > 0 {
        let s = a.snap().list();
        let t = b.snap().list();
        lemma_statuses_same(a, b, ignores, dirs_a, dirs_b, n - 1);
        lemma_lists_alike(a, b);
        let dir = dirs_a[n - 1].comps();
        let rel = relative(a, dir);
        assert(trimmed(dirs_a[n - 1]@) == trimmed(dirs_b[n - 1]@));
        lemma_trimmed(dirs_a[n - 1]@);
        lemma_trimmed(dirs_b[n - 1]@);
        lemma_rules_trimmed(ignores, dirs_a[n - 1]@, dirs_b[n - 1]@, true);
        assert(dirs_b[n - 1].comps() == dir);
        assert(relative(b, dir) == rel);
        let i = place_of(s, rel);
        let j = place_of(t, rel);
        let k = lemma_key_index(s, rel);
        assert(0 <= i < s.len() && s[i].comps() == rel);
        assert(t[k].comps() == rel);
        assert(0 <= j < t.len() && t[j].comps() == rel);
        if i != j {
            assert(s[j].comps() == rel);
            lemma_distinct(s, i, j);
        }
        lemma_subtree_alike(s, t, rel, i + 1);
        lemma_restate_alike(
            dir_statuses(a, ignores, dirs_a, n - 1),
            s,
            t,
            ignores,
            a.root_text(),
            rules_below(ignores, dirs_a[n - 1]@),
            i + 1,
            after_subtree(s, rel, i + 1),
        );
    }
}

/// Finishing batches leaves snapshots showing the same.
proof fn lemma_finished_same(
    a: LocalSnapshot,
    b: LocalSnapshot,
    dirs_a: Seq<Arc<Path>>,
    dirs_b: Seq<Arc<Path>>,
    after_a: LocalSnapshot,
    after_b: LocalSnapshot,
)
    requires
        a.wf(),
        b.wf(),
        shows_same(a, b),
        are_changed_dirs(a, dirs_a),
        are_changed_dirs(b, dirs_b),
        after_a.snap().same_tree(a.snap()),
        after_b.snap().same_tree(b.snap()),
        after_a.scan() == a.scan(),
        after_b.scan() == b.scan(),
        after_a.ignores() == fresh_ignores(a),
        after_b.ignores() == fresh_ignores(b),
        after_a.paths_map() == restated(
            a.paths_map(),
            dir_statuses(a, fresh_ignores(a), dirs_a, dirs_a.len() as int),
        ),
        after_b.paths_map() == restated(
            b.paths_map(),
            dir_statuses(b, fresh_ignores(b), dirs_b, dirs_b.len() as int),
        ),
    ensures
        shows_same(after_a, after_b),
{
    assert forall|dir: Seq<Seq<char>>|
        #![trigger is_stale_dir(a, dir)]
        #![trigger is_stale_dir(b, dir)]
        is_stale_dir(a, dir) == is_stale_dir(b, dir) by {
        let file = relative(a, dir).push(gitignore_name());
        assert(a.paths_map().contains_key(file) <==> b.paths_map().contains_key(file));
    }
    assert(fresh_ignores(a) =~= fresh_ignores(b));
    assert forall|dir: Seq<Seq<char>>|
        #![trigger is_changed_dir(a, dir)]
        #![trigger is_changed_dir(b, dir)]
        is_changed_dir(a, dir) == is_changed_dir(b, dir) by {
        let d = relative(a, dir);
        assert(a.paths_map().contains_key(d) <==> b.paths_map().contains_key(d));
    }
    assert(are_covered(dirs_a, dirs_b)) by {
        reveal(are_covered);
        assert forall|i: int| #![trigger dirs_a[i]] 0 <= i < dirs_a.len() implies is_covered(
            dirs_a[i].comps(),
            dirs_b,
        ) by {
            assert(is_changed_dir(a, dirs_a[i].comps()));
            assert(is_changed_dir(b, dirs_a[i].comps()));
        }
    }
    assert(are_covered(dirs_b, dirs_a)) by {
        reveal(are_covered);
        assert forall|i: int| #![trigger dirs_b[i]] 0 <= i < dirs_b.len() implies is_covered(
            dirs_b[i].comps(),
            dirs_a,
        ) by {
            assert(is_changed_dir(b, dirs_b[i].comps()));
            assert(is_changed_dir(a, dirs_b[i].comps()));
        }
    }
    lemma_flat_same(dirs_a, dirs_b);
    assert forall|i: int|
        #![trigger dirs_a[i]]
        #![trigger dirs_b[i]]
        0 <= i < dirs_a.len() implies trimmed(dirs_a[i]@) == trimmed(dirs_b[i]@) by {
        assert(dirs_a[i].comps() == dirs_b[i].comps());
        assert(a.ignores()[dirs_a[i].comps()].text == trimmed(dirs_a[i]@));
        assert(b.ignores()[dirs_b[i].comps()].text == trimmed(dirs_b[i]@));
    }
    assert forall|i: int| #![trigger dirs_a[i]] 0 <= i < dirs_a.len() implies a.paths_map().contains_key(
        relative(a, dirs_a[i].comps()),
    ) by {
        assert(is_changed_dir(a, dirs_a[i].comps()));
    }
    lemma_statuses_same(a, b, fresh_ignores(a), dirs_a, dirs_b, dirs_a.len() as int);
    assert forall|p: Seq<Seq<char>>|
        #![trigger after_a.paths_map().contains_key(p)]
        #![trigger after_b.paths_map().contains_key(p)]
        {
            &&& after_a.paths_map().contains_key(p) <==> after_b.paths_map().contains_key(p)
            &&& after_a.paths_map().contains_key(p) ==> same_row(
                after_a.paths_map()[p],
                after_b.paths_map()[p],
            )
        } by {
        assert(a.paths_map().contains_key(p) <==> b.paths_map().contains_key(p));
    }
}

/// Whether the paths that two lists have in common are written alike in both.
pub open spec fn are_written_alike(ps: Seq<Arc<Path>>, qs: Seq<Arc<Path>>) -> bool {
    forall|i: int, j: int|
        #![trigger ps[i], qs[j]]
        0 <= i < ps.len() && 0 <= j < qs.len() && ps[i].comps() == qs[j].comps() ==> ps[i]@
            == qs[j]@
}

/// The order of events, their repetition, and events below others do not matter: where two snapshots
/// show the same, and two batches handle the outermost of two lists of events that cover the same
/// paths while the file system says the same to both, the snapshots that they leave show the same,
/// and list the same paths with the same inodes and statuses. A path is written alike in both lists,
/// and the path of the worktree is not empty.
pub proof fn law_event_order_is_free(
    all: Seq<Arc<Path>>,
    other: Seq<Arc<Path>>,
    a: Batch,
    b: Batch,
    root: Seq<Seq<char>>,
    tree: FsTree,
    texts: FsTexts,
    before_a: LocalSnapshot,
    before_b: LocalSnapshot,
    after_a: LocalSnapshot,
    after_b: LocalSnapshot,
)
    requires
        are_covered(all, other),
        are_covered(other, all),
        are_outermost(all, paths_of(a.events)),
        are_outermost(other, paths_of(b.events)),
        are_written_alike(all, other),
        root.len() > 0,
        are_texts_of(tree, texts),
        are_told(tree, root, a.events),
        are_told(tree, root, b.events),
        are_texts_told(texts, root, a.events),
        are_texts_told(texts, root, b.events),
        shows_same(before_a, before_b),
        is_batch(a, root, tree, texts, before_a, after_a),
        is_batch(b, root, tree, texts, before_b, after_b),
    ensures
        shows_same(after_a, after_b),
        to_vec(after_a.snap().list()) == to_vec(after_b.snap().list()),
{
    let ps = paths_of(a.events);
    let qs = paths_of(b.events);
    let n = a.events.len() as int;
    law_outermost_are_settled(all, other, ps, qs);
    assert forall|i: int|
        #![trigger a.events[i]]
        #![trigger b.events[i]]
        0 <= i < a.events.len() implies a.events[i].path@ == b.events[i].path@ by {
        assert(ps[i] == a.events[i].path && qs[i] == b.events[i].path);
        let x = choose|x: int| 0 <= x < all.len() && all[x] == ps[i];
        let y = choose|y: int| 0 <= y < other.len() && other[y] == qs[i];
        assert(all[x].comps() == other[y].comps());
    }
    lemma_flat_events(a.events);
    lemma_flat_events(b.events);
    assert(shows_same(a.started, b.started)) by {
        assert(a.started.paths_map() == before_a.paths_map());
        assert(b.started.paths_map() == before_b.paths_map());
    }
    lemma_removed_same(root, a.events, b.events, a.removed, b.removed, n);
    assert(a.removed[n] == a.removed.last() && b.removed[n] == b.removed.last());
    lemma_handled_same(tree, texts, root, a, b, n);
    assert(a.handled[n] == a.handled.last() && b.handled[n] == b.handled.last());
    lemma_jobs_same(a.outcomes, b.outcomes);
    lemma_jobs_ready(tree, root, a, before_a);
    lemma_jobs_ready(tree, root, b, before_b);
    law_reading_order_is_free(
        tree,
        texts,
        a.states,
        a.queues,
        a.taken,
        b.states,
        b.queues,
        b.taken,
    );
    lemma_finished_same(a.states.last(), b.states.last(), a.dirs, b.dirs, after_a, after_b);
    lemma_lists_alike(after_a, after_b);
}

/// Events for the outermost of some paths lie apart.
proof fn lemma_flat_events(events: Seq<FsEvent>)
    requires
        is_flat(paths_of(events)),
    ensures
        are_apart(events),
{
    let ps = paths_of(events);
    assert forall|i: int, j: int|
        #![trigger events[i], events[j]]
        0 <= i < events.len() && 0 <= j < events.len() && i != j implies !nested_in(
        events[i].path.comps(),
        events[j].path.comps(),
    ) by {
        assert(ps[i] == events[i].path && ps[j] == events[j].path);
    }
}

} // verus!
