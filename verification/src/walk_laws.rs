//! What holds of walks over the entries of a snapshot as a whole.
use crate::entry::Entry;
use crate::ignore_laws::{has_parents, is_boundary, lemma_boundary_child};
use crate::path::{names_lt, nested_in, Path};
use crate::path_lemmas::{
    lemma_names_lt_asymmetric, lemma_names_lt_irreflexive, lemma_names_lt_total,
    lemma_nested_is_block, lemma_nested_transitive,
};
use crate::snapshot::Snapshot;
use crate::statuses::{is_inside, lemma_inside_ends, lemma_inside_entry};
use crate::sum_tree::{by_key, lemma_item_with, lemma_key_index, sorted};
use crate::traversal::{
    after_subtree, included, is_next, is_next_child, lemma_after_subtree, lemma_walk_bounds, passes,
    seek_index, sibling_index, Bias, ChildEntriesIter, Traversal, TraversalTarget,
};
use std::sync::Arc;
use vstd::prelude::*;

verus! {

/// A walk that goes on until it gives nothing more has given every entry at which it stops, from
/// the place on at which it began, each once and in order.
pub proof fn law_walk_gives_stops(walks: Seq<Traversal<'_>>, given: Seq<Option<Entry>>)
    requires
        given.len() > 0,
        walks.len() == given.len() + 1,
        walks[0].settled(),
        forall|i: int|
            #![trigger given[i]]
            0 <= i < given.len() ==> is_next(walks[i], given[i], walks[i + 1]),
        forall|i: int| #![trigger given[i]] 0 <= i < given.len() ==> (given[i] is None <==> i == given.len() - 1),
    ensures
        walks[0].passed() + given.len() - 1 == walks[0].stops().len(),
        forall|i: int|
            #![trigger given[i]]
            0 <= i < given.len() - 1 ==> given[i] == Some(
                walks[0].stops()[walks[0].passed() + i],
            ),
{
    let n = given.len() - 1;
    assert forall|i: int| #![trigger given[i]] 0 <= i <= n implies {
        &&& walks[i].same_walk(walks[0])
        &&& walks[i].settled()
        &&& walks[i].passed() == walks[0].passed() + i
        &&& i < n ==> given[i] == Some(walks[0].stops()[walks[0].passed() + i])
    } by {
        lemma_walk_step(walks, given, i);
    }
    assert(given[n] is None);
    assert(is_next(walks[n], given[n], walks[n + 1]));
}

/// Where a walk is after some steps.
proof fn lemma_walk_step(walks: Seq<Traversal<'_>>, given: Seq<Option<Entry>>, i: int)
    requires
        0 <= i < given.len(),
        walks.len() == given.len() + 1,
        walks[0].settled(),
        forall|i: int|
            #![trigger given[i]]
            0 <= i < given.len() ==> is_next(walks[i], given[i], walks[i + 1]),
        forall|i: int| #![trigger given[i]] 0 <= i < given.len() ==> (given[i] is None <==> i == given.len() - 1),
    ensures
        walks[i].same_walk(walks[0]),
        walks[i].settled(),
        walks[i].passed() == walks[0].passed() + i,
        i < given.len() - 1 ==> given[i] == Some(walks[0].stops()[walks[0].passed() + i]),
    decreases i,
{
    if i > 0 {
        lemma_walk_step(walks, given, i - 1);
        assert(is_next(walks[i - 1], given[i - 1], walks[i]));
    }
    assert(is_next(walks[i], given[i], walks[i + 1]));
}

/// Whether a list of children is gone through from its beginning to its end: `lists[i]` gives the
/// child `given[i]`, and the last one gives nothing.
pub open spec fn are_children_given(lists: Seq<ChildEntriesIter<'_>>, given: Seq<Entry>) -> bool {
    let s = lists[0].items();
    let parent = lists[0].parent();
    let start = lists[0].index();
    &&& lists.len() == given.len() + 2
    &&& 0 <= start <= s.len()
    &&& forall|j: int| #![trigger s[j]] 0 <= j < start ==> names_lt(s[j].comps(), parent) || s[j].comps()
        == parent
    &&& forall|j: int| #![trigger s[j]] start <= j < s.len() ==> names_lt(parent, s[j].comps())
    &&& forall|i: int|
        #![trigger given[i]]
        0 <= i < given.len() ==> is_next_child(lists[i], Some(given[i]), lists[i + 1])
    &&& is_next_child(lists[given.len() as int], None, lists.last())
}

/// The children that are given are the entries that lie directly in the path: each once, in
/// order, and no others. This holds where the parent of every entry is there.
pub proof fn law_children_are_direct(lists: Seq<ChildEntriesIter<'_>>, given: Seq<Entry>)
    requires
        sorted(lists[0].items()),
        has_parents(by_key(lists[0].items())),
        are_children_given(lists, given),
    ensures
        sorted(given),
        forall|p: Seq<Seq<char>>|
            #![trigger by_key(given).contains_key(p)]
            {
                let paths = by_key(lists[0].items());
                let parent = lists[0].parent();
                &&& by_key(given).contains_key(p) <==> paths.contains_key(p) && nested_in(
                    p,
                    parent,
                ) && p.len() == parent.len() + 1
                &&& by_key(given).contains_key(p) ==> by_key(given)[p] == paths[p]
            },
{
    let s = lists[0].items();
    let parent = lists[0].parent();
    let start = lists[0].index();
    let to = after_subtree(s, parent, start);
    lemma_inside_path(s, parent, start);
    let n = given.len() as int;
    assert forall|i: int| #![trigger given[i]] 0 <= i < n implies {
        &&& start <= lists[i].index() < to
        &&& given[i] == s[lists[i].index()]
        &&& given[i].comps().len() == parent.len() + 1
        &&& lists[i].index() < lists[i + 1].index()
    } by {
        lemma_child_step(lists, given, i);
        assert(is_next_child(lists[i], Some(given[i]), lists[i + 1]));
        lemma_boundary_child(s, parent, start, lists[i].index(), to);
        lemma_inside_entry(s, lists[i].index());
        lemma_after_subtree(s, given[i].comps(), lists[i].index() + 1);
    }
    assert forall|i: int, j: int| 0 <= i < j < n implies names_lt(
        #[trigger] given[i].comps(),
        #[trigger] given[j].comps(),
    ) by {
        lemma_child_order(lists, given, i, j);
    }
    assert(sorted(given)) by {
        assert forall|i: int, j: int|
            #![trigger given[i], given[j]]
            0 <= i < j < given.len() implies names_lt(given[i].comps(), given[j].comps()) by {
            lemma_child_order(lists, given, i, j);
        }
    }
    lemma_child_step(lists, given, n);
    assert(lists[n].index() == to);
    assert forall|p: Seq<Seq<char>>| #![trigger by_key(given).contains_key(p)] {
        let paths = by_key(s);
        &&& by_key(given).contains_key(p) <==> paths.contains_key(p) && nested_in(p, parent)
            && p.len() == parent.len() + 1
        &&& by_key(given).contains_key(p) ==> by_key(given)[p] == paths[p]
    } by {
        let paths = by_key(s);
        if by_key(given).contains_key(p) {
            let i = lemma_key_index(given, p);
            lemma_item_with(given, i);
            assert(given[i].comps() == p);
            lemma_item_with(s, lists[i].index());
            assert(nested_in(s[lists[i].index()].comps(), parent));
        }
        if paths.contains_key(p) && nested_in(p, parent) && p.len() == parent.len() + 1 {
            let k = lemma_key_index(s, p);
            if k < start {
                crate::path_lemmas::lemma_nested_is_after(p, parent);
                if names_lt(p, parent) {
                    crate::path_lemmas::lemma_names_lt_asymmetric(p, parent);
                }
            }
            assert(start <= k < to);
            let i = lemma_child_found(lists, given, n, k);
            lemma_item_with(given, i);
        }
    }
}

/// What lies in a path, where it is known where the path stands.
proof fn lemma_inside_path(s: Seq<Entry>, base: Seq<Seq<char>>, start: int)
    requires
        sorted(s),
        0 <= start <= s.len(),
        forall|j: int| #![trigger s[j]] 0 <= j < start ==> names_lt(s[j].comps(), base) || s[j].comps()
            == base,
        forall|j: int| #![trigger s[j]] start <= j < s.len() ==> names_lt(base, s[j].comps()),
    ensures
        is_inside(s, base, start, after_subtree(s, base, start)),
{
    let to = after_subtree(s, base, start);
    lemma_after_subtree(s, base, start);
    assert forall|j: int| #![trigger s[j]] start <= j < s.len() implies (nested_in(
        s[j].comps(),
        base,
    ) <==> j < to) by {
        if j > to && nested_in(s[j].comps(), base) {
            assert(names_lt(base, s[to].comps()));
            lemma_nested_is_block(base, s[to].comps(), s[j].comps());
        }
    }
}

/// Where a list of children is after some steps.
proof fn lemma_child_step(lists: Seq<ChildEntriesIter<'_>>, given: Seq<Entry>, i: int)
    requires
        sorted(lists[0].items()),
        are_children_given(lists, given),
        0 <= i <= given.len(),
    ensures
        ({
            let s = lists[0].items();
            let start = lists[0].index();
            let to = after_subtree(s, lists[0].parent(), start);
            &&& lists[i].items() == s
            &&& lists[i].parent() == lists[0].parent()
            &&& start <= lists[i].index() <= to
            &&& lists[i].index() < to <==> i < given.len()
            &&& is_boundary(s, start, lists[i].index(), to)
        }),
    decreases i,
{
    let s = lists[0].items();
    let parent = lists[0].parent();
    let start = lists[0].index();
    let to = after_subtree(s, parent, start);
    lemma_inside_path(s, parent, start);
    if i > 0 {
        lemma_child_step(lists, given, i - 1);
        let f = lists[i - 1].index();
        assert(is_next_child(lists[i - 1], Some(given[i - 1]), lists[i]));
        let c = s[f].comps();
        lemma_inside_entry(s, f);
        lemma_inside_ends(s, parent, start, to, f);
        let end = lists[i].index();
        assert forall|a: int, b: int|
            #![trigger s[a], s[b]]
            start <= a < end <= b < to implies !nested_in(s[b].comps(), s[a].comps()) by {
            if a > f {
                if nested_in(s[b].comps(), s[a].comps()) {
                    assert(nested_in(s[a].comps(), c));
                    lemma_nested_transitive(s[b].comps(), s[a].comps(), c);
                }
            }
        }
    }
    if i < given.len() {
        assert(is_next_child(lists[i], Some(given[i]), lists[i + 1]));
    } else {
        assert(is_next_child(lists[i], None, lists[i + 1]));
    }
}

/// Children stand in order.
proof fn lemma_child_order(lists: Seq<ChildEntriesIter<'_>>, given: Seq<Entry>, i: int, j: int)
    requires
        sorted(lists[0].items()),
        are_children_given(lists, given),
        0 <= i < j < given.len(),
    ensures
        lists[i].index() < lists[j].index(),
        names_lt(given[i].comps(), given[j].comps()),
    decreases j,
{
    let s = lists[0].items();
    lemma_child_step(lists, given, i);
    lemma_child_step(lists, given, j);
    lemma_child_step(lists, given, j - 1);
    assert(is_next_child(lists[i], Some(given[i]), lists[i + 1]));
    assert(is_next_child(lists[j], Some(given[j]), lists[j + 1]));
    assert(is_next_child(lists[j - 1], Some(given[j - 1]), lists[j]));
    let f = lists[j - 1].index();
    lemma_inside_entry(s, f);
    lemma_after_subtree(s, s[f].comps(), f + 1);
    if i < j - 1 {
        lemma_child_order(lists, given, i, j - 1);
    }
    assert(names_lt(s[lists[i].index()].comps(), s[lists[j].index()].comps()));
}

/// An entry that lies directly in the path is one of the children.
proof fn lemma_child_found(
    lists: Seq<ChildEntriesIter<'_>>,
    given: Seq<Entry>,
    n: int,
    k: int,
) -> (i: int)
    requires
        sorted(lists[0].items()),
        are_children_given(lists, given),
        0 <= n <= given.len(),
        lists[0].index() <= k < lists[n].index(),
        k < lists[0].items().len(),
        lists[0].items()[k].comps().len() == lists[0].parent().len() + 1,
    ensures
        0 <= i < given.len(),
        given[i] == lists[0].items()[k],
    decreases n,
{
    let s = lists[0].items();
    let parent = lists[0].parent();
    let start = lists[0].index();
    let to = after_subtree(s, parent, start);
    lemma_inside_path(s, parent, start);
    lemma_child_step(lists, given, n - 1);
    let f = lists[n - 1].index();
    assert(is_next_child(lists[n - 1], Some(given[n - 1]), lists[n]));
    if k < f {
        lemma_child_found(lists, given, n - 1, k)
    } else if k == f {
        n - 1
    } else {
        let c = s[f].comps();
        lemma_inside_entry(s, f);
        assert(nested_in(s[k].comps(), c));
        assert(nested_in(c, parent));
        crate::statuses::lemma_distinct(s, k, f);
        assert(c.len() > parent.len()) by {
            if c.len() == parent.len() {
                assert(c.subrange(0, parent.len() as int) =~= c);
                crate::path_lemmas::lemma_names_lt_irreflexive(parent);
            }
        }
        assert(s[k].comps() =~= c) by {
            assert(s[k].comps().subrange(0, c.len() as int) =~= s[k].comps());
        }
        n - 1
    }
}

/// The children of a path, each followed by its own children in the same way, from a place on.
pub open spec fn by_children(s: Seq<Entry>, parent: Seq<Seq<char>>, from: int) -> Seq<Entry>
    decreases s.len() - from,
{
    if 0 <= from < s.len() && nested_in(s[from].comps(), parent) {
        let end = after_subtree(s, s[from].comps(), from + 1);
        proof {
            lemma_after_subtree(s, s[from].comps(), from + 1);
        }
        seq![s[from]] + by_children(s, s[from].comps(), from + 1) + by_children(s, parent, end)
    } else {
        Seq::empty()
    }
}

/// Going from children to children gives the entries in the order of their paths.
pub proof fn law_children_in_order(s: Seq<Entry>, parent: Seq<Seq<char>>, start: int)
    requires
        sorted(s),
        0 <= start <= s.len(),
        forall|j: int| #![trigger s[j]] 0 <= j < start ==> names_lt(s[j].comps(), parent) || s[j].comps()
            == parent,
        forall|j: int| #![trigger s[j]] start <= j < s.len() ==> names_lt(parent, s[j].comps()),
    ensures
        by_children(s, parent, start) == s.subrange(start, after_subtree(s, parent, start)),
{
    lemma_inside_path(s, parent, start);
    lemma_by_children(s, parent, start, start, after_subtree(s, parent, start));
}

proof fn lemma_by_children(
    s: Seq<Entry>,
    parent: Seq<Seq<char>>,
    start: int,
    from: int,
    to: int,
)
    requires
        sorted(s),
        is_inside(s, parent, start, to),
        start <= from <= to,
    ensures
        by_children(s, parent, from) == s.subrange(from, to),
    decreases s.len() - from,
{
    if from < to {
        let c = s[from].comps();
        let end = after_subtree(s, c, from + 1);
        lemma_inside_entry(s, from);
        lemma_inside_ends(s, parent, start, to, from);
        lemma_by_children(s, c, from + 1, from + 1, end);
        lemma_by_children(s, parent, start, end, to);
        assert(seq![s[from]] + s.subrange(from + 1, end) + s.subrange(end, to) =~= s.subrange(
            from,
            to,
        ));
    } else {
        assert(by_children(s, parent, from) =~= Seq::empty());
        assert(s.subrange(from, to) =~= Seq::empty());
    }
}

/// Going on to a path goes past the entries that come before it, and no others; with a bias to the
/// right past its own too.
pub proof fn law_seek_stops_at_path<'a>(
    t: &mut Traversal<'a>,
    path: Arc<Path>,
    bias: Bias,
    r: bool,
    j: int,
)
    requires
        call_ensures(Traversal::seek_forward, (t, &TraversalTarget::Path(path), bias), r),
        old(t).wf(),
        0 <= j < old(t).items().len(),
    ensures
        ({
            let s = old(t).items();
            let p = path.comps();
            let past = names_lt(s[j].comps(), p) || (s[j].comps() == p && bias is Right);
            &&& final(t).items() == s
            &&& old(t).index() <= final(t).index() <= s.len()
            &&& old(t).index() <= j < final(t).index() ==> past
            &&& j == final(t).index() ==> !past
        }),
{
    lemma_walk_bounds(*old(t));
    let s = old(t).items();
    let target = TraversalTarget::Path(path);
    lemma_seek(s, target, bias, old(t).index());
    lemma_names_lt_total(s[j].comps(), path.comps());
    if names_lt(s[j].comps(), path.comps()) && names_lt(path.comps(), s[j].comps()) {
        lemma_names_lt_asymmetric(s[j].comps(), path.comps());
    }
    lemma_names_lt_irreflexive(path.comps());
}

/// Going on past what lies in a path goes past just that.
pub proof fn law_seek_passes_subtree<'a>(t: &mut Traversal<'a>, path: Arc<Path>, r: bool, j: int)
    requires
        call_ensures(
            Traversal::seek_forward,
            (t, &TraversalTarget::PathSuccessor(path), Bias::Left),
            r,
        ),
        old(t).wf(),
        0 <= j < old(t).items().len(),
    ensures
        ({
            let s = old(t).items();
            &&& old(t).index() <= final(t).index() <= s.len()
            &&& old(t).index() <= j < final(t).index() ==> nested_in(s[j].comps(), path.comps())
            &&& j == final(t).index() ==> !nested_in(s[j].comps(), path.comps())
        }),
{
    lemma_walk_bounds(*old(t));
    lemma_seek(old(t).items(), TraversalTarget::PathSuccessor(path), Bias::Left, old(t).index());
}

proof fn lemma_seek(s: Seq<Entry>, t: TraversalTarget, bias: Bias, from: int)
    requires
        0 <= from <= s.len(),
    ensures
        from <= seek_index(s, t, bias, from) <= s.len(),
        forall|j: int|
            #![trigger s[j]]
            from <= j < seek_index(s, t, bias, from) ==> passes(s, t, bias, j),
        seek_index(s, t, bias, from) < s.len() ==> !passes(s, t, bias, seek_index(s, t, bias, from)),
    decreases s.len() - from,
{
    if from < s.len() && passes(s, t, bias, from) {
        lemma_seek(s, t, bias, from + 1);
    }
}

/// Going on to a sibling stops at an entry that is included and does not lie in the one before, and
/// goes past only what lies in that one or in one that is not included.
pub proof fn law_sibling_lies_outside<'a>(t: &mut Traversal<'a>, r: bool, k: int)
    requires
        call_ensures(Traversal::advance_to_sibling, (t,), r),
        old(t).wf(),
        old(t).index() < old(t).items().len(),
    ensures
        ({
            let s = old(t).items();
            let i = old(t).index();
            let j = final(t).index();
            &&& i < j <= s.len()
            &&& r <==> j < s.len()
            &&& r ==> !nested_in(s[j].comps(), s[i].comps())
            &&& r && !old(t).takes_dirs() ==> s[j].kind is File
            &&& r && !old(t).takes_ignored() ==> !s[j].is_ignored
            &&& i < k < j ==> exists|m: int|
                #![trigger s[m]]
                i <= m <= k && nested_in(s[k].comps(), s[m].comps()) && (m == i || !included(
                    s[m],
                    old(t).takes_dirs(),
                    old(t).takes_ignored(),
                ))
        }),
{
    lemma_walk_bounds(*old(t));
    lemma_sibling(
        old(t).items(),
        old(t).takes_dirs(),
        old(t).takes_ignored(),
        old(t).index(),
        old(t).index(),
        k,
    );
}

proof fn lemma_sibling(s: Seq<Entry>, dirs: bool, ignored: bool, from: int, i: int, k: int)
    requires
        sorted(s),
        0 <= from <= i < s.len(),
        i > from ==> !nested_in(s[i].comps(), s[from].comps()),
    ensures
        ({
            let j = sibling_index(s, dirs, ignored, i);
            &&& i < j <= s.len()
            &&& j < s.len() ==> !nested_in(s[j].comps(), s[from].comps()) && included(s[j], dirs, ignored)
            &&& i < k < j ==> exists|m: int|
                #![trigger s[m]]
                i <= m <= k && nested_in(s[k].comps(), s[m].comps()) && (m == i || !included(
                    s[m],
                    dirs,
                    ignored,
                ))
        }),
    decreases s.len() - i,
{
    let c = s[i].comps();
    assert(nested_in(c, c)) by {
        assert(c =~= c.subrange(0, c.len() as int));
    }
    let j = after_subtree(s, c, i);
    lemma_after_subtree(s, c, i);
    assert(j > i) by {
        lemma_after_subtree(s, c, i + 1);
    }
    if j < s.len() {
        lemma_stays_outside(s, from, i, j);
        if !included(s[j], dirs, ignored) {
            lemma_sibling(s, dirs, ignored, from, j, k);
            let t = sibling_index(s, dirs, ignored, j);
            if i < k < t {
                if k < j {
                    assert(nested_in(s[k].comps(), s[i].comps()));
                } else if k == j {
                    let b = s[j].comps();
                    assert(b =~= b.subrange(0, b.len() as int));
                    assert(nested_in(s[k].comps(), s[j].comps()));
                } else {
                    let m = choose|m: int|
                        #![trigger s[m]]
                        j <= m <= k && nested_in(s[k].comps(), s[m].comps()) && (m == j || !included(
                            s[m],
                            dirs,
                            ignored,
                        ));
                    assert(i <= m <= k && nested_in(s[k].comps(), s[m].comps()));
                }
            }
        } else if i < k < j {
            assert(nested_in(s[k].comps(), s[i].comps()));
        }
    } else {
        assert(sibling_index(s, dirs, ignored, j) == j);
        if i < k < j {
            assert(nested_in(s[k].comps(), s[i].comps()));
        }
    }
}

/// What comes behind an entry that lies outside another one, or is it, and lies outside that entry,
/// lies outside the other one too.
proof fn lemma_stays_outside(s: Seq<Entry>, from: int, i: int, j: int)
    requires
        sorted(s),
        0 <= from <= i < j < s.len(),
        i > from ==> !nested_in(s[i].comps(), s[from].comps()),
        i == from ==> !nested_in(s[j].comps(), s[i].comps()),
    ensures
        !nested_in(s[j].comps(), s[from].comps()),
{
    if i > from && nested_in(s[j].comps(), s[from].comps()) {
        assert(names_lt(s[from].comps(), s[i].comps()));
        assert(names_lt(s[i].comps(), s[j].comps()));
        lemma_nested_is_block(s[from].comps(), s[i].comps(), s[j].comps());
    }
}

/// Where walks stop: one over files at files, and one over entries at all, but for those that are
/// ignored where these are left out. A walk that begins at an offset has as many stops behind it, or is
/// at its end where there are not more than that.
pub proof fn law_walks_stop_at_what_is_asked_for<'a>(
    s: &'a Snapshot,
    include_ignored: bool,
    start: usize,
    files: Traversal<'a>,
    entries: Traversal<'a>,
)
    requires
        call_ensures(Snapshot::files, (s, include_ignored, start), files),
        call_ensures(Snapshot::entries, (s, include_ignored), entries),
    ensures
        files.stops() == s.list().filter(
            |e: Entry| e.kind is File && (include_ignored || !e.is_ignored),
        ),
        entries.stops() == s.list().filter(|e: Entry| include_ignored || !e.is_ignored),
        files.index() < s.list().len() <==> start < files.stops().len(),
        files.index() < s.list().len() ==> files.passed() == start,
        entries.passed() == 0,
{
    assert((|e: Entry| included(e, false, include_ignored)) =~= (|e: Entry|
        e.kind is File && (include_ignored || !e.is_ignored)));
    assert((|e: Entry| included(e, true, include_ignored)) =~= (|e: Entry|
        include_ignored || !e.is_ignored));
}

} // verus!
