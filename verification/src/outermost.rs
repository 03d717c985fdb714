//! The outermost of a number of paths.
use crate::path::{names_lt, nested_in, Path};
use crate::path_lemmas::{lemma_names_lt_asymmetric, lemma_nested_is_after, lemma_nested_is_block};
use crate::path_map::AtPath;
use crate::sum_tree::{by_key, has_key, lemma_item_with, lemma_key_index, KeyedItem, SumTree};
use std::sync::Arc;
use vstd::prelude::*;

verus! {

/// Whether paths stand in order, none twice.
pub open spec fn sorted_paths(ps: Seq<Arc<Path>>) -> bool {
    forall|i: int, j: int|
        #![trigger ps[i], ps[j]]
        0 <= i < j < ps.len() ==> names_lt(ps[i].comps(), ps[j].comps())
}

/// Whether a path is among others.
pub open spec fn is_among(p: Seq<Seq<char>>, ps: Seq<Arc<Path>>) -> bool {
    exists|i: int| #![trigger ps[i]] 0 <= i < ps.len() && ps[i].comps() == p
}

/// Whether a path is one of others or lies below one of them.
pub open spec fn is_covered(p: Seq<Seq<char>>, ps: Seq<Arc<Path>>) -> bool {
    exists|i: int| #![trigger ps[i]] 0 <= i < ps.len() && nested_in(p, ps[i].comps())
}

/// Whether no path lies below another one.
pub open spec fn is_flat(ps: Seq<Arc<Path>>) -> bool {
    forall|i: int, j: int|
        #![trigger ps[i], ps[j]]
        0 <= i < ps.len() && 0 <= j < ps.len() && i != j ==> !nested_in(
            ps[i].comps(),
            ps[j].comps(),
        )
}

/// Whether paths are the outermost of others: they are some of them, stand in order, none lies
/// below another, and each of the others lies below one of them.
pub open spec fn are_outermost(all: Seq<Arc<Path>>, ps: Seq<Arc<Path>>) -> bool {
    &&& sorted_paths(ps)
    &&& is_flat(ps)
    &&& forall|i: int| #![trigger ps[i]] 0 <= i < ps.len() ==> all.contains(ps[i])
    &&& forall|i: int| #![trigger all[i]] 0 <= i < all.len() ==> is_covered(all[i].comps(), ps)
}

/// Puts paths in order and drops the repeated ones.
fn sort_paths(paths: Vec<Arc<Path>>) -> (r: Vec<Arc<Path>>)
    ensures
        sorted_paths(r@),
        forall|i: int| #![trigger r@[i]] 0 <= i < r@.len() ==> paths@.contains(r@[i]),
        forall|p: Seq<Seq<char>>| #![trigger is_among(p, r@)] is_among(p, r@) <==> is_among(p, paths@),
{
    let mut tree: SumTree<AtPath<()>> = SumTree::new();
    let ghost all = paths@;
    assert forall|p: Seq<Seq<char>>| #![trigger by_key(tree@).contains_key(p)] by_key(
        tree@,
    ).contains_key(p) <==> is_among(p, all.take(0)) by {
    }
    for path in it: paths
        invariant
            it.seq() == all,
            tree.wf(),
            forall|p: Seq<Seq<char>>|
                #![trigger by_key(tree@).contains_key(p)]
                {
                    &&& by_key(tree@).contains_key(p) <==> is_among(p, all.take(it.index()))
                    &&& by_key(tree@).contains_key(p) ==> all.contains(by_key(tree@)[p].path)
                },
    {
        let ghost k = it.index();
        let ghost before = by_key(tree@);
        let ghost c = path.comps();
        assert(all[k] == path);
        let _ = tree.insert_or_replace(AtPath { path, value: () });
        assert forall|p: Seq<Seq<char>>| #![trigger by_key(tree@).contains_key(p)] {
            &&& by_key(tree@).contains_key(p) <==> is_among(p, all.take(k + 1))
            &&& by_key(tree@).contains_key(p) ==> all.contains(by_key(tree@)[p].path)
        } by {
            let a = all.take(k);
            let b = all.take(k + 1);
            assert(before.contains_key(p) <==> is_among(p, a));
            if is_among(p, a) {
                let i = choose|i: int| #![trigger a[i]] 0 <= i < a.len() && a[i].comps() == p;
                assert(b[i] == a[i]);
            }
            if is_among(p, b) {
                let i = choose|i: int| #![trigger b[i]] 0 <= i < b.len() && b[i].comps() == p;
                if i < k {
                    assert(a[i] == b[i]);
                }
            }
            assert(b[k] == path);
        }
    }
    assert(all.take(all.len() as int) =~= all);
    let mut r: Vec<Arc<Path>> = Vec::new();
    let ghost s = tree@;
    let mut i: usize = 0;
    while i < tree.len()
        invariant
            i <= s.len(),
            s == tree@,
            r@.len() == i,
            forall|k: int| #![trigger r@[k]] 0 <= k < i ==> r@[k] == s[k].path,
        decreases s.len() - i,
    {
        r.push(tree.item(i).path.clone());
        i = i + 1;
    }
    proof {
        assert forall|a: int| #![trigger r@[a]] 0 <= a < r@.len() implies all.contains(r@[a]) by {
            lemma_item_with(s, a);
        }
        assert forall|a: int, b: int| #![trigger r@[a], r@[b]] 0 <= a < b < r@.len() implies names_lt(
            r@[a].comps(),
            r@[b].comps(),
        ) by {
            assert(AtPath::<()>::key_lt(s[a].item_key(), s[b].item_key()));
        }
        assert forall|p: Seq<Seq<char>>| #![trigger is_among(p, r@)] is_among(p, r@) <==> is_among(
            p,
            all,
        ) by {
            assert(by_key(s).contains_key(p) <==> is_among(p, all));
            assert(by_key(s).contains_key(p) == has_key(s, p));
            if is_among(p, r@) {
                let k = choose|k: int| #![trigger r@[k]] 0 <= k < r@.len() && r@[k].comps() == p;
                assert(s[k].item_key() == p);
            }
            if has_key(s, p) {
                let k = lemma_key_index(s, p);
                assert(r@[k].comps() == p);
            }
        }
    }
    r
}

/// The outermost of a number of paths, in order.
pub fn outermost(paths: Vec<Arc<Path>>) -> (r: Vec<Arc<Path>>)
    ensures
        are_outermost(paths@, r@),
{
    let ghost all = paths@;
    let ordered = sort_paths(paths);
    let ghost s = ordered@;
    let mut r: Vec<Arc<Path>> = Vec::new();
    let mut i: usize = 0;
    while i < ordered.len()
        invariant
            i <= ordered.len(),
            s == ordered@,
            sorted_paths(s),
            forall|p: Seq<Seq<char>>| #![trigger is_among(p, s)] is_among(p, s) <==> is_among(p, all),
            sorted_paths(r@),
            is_flat(r@),
            forall|k: int| #![trigger s[k]] 0 <= k < s.len() ==> all.contains(s[k]),
            forall|k: int| #![trigger r@[k]] 0 <= k < r@.len() ==> all.contains(r@[k]),
            forall|k: int, j: int|
                #![trigger r@[k], s[j]]
                0 <= k < r@.len() && i <= j < s.len() ==> names_lt(r@[k].comps(), s[j].comps()),
            forall|j: int| #![trigger s[j]] 0 <= j < i ==> is_covered(s[j].comps(), r@),
        decreases ordered.len() - i,
    {
        let path = &ordered[i];
        let ghost c = path.comps();
        let ghost before = r@;
        let nested: bool = r.len() > 0 && path.starts_with(&r[r.len() - 1]);
        if !nested {
            r.push(path.clone());
            proof {
                let n = before.len() as int;
                assert(is_among(s[i as int].comps(), s));
                assert forall|k: int| #![trigger before[k]] 0 <= k < n implies !nested_in(
                    c,
                    before[k].comps(),
                ) && !nested_in(before[k].comps(), c) by {
                    assert(names_lt(before[k].comps(), s[i as int].comps()));
                    if nested_in(before[k].comps(), c) {
                        lemma_nested_is_after(before[k].comps(), c);
                        lemma_names_lt_asymmetric(before[k].comps(), c);
                    }
                    if nested_in(c, before[k].comps()) && k < n - 1 {
                        assert(names_lt(before[k].comps(), before[n - 1].comps()));
                        assert(names_lt(before[n - 1].comps(), s[i as int].comps()));
                        lemma_nested_is_block(before[k].comps(), before[n - 1].comps(), c);
                    }
                }
                assert forall|a: int, b: int|
                    #![trigger r@[a], r@[b]]
                    0 <= a < r@.len() && 0 <= b < r@.len() && a != b implies !nested_in(
                    r@[a].comps(),
                    r@[b].comps(),
                ) by {
                    if a < n {
                        assert(r@[a] == before[a]);
                    }
                    if b < n {
                        assert(r@[b] == before[b]);
                    }
                }
                assert forall|a: int, b: int| #![trigger r@[a], r@[b]] 0 <= a < b < r@.len() implies names_lt(
                    r@[a].comps(),
                    r@[b].comps(),
                ) by {
                    assert(r@[a] == before[a]);
                    if b < n {
                        assert(r@[b] == before[b]);
                    } else {
                        assert(names_lt(before[a].comps(), s[i as int].comps()));
                    }
                }
                assert(nested_in(c, c)) by {
                    assert(c =~= c.subrange(0, c.len() as int));
                }
                assert(r@[n].comps() == c);
            }
        }
        proof {
            assert forall|j: int| #![trigger s[j]] 0 <= j < i + 1 implies is_covered(
                s[j].comps(),
                r@,
            ) by {
                if j < i {
                    assert(is_covered(s[j].comps(), before));
                    let k = choose|k: int|
                        #![trigger before[k]]
                        0 <= k < before.len() && nested_in(s[j].comps(), before[k].comps());
                    assert(r@[k] == before[k]);
                } else {
                    assert(nested_in(s[j].comps(), r@[r@.len() - 1].comps()));
                }
            }
            assert forall|k: int, j: int|
                #![trigger r@[k], s[j]]
                0 <= k < r@.len() && i + 1 <= j < s.len() implies names_lt(
                r@[k].comps(),
                s[j].comps(),
            ) by {
                if k < before.len() {
                    assert(r@[k] == before[k]);
                } else {
                    assert(names_lt(s[i as int].comps(), s[j].comps()));
                }
            }
        }
        i = i + 1;
    }
    assert forall|k: int| #![trigger all[k]] 0 <= k < all.len() implies is_covered(
        all[k].comps(),
        r@,
    ) by {
        assert(is_among(all[k].comps(), all));
        assert(is_among(all[k].comps(), s));
        let j = choose|j: int| #![trigger s[j]] 0 <= j < s.len() && s[j].comps() == all[k].comps();
        assert(is_covered(s[j].comps(), r@));
    }
    r
}

} // verus!
