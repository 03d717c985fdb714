//! A list of items in the order of their keys, each key at most once.
use crate::path::KeyOrder;
use vstd::prelude::*;

verus! {

/// An item that is found by a key.
pub trait KeyedItem: Sized {
    /// The key by which an item is looked up.
    type Key;

    /// A key that is kept.
    type OwnedKey;

    /// What a key stands for.
    type K;

    /// What the key of the item stands for.
    spec fn item_key(&self) -> Self::K;

    /// What a key stands for.
    spec fn key_of(key: &Self::Key) -> Self::K;

    /// What a kept key stands for.
    spec fn kept_key(key: &Self::OwnedKey) -> Self::K;

    /// The order of keys.
    spec fn key_lt(a: Self::K, b: Self::K) -> bool;

    proof fn lemma_key_irreflexive(a: Self::K)
        ensures
            !Self::key_lt(a, a),
    ;

    proof fn lemma_key_transitive(a: Self::K, b: Self::K, c: Self::K)
        requires
            Self::key_lt(a, b),
            Self::key_lt(b, c),
        ensures
            Self::key_lt(a, c),
    ;

    proof fn lemma_key_total(a: Self::K, b: Self::K)
        ensures
            a == b || Self::key_lt(a, b) || Self::key_lt(b, a),
    ;

    /// The key of the item.
    fn key(&self) -> (r: &Self::Key)
        ensures
            Self::key_of(r) == self.item_key(),
    ;

    /// The key that is kept.
    fn borrow_key(key: &Self::OwnedKey) -> (r: &Self::Key)
        ensures
            Self::key_of(r) == Self::kept_key(key),
    ;

    /// How the key of the item stands to another key.
    fn compare_key(&self, key: &Self::Key) -> (r: KeyOrder)
        ensures
            match r {
                KeyOrder::Less => Self::key_lt(self.item_key(), Self::key_of(key)),
                KeyOrder::Same => self.item_key() == Self::key_of(key),
                KeyOrder::Greater => Self::key_lt(Self::key_of(key), self.item_key()),
            },
    ;
}

/// Whether items stand in the order of their keys, no key twice.
pub open spec fn sorted<T: KeyedItem>(s: Seq<T>) -> bool {
    forall|i: int, j: int|
        #![trigger s[i], s[j]]
        0 <= i < j < s.len() ==> T::key_lt(s[i].item_key(), s[j].item_key())
}

/// Whether a list holds an item with the given key.
pub open spec fn has_key<T: KeyedItem>(s: Seq<T>, k: T::K) -> bool {
    exists|i: int| #![trigger s[i]] 0 <= i < s.len() && s[i].item_key() == k
}

/// The item with the given key.
pub open spec fn item_with<T: KeyedItem>(s: Seq<T>, k: T::K) -> T {
    s[choose|i: int| #![trigger s[i]] 0 <= i < s.len() && s[i].item_key() == k]
}

/// The items of a list by their keys.
pub open spec fn by_key<T: KeyedItem>(s: Seq<T>) -> Map<T::K, T> {
    Map::new(|k: T::K| has_key(s, k), |k: T::K| item_with(s, k))
}

/// A change to a list of items.
pub enum Edit<T: KeyedItem> {
    Insert(T),
    Remove(T::OwnedKey),
}

/// Whether some edit removes the item with the given key.
pub open spec fn removes<T: KeyedItem>(edits: Seq<Edit<T>>, k: T::K) -> bool {
    exists|i: int|
        #![trigger edits[i]]
        0 <= i < edits.len() && (edits[i] matches Edit::Remove(key) && T::kept_key(&key) == k)
}

/// The items that edits insert, by their keys; of two with one key the later.
pub open spec fn inserts<T: KeyedItem>(edits: Seq<Edit<T>>) -> Map<T::K, T>
    decreases edits.len(),
{
    if edits.len() == 0 {
        Map::empty()
    } else {
        let before = inserts(edits.drop_last());
        match edits.last() {
            Edit::Insert(item) => before.insert(item.item_key(), item),
            Edit::Remove(_) => before,
        }
    }
}

/// What a batch of edits makes of items: what it removes goes, and then what it inserts comes,
/// whatever the order of the edits.
pub open spec fn edited<T: KeyedItem>(m: Map<T::K, T>, edits: Seq<Edit<T>>) -> Map<T::K, T> {
    Map::new(
        |k: T::K| inserts(edits).contains_key(k) || (m.contains_key(k) && !removes(edits, k)),
        |k: T::K| if inserts(edits).contains_key(k) { inserts(edits)[k] } else { m[k] },
    )
}

/// An item of a sorted list is the one with its key.
pub proof fn lemma_item_with<T: KeyedItem>(s: Seq<T>, i: int)
    requires
        sorted(s),
        0 <= i < s.len(),
    ensures
        has_key(s, s[i].item_key()),
        item_with(s, s[i].item_key()) == s[i],
        by_key(s).contains_key(s[i].item_key()),
        by_key(s)[s[i].item_key()] == s[i],
{
    let k = s[i].item_key();
    let j = choose|j: int| #![trigger s[j]] 0 <= j < s.len() && s[j].item_key() == k;
    assert(0 <= j < s.len() && s[j].item_key() == k);
    T::lemma_key_irreflexive(k);
    if j < i {
        assert(T::key_lt(s[j].item_key(), s[i].item_key()));
    } else if i < j {
        assert(T::key_lt(s[i].item_key(), s[j].item_key()));
    }
}

/// Where a list holds a key, the item with it stands somewhere in the list.
pub proof fn lemma_key_index<T: KeyedItem>(s: Seq<T>, k: T::K) -> (i: int)
    requires
        has_key(s, k),
    ensures
        0 <= i < s.len(),
        s[i].item_key() == k,
        item_with(s, k) == s[i],
{
    choose|i: int| #![trigger s[i]] 0 <= i < s.len() && s[i].item_key() == k
}

/// Where one item goes into a sorted list between the smaller and the greater ones.
pub proof fn lemma_insert<T: KeyedItem>(s: Seq<T>, i: int, x: T)
    requires
        sorted(s),
        0 <= i <= s.len(),
        forall|j: int| #![trigger s[j]] 0 <= j < i ==> T::key_lt(s[j].item_key(), x.item_key()),
        forall|j: int| #![trigger s[j]] i <= j < s.len() ==> T::key_lt(x.item_key(), s[j].item_key()),
    ensures
        sorted(s.insert(i, x)),
        by_key(s.insert(i, x)) == by_key(s).insert(x.item_key(), x),
        !has_key(s, x.item_key()),
{
    let t = s.insert(i, x);
    T::lemma_key_irreflexive(x.item_key());
    assert(sorted(t)) by {
        assert forall|a: int, b: int| #![trigger t[a], t[b]] 0 <= a < b < t.len() implies T::key_lt(
            t[a].item_key(),
            t[b].item_key(),
        ) by {
            let sa = if a < i { s[a] } else { s[a - 1] };
            let sb = if b < i { s[b] } else { s[b - 1] };
        }
    }
    assert forall|k: T::K| #[trigger] has_key(t, k) <==> has_key(s, k) || k == x.item_key() by {
        if has_key(t, k) {
            let a = lemma_key_index(t, k);
            if a < i {
                assert(s[a] == t[a]);
            } else if a > i {
                assert(s[a - 1] == t[a]);
            }
        }
        if has_key(s, k) {
            let a = lemma_key_index(s, k);
            if a < i {
                assert(t[a] == s[a]);
            } else {
                assert(t[a + 1] == s[a]);
            }
        }
        assert(t[i] == x);
    }
    if has_key(s, x.item_key()) {
        let a = lemma_key_index(s, x.item_key());
        assert(s[a].item_key() == x.item_key());
    }
    assert(by_key(t) =~= by_key(s).insert(x.item_key(), x)) by {
        assert forall|k: T::K| #[trigger] by_key(t).contains_key(k) implies by_key(t)[k] == by_key(
            s,
        ).insert(x.item_key(), x)[k] by {
            let a = lemma_key_index(t, k);
            lemma_item_with(t, a);
            if a < i {
                lemma_item_with(s, a);
            } else if a > i {
                lemma_item_with(s, a - 1);
            }
        }
    }
}

/// Where a sorted list loses one item.
pub proof fn lemma_remove<T: KeyedItem>(s: Seq<T>, i: int)
    requires
        sorted(s),
        0 <= i < s.len(),
    ensures
        sorted(s.remove(i)),
        by_key(s.remove(i)) == by_key(s).remove(s[i].item_key()),
{
    lemma_remove_range(s, i, i + 1);
    assert(s.remove(i) =~= s.subrange(0, i) + s.subrange(i + 1, s.len() as int));
    let t = s.remove(i);
    assert(by_key(t) =~= by_key(s).remove(s[i].item_key())) by {
        assert forall|k: T::K| #[trigger] by_key(t).contains_key(k) <==> (by_key(s).contains_key(k)
            && k != s[i].item_key()) by {
            if by_key(s).contains_key(k) {
                let a = lemma_key_index(s, k);
                lemma_item_with(s, a);
                if a == i {
                    assert(in_range(s, k, i, i + 1));
                }
                if in_range(s, k, i, i + 1) {
                    assert(s[i].item_key() == k);
                }
            }
        }
    }
}

/// Whether the item with a key stands between two places of a list.
pub open spec fn in_range<T: KeyedItem>(s: Seq<T>, k: T::K, from: int, to: int) -> bool {
    exists|i: int| #![trigger s[i]] from <= i < to && s[i].item_key() == k
}

/// Where a sorted list loses the items between two places.
pub proof fn lemma_remove_range<T: KeyedItem>(s: Seq<T>, from: int, to: int)
    requires
        sorted(s),
        0 <= from <= to <= s.len(),
    ensures
        sorted(s.subrange(0, from) + s.subrange(to, s.len() as int)),
        sorted(s.subrange(from, to)),
        forall|k: T::K|
            #![trigger by_key(s.subrange(0, from) + s.subrange(to, s.len() as int)).contains_key(k)]
            by_key(s.subrange(0, from) + s.subrange(to, s.len() as int)).contains_key(k)
                <==> by_key(s).contains_key(k) && !in_range(s, k, from, to),
        forall|k: T::K|
            #![trigger by_key(s.subrange(0, from) + s.subrange(to, s.len() as int))[k]]
            by_key(s.subrange(0, from) + s.subrange(to, s.len() as int)).contains_key(k) ==> by_key(
                s.subrange(0, from) + s.subrange(to, s.len() as int),
            )[k] == by_key(s)[k],
        forall|k: T::K|
            #![trigger by_key(s.subrange(from, to)).contains_key(k)]
            by_key(s.subrange(from, to)).contains_key(k) <==> in_range(s, k, from, to),
        forall|k: T::K|
            #![trigger by_key(s.subrange(from, to))[k]]
            in_range(s, k, from, to) ==> by_key(s.subrange(from, to))[k] == by_key(s)[k],
{
    let t = s.subrange(0, from) + s.subrange(to, s.len() as int);
    let m = s.subrange(from, to);
    let gap = to - from;
    assert(forall|a: int| #![trigger t[a]] 0 <= a < from ==> t[a] == s[a]);
    assert(forall|a: int| #![trigger t[a]] from <= a < t.len() ==> t[a] == s[a + gap]);
    assert(forall|a: int| #![trigger m[a]] 0 <= a < m.len() ==> m[a] == s[a + from]);
    assert(sorted(t)) by {
        assert forall|a: int, b: int| #![trigger t[a], t[b]] 0 <= a < b < t.len() implies T::key_lt(
            t[a].item_key(),
            t[b].item_key(),
        ) by {
            let x = if a < from { a } else { a + gap };
            let y = if b < from { b } else { b + gap };
            assert(t[a] == s[x] && t[b] == s[y]);
        }
    }
    assert(sorted(m)) by {
        assert forall|a: int, b: int| #![trigger m[a], m[b]] 0 <= a < b < m.len() implies T::key_lt(
            m[a].item_key(),
            m[b].item_key(),
        ) by {
            assert(m[a] == s[a + from] && m[b] == s[b + from]);
        }
    }
    assert forall|k: T::K|
        #![trigger by_key(t).contains_key(k)]
        by_key(t).contains_key(k) <==> by_key(s).contains_key(k) && !in_range(s, k, from, to) by {
        if has_key(t, k) {
            let a = lemma_key_index(t, k);
            let x = if a < from { a } else { a + gap };
            assert(s[x] == t[a]);
            lemma_item_with(s, x);
            if in_range(s, k, from, to) {
                let b = choose|b: int| #![trigger s[b]] from <= b < to && s[b].item_key() == k;
                lemma_item_with(s, b);
                T::lemma_key_irreflexive(k);
                if b < x {
                    assert(T::key_lt(s[b].item_key(), s[x].item_key()));
                } else {
                    assert(T::key_lt(s[x].item_key(), s[b].item_key()));
                }
            }
        }
        if has_key(s, k) && !in_range(s, k, from, to) {
            let a = lemma_key_index(s, k);
            if a < from {
                assert(t[a] == s[a]);
            } else {
                assert(a >= to);
                assert(t[a - gap] == s[a]);
            }
        }
    }
    assert forall|k: T::K| #![trigger by_key(t)[k]] by_key(t).contains_key(k) implies by_key(t)[k]
        == by_key(s)[k] by {
        let a = lemma_key_index(t, k);
        let x = if a < from { a } else { a + gap };
        assert(s[x] == t[a]);
        lemma_item_with(s, x);
        lemma_item_with(t, a);
    }
    assert forall|k: T::K| #![trigger by_key(m).contains_key(k)] by_key(m).contains_key(k)
        <==> in_range(s, k, from, to) by {
        if has_key(m, k) {
            let a = lemma_key_index(m, k);
            assert(s[a + from] == m[a]);
        }
        if in_range(s, k, from, to) {
            let b = choose|b: int| #![trigger s[b]] from <= b < to && s[b].item_key() == k;
            assert(m[b - from] == s[b]);
        }
    }
    assert forall|k: T::K| #![trigger by_key(m)[k]] in_range(s, k, from, to) implies by_key(m)[k]
        == by_key(s)[k] by {
        let b = choose|b: int| #![trigger s[b]] from <= b < to && s[b].item_key() == k;
        assert(m[b - from] == s[b]);
        lemma_item_with(s, b);
        lemma_item_with(m, b - from);
    }
}

/// Where one item of a sorted list is replaced by one with the same key.
pub proof fn lemma_set<T: KeyedItem>(s: Seq<T>, i: int, x: T)
    requires
        sorted(s),
        0 <= i < s.len(),
        x.item_key() == s[i].item_key(),
    ensures
        sorted(s.update(i, x)),
        by_key(s.update(i, x)) == by_key(s).insert(x.item_key(), x),
{
    let t = s.update(i, x);
    assert forall|a: int, b: int| #![trigger t[a], t[b]] 0 <= a < b < t.len() implies T::key_lt(
        t[a].item_key(),
        t[b].item_key(),
    ) by {
        assert(T::key_lt(s[a].item_key(), s[b].item_key()));
    }
    assert(by_key(t) =~= by_key(s).insert(x.item_key(), x)) by {
        assert forall|k: T::K| #[trigger] by_key(t).contains_key(k) <==> by_key(s).insert(
            x.item_key(),
            x,
        ).contains_key(k) by {
            if has_key(t, k) {
                let a = lemma_key_index(t, k);
                lemma_item_with(s, a);
            }
            if has_key(s, k) {
                let a = lemma_key_index(s, k);
                lemma_item_with(t, a);
            }
            lemma_item_with(t, i);
        }
        assert forall|k: T::K| #[trigger] by_key(t).contains_key(k) implies by_key(t)[k] == by_key(
            s,
        ).insert(x.item_key(), x)[k] by {
            let a = lemma_key_index(t, k);
            lemma_item_with(t, a);
            lemma_item_with(s, a);
            T::lemma_key_irreflexive(k);
            if a < i {
                assert(T::key_lt(s[a].item_key(), s[i].item_key()));
            } else if a > i {
                assert(T::key_lt(s[i].item_key(), s[a].item_key()));
            }
        }
    }
}

/// Going through a list one item further.
pub proof fn lemma_filter_step<T>(s: Seq<T>, i: int, p: spec_fn(T) -> bool)
    requires
        0 <= i < s.len(),
    ensures
        s.take(i + 1).filter(p) == if p(s[i]) {
            s.take(i).filter(p).push(s[i])
        } else {
            s.take(i).filter(p)
        },
{
    reveal(Seq::filter);
    assert(s.take(i + 1).drop_last() =~= s.take(i));
    assert(s.take(i + 1).last() == s[i]);
}

/// What is left of a sorted list stays sorted.
pub proof fn lemma_filter_sorted<T: KeyedItem>(s: Seq<T>, p: spec_fn(T) -> bool)
    requires
        sorted(s),
    ensures
        sorted(s.filter(p)),
        forall|i: int|
            #![trigger s.filter(p)[i]]
            0 <= i < s.filter(p).len() ==> p(s.filter(p)[i]) && s.contains(s.filter(p)[i]),
        forall|x: T| #![trigger s.contains(x)] s.contains(x) && p(x) ==> s.filter(p).contains(x),
    decreases s.len(),
{
    reveal(Seq::filter);
    if s.len() > 0 {
        let t = s.drop_last();
        assert(sorted(t)) by {
            assert forall|a: int, b: int| #![trigger t[a], t[b]] 0 <= a < b < t.len() implies T::key_lt(
                t[a].item_key(),
                t[b].item_key(),
            ) by {
                assert(t[a] == s[a] && t[b] == s[b]);
            }
        }
        lemma_filter_sorted(t, p);
        let f = t.filter(p);
        let g = s.filter(p);
        assert forall|a: int, b: int| #![trigger g[a], g[b]] 0 <= a < b < g.len() implies T::key_lt(
            g[a].item_key(),
            g[b].item_key(),
        ) by {
            if b < f.len() {
                assert(g[a] == f[a] && g[b] == f[b]);
            } else {
                assert(g[a] == f[a]);
                assert(t.contains(f[a]));
                let j = choose|j: int| 0 <= j < t.len() && t[j] == f[a];
                assert(s[j] == t[j]);
            }
        }
        assert forall|i: int| #![trigger g[i]] 0 <= i < g.len() implies p(g[i]) && s.contains(g[i]) by {
            if i < f.len() {
                assert(g[i] == f[i]);
                let j = choose|j: int| 0 <= j < t.len() && t[j] == f[i];
                assert(s[j] == t[j]);
            } else {
                assert(g[i] == s.last());
            }
        }
        assert forall|x: T| #![trigger s.contains(x)] s.contains(x) && p(x) implies g.contains(x) by {
            let j = choose|j: int| 0 <= j < s.len() && s[j] == x;
            if j < t.len() {
                assert(t[j] == x);
                assert(t.contains(x));
                let a = choose|a: int| 0 <= a < f.len() && f[a] == x;
                assert(g[a] == x);
            } else {
                assert(g[g.len() - 1] == x);
            }
        }
    }
}

/// Two sorted lists with the same keys have them in the same places.
pub proof fn lemma_same_keys<T: KeyedItem>(a: Seq<T>, b: Seq<T>)
    requires
        sorted(a),
        sorted(b),
        forall|k: T::K| #![trigger has_key(a, k)] #![trigger has_key(b, k)] has_key(a, k) <==> has_key(b, k),
    ensures
        a.len() == b.len(),
        forall|i: int| #![trigger a[i]] #![trigger b[i]] 0 <= i < a.len() ==> a[i].item_key() == b[i].item_key(),
    decreases a.len(),
{
    if a.len() == 0 {
        if b.len() > 0 {
            assert(has_key(b, b[0].item_key()));
            assert(has_key(a, b[0].item_key()));
        }
    } else {
        let x = a[a.len() - 1].item_key();
        assert(has_key(a, x));
        assert(has_key(b, x));
        let j = lemma_key_index(b, x);
        let y = b[b.len() - 1].item_key();
        assert(has_key(b, y));
        assert(has_key(a, y));
        let i = lemma_key_index(a, y);
        if x != y {
            assert(j < b.len() - 1);
            assert(T::key_lt(b[j].item_key(), b[b.len() - 1].item_key()));
            assert(i < a.len() - 1);
            assert(T::key_lt(a[i].item_key(), a[a.len() - 1].item_key()));
            T::lemma_key_transitive(x, y, x);
            T::lemma_key_irreflexive(x);
        }
        let a2 = a.drop_last();
        let b2 = b.drop_last();
        assert(sorted(a2)) by {
            assert forall|p: int, q: int| #![trigger a2[p], a2[q]] 0 <= p < q < a2.len() implies T::key_lt(
                a2[p].item_key(),
                a2[q].item_key(),
            ) by {
                assert(a2[p] == a[p] && a2[q] == a[q]);
            }
        }
        assert(sorted(b2)) by {
            assert forall|p: int, q: int| #![trigger b2[p], b2[q]] 0 <= p < q < b2.len() implies T::key_lt(
                b2[p].item_key(),
                b2[q].item_key(),
            ) by {
                assert(b2[p] == b[p] && b2[q] == b[q]);
            }
        }
        assert forall|k: T::K| #![trigger has_key(a2, k)] #![trigger has_key(b2, k)] has_key(a2, k) <==> has_key(b2, k) by {
            T::lemma_key_irreflexive(x);
            if has_key(a2, k) {
                let p = lemma_key_index(a2, k);
                assert(a[p] == a2[p]);
                assert(T::key_lt(a[p].item_key(), a[a.len() - 1].item_key()));
                assert(has_key(a, k));
                assert(has_key(b, k));
                let q = lemma_key_index(b, k);
                assert(q != b.len() - 1);
                assert(b2[q] == b[q]);
            }
            if has_key(b2, k) {
                let p = lemma_key_index(b2, k);
                assert(b[p] == b2[p]);
                assert(T::key_lt(b[p].item_key(), b[b.len() - 1].item_key()));
                assert(has_key(b, k));
                assert(has_key(a, k));
                let q = lemma_key_index(a, k);
                assert(q != a.len() - 1);
                assert(a2[q] == a[q]);
            }
        }
        lemma_same_keys(a2, b2);
        assert forall|p: int| #![trigger a[p]] #![trigger b[p]] 0 <= p < a.len() implies a[p].item_key() == b[p].item_key() by {
            if p < a.len() - 1 {
                assert(a2[p] == a[p] && b2[p] == b[p]);
            }
        }
    }
}

/// A sorted list is settled by what stands under its keys: what is said of the one is said of the
/// other.
pub proof fn law_keys_settle_list<T: KeyedItem>(a: Seq<T>, b: Seq<T>)
    requires
        sorted(a),
        sorted(b),
        by_key(a) == by_key(b),
    ensures
        a == b,
{
    assert forall|k: T::K| #![trigger has_key(a, k)] #![trigger has_key(b, k)] has_key(a, k) <==> has_key(b, k) by {
        assert(by_key(a).contains_key(k) == has_key(a, k));
        assert(by_key(b).contains_key(k) == has_key(b, k));
    }
    lemma_same_keys(a, b);
    assert(a =~= b) by {
        assert forall|i: int| 0 <= i < a.len() implies a[i] == b[i] by {
            lemma_item_with(a, i);
            lemma_item_with(b, i);
        }
    }
}

/// Items in the order of their keys.
#[derive(Debug)]
pub struct SumTree<T: KeyedItem> {
    items: Vec<T>,
}

impl<T: KeyedItem> View for SumTree<T> {
    type V = Seq<T>;

    closed spec fn view(&self) -> Seq<T> {
        self.items@
    }
}

impl<T: KeyedItem + Clone> Clone for SumTree<T> {
    fn clone(&self) -> (r: Self)
        ensures
            r@.len() == self@.len(),
            forall|i: int| #![trigger r@[i]] 0 <= i < self@.len() ==> cloned::<T>(self@[i], r@[i]),
    {
        SumTree { items: self.items.clone() }
    }
}

impl<T: KeyedItem> SumTree<T> {
    /// Whether the items stand in the order of their keys, no key twice.
    pub open spec fn wf(&self) -> bool {
        sorted(self@)
    }

    /// An empty list.
    pub fn new() -> (r: Self)
        ensures
            r@ == Seq::<T>::empty(),
            r.wf(),
            by_key(r@) == Map::<T::K, T>::empty(),
    {
        let r = SumTree { items: Vec::new() };
        assert(by_key(r@) =~= Map::<T::K, T>::empty());
        r
    }

    /// The number of items.
    pub fn len(&self) -> (r: usize)
        ensures
            r == self@.len(),
    {
        self.items.len()
    }

    /// The item at a place.
    pub fn item(&self, i: usize) -> (r: &T)
        requires
            i < self@.len(),
        ensures
            *r == self@[i as int],
    {
        &self.items[i]
    }

    /// The items in order.
    pub fn as_slice(&self) -> (r: &[T])
        ensures
            r@ == self@,
    {
        self.items.as_slice()
    }

    /// The list of items that stand in the order of their keys already.
    pub fn from_sorted(items: Vec<T>) -> (r: Self)
        ensures
            r@ == items@,
    {
        SumTree { items }
    }

    /// Puts an item in place of the one that stands at a place and has the same key.
    pub fn set(&mut self, i: usize, item: T)
        requires
            old(self).wf(),
            i < old(self)@.len(),
            item.item_key() == old(self)@[i as int].item_key(),
        ensures
            final(self)@ == old(self)@.update(i as int, item),
            final(self).wf(),
            by_key(final(self)@) == by_key(old(self)@).insert(item.item_key(), item),
    {
        let ghost s = self@;
        self.items.set(i, item);
        proof {
            lemma_set(s, i as int, item);
        }
    }

    /// The first place whose key is not smaller than the given one, and whether the key stands
    /// there.
    pub fn search(&self, key: &T::Key) -> (r: (usize, bool))
        requires
            self.wf(),
        ensures
            r.0 <= self@.len(),
            forall|j: int| #![trigger self@[j]] 0 <= j < r.0 ==> T::key_lt(self@[j].item_key(), T::key_of(key)),
            forall|j: int|
                #![trigger self@[j]]
                r.0 <= j < self@.len() ==> self@[j].item_key() == T::key_of(key) || T::key_lt(
                    T::key_of(key),
                    self@[j].item_key(),
                ),
            r.1 ==> r.0 < self@.len() && self@[r.0 as int].item_key() == T::key_of(key),
            !r.1 ==> forall|j: int|
                #![trigger self@[j]]
                r.0 <= j < self@.len() ==> T::key_lt(T::key_of(key), self@[j].item_key()),
            r.1 == by_key(self@).contains_key(T::key_of(key)),
    {
        let mut low: usize = 0;
        let mut high: usize = self.items.len();
        let ghost k = T::key_of(key);
        proof {
            T::lemma_key_irreflexive(k);
        }
        while low < high
            invariant
                low <= high <= self.items.len(),
                self.wf(),
                k == T::key_of(key),
                !T::key_lt(k, k),
                forall|j: int| #![trigger self@[j]] 0 <= j < low ==> T::key_lt(self@[j].item_key(), k),
                forall|j: int| #![trigger self@[j]] high <= j < self@.len() ==> T::key_lt(k, self@[j].item_key()),
            decreases high - low,
        {
            let mid: usize = low + (high - low) / 2;
            match self.items[mid].compare_key(key) {
                KeyOrder::Same => {
                    assert(self@[mid as int].item_key() == k);
                    assert forall|j: int| #![trigger self@[j]] mid < j < self@.len() implies T::key_lt(
                        k,
                        self@[j].item_key(),
                    ) by {
                        assert(T::key_lt(self@[mid as int].item_key(), self@[j].item_key()));
                    }
                    assert forall|j: int| #![trigger self@[j]] 0 <= j < mid implies T::key_lt(
                        self@[j].item_key(),
                        k,
                    ) by {
                        assert(T::key_lt(self@[j].item_key(), self@[mid as int].item_key()));
                    }
                    return (mid, true);
                },
                KeyOrder::Less => {
                    assert forall|j: int| #![trigger self@[j]] 0 <= j <= mid implies T::key_lt(
                        self@[j].item_key(),
                        k,
                    ) by {
                        if j < mid {
                            assert(T::key_lt(self@[j].item_key(), self@[mid as int].item_key()));
                            T::lemma_key_transitive(
                                self@[j].item_key(),
                                self@[mid as int].item_key(),
                                k,
                            );
                        }
                    }
                    low = mid + 1;
                },
                KeyOrder::Greater => {
                    assert forall|j: int| #![trigger self@[j]] mid <= j < self@.len() implies T::key_lt(
                        k,
                        self@[j].item_key(),
                    ) by {
                        if j > mid {
                            assert(T::key_lt(self@[mid as int].item_key(), self@[j].item_key()));
                            T::lemma_key_transitive(
                                k,
                                self@[mid as int].item_key(),
                                self@[j].item_key(),
                            );
                        }
                    }
                    high = mid;
                },
            }
        }
        proof {
            if has_key(self@, k) {
                let i = lemma_key_index(self@, k);
                assert(self@[i].item_key() == k);
            }
        }
        (low, false)
    }

    /// The item with the given key.
    pub fn get(&self, key: &T::Key) -> (r: Option<&T>)
        requires
            self.wf(),
        ensures
            r is Some <==> by_key(self@).contains_key(T::key_of(key)),
            r matches Some(item) ==> *item == by_key(self@)[T::key_of(key)],
    {
        let (i, found) = self.search(key);
        if found {
            proof {
                lemma_item_with(self@, i as int);
            }
            Some(&self.items[i])
        } else {
            None
        }
    }

    /// Puts an item in, in place of the one with its key where there is one. Gives back the
    /// item that left.
    pub fn insert_or_replace(&mut self, item: T) -> (r: Option<T>)
        requires
            old(self).wf(),
        ensures
            final(self).wf(),
            by_key(final(self)@) == by_key(old(self)@).insert(item.item_key(), item),
            r is Some <==> by_key(old(self)@).contains_key(item.item_key()),
            r matches Some(x) ==> x == by_key(old(self)@)[item.item_key()],
    {
        let (i, found) = self.search(item.key());
        let ghost s = self@;
        if found {
            proof {
                lemma_item_with(s, i as int);
                lemma_remove(s, i as int);
            }
            let removed = self.items.remove(i);
            let ghost t = self@;
            assert(t =~= s.remove(i as int));
            proof {
                T::lemma_key_irreflexive(item.item_key());
                assert forall|j: int| #![trigger t[j]] 0 <= j < i implies T::key_lt(
                    t[j].item_key(),
                    item.item_key(),
                ) by {
                    assert(t[j] == s[j]);
                }
                assert forall|j: int| #![trigger t[j]] i <= j < t.len() implies T::key_lt(
                    item.item_key(),
                    t[j].item_key(),
                ) by {
                    assert(t[j] == s[j + 1]);
                    assert(T::key_lt(s[i as int].item_key(), s[j + 1].item_key()));
                }
                lemma_insert(t, i as int, item);
            }
            self.items.insert(i, item);
            assert(by_key(s).remove(item.item_key()).insert(item.item_key(), item) =~= by_key(
                s,
            ).insert(item.item_key(), item));
            Some(removed)
        } else {
            proof {
                lemma_insert(s, i as int, item);
            }
            self.items.insert(i, item);
            None
        }
    }

    /// Takes the item with the given key out and gives it back.
    pub fn remove(&mut self, key: &T::Key) -> (r: Option<T>)
        requires
            old(self).wf(),
        ensures
            final(self).wf(),
            by_key(final(self)@) == by_key(old(self)@).remove(T::key_of(key)),
            r is Some <==> by_key(old(self)@).contains_key(T::key_of(key)),
            r matches Some(x) ==> x == by_key(old(self)@)[T::key_of(key)],
    {
        let (i, found) = self.search(key);
        let ghost s = self@;
        if found {
            proof {
                lemma_item_with(s, i as int);
                lemma_remove(s, i as int);
            }
            let removed = self.items.remove(i);
            assert(self@ =~= s.remove(i as int));
            Some(removed)
        } else {
            assert(by_key(s).remove(T::key_of(key)) =~= by_key(s));
            None
        }
    }

    /// Takes out the items between two places and gives them back in order.
    pub fn remove_range(&mut self, from: usize, to: usize) -> (r: Vec<T>)
        requires
            from <= to <= old(self)@.len(),
        ensures
            r@ == old(self)@.subrange(from as int, to as int),
            final(self)@ == old(self)@.subrange(0, from as int) + old(self)@.subrange(
                to as int,
                old(self)@.len() as int,
            ),
    {
        let ghost s = self@;
        let mut tail = self.items.split_off(to);
        let removed = self.items.split_off(from);
        self.items.append(&mut tail);
        assert(removed@ =~= s.subrange(from as int, to as int));
        assert(self@ =~= s.subrange(0, from as int) + s.subrange(to as int, s.len() as int));
        removed
    }

    /// Carries out a batch of edits: first what they remove, then what they insert.
    pub fn edit(&mut self, edits: Vec<Edit<T>>)
        requires
            old(self).wf(),
        ensures
            final(self).wf(),
            by_key(final(self)@) == edited(by_key(old(self)@), edits@),
    {
        let ghost m = by_key(self@);
        let ghost es = edits@;
        let mut i: usize = 0;
        while i < edits.len()
            invariant
                i <= edits.len(),
                self.wf(),
                es == edits@,
                forall|k: T::K|
                    #![trigger by_key(self@).contains_key(k)]
                    by_key(self@).contains_key(k) <==> m.contains_key(k) && !removes(
                        es.take(i as int),
                        k,
                    ),
                forall|k: T::K|
                    #![trigger by_key(self@)[k]]
                    by_key(self@).contains_key(k) ==> by_key(self@)[k] == m[k],
            decreases edits.len() - i,
        {
            let ghost before = by_key(self@);
            let ghost prev = es.take(i as int);
            let ghost next = es.take(i + 1);
            match &edits[i] {
                Edit::Remove(key) => {
                    let _ = self.remove(T::borrow_key(key));
                    assert forall|k: T::K| #![trigger by_key(self@).contains_key(k)]
                        by_key(self@).contains_key(k) <==> m.contains_key(k) && !removes(next, k) by {
                        assert(before.contains_key(k) <==> m.contains_key(k) && !removes(prev, k));
                        lemma_removes_push(es, i as int, k);
                    }
                },
                Edit::Insert(_) => {
                    assert forall|k: T::K| #![trigger by_key(self@).contains_key(k)]
                        by_key(self@).contains_key(k) <==> m.contains_key(k) && !removes(next, k) by {
                        lemma_removes_push(es, i as int, k);
                    }
                },
            }
            i = i + 1;
        }
        assert(es.take(es.len() as int) =~= es);
        let ghost kept = by_key(self@);
        for edit in it: edits
            invariant
                it.seq() == es,
                self.wf(),
                by_key(self@) == kept.union_prefer_right(inserts(es.take(it.index()))),
        {
            let ghost prev = es.take(it.index());
            let ghost next = es.take(it.index() + 1);
            assert(next.drop_last() =~= prev);
            assert(next.last() == edit);
            match edit {
                Edit::Insert(item) => {
                    let ghost x = item;
                    let _ = self.insert_or_replace(item);
                    assert(kept.union_prefer_right(inserts(prev)).insert(x.item_key(), x)
                        =~= kept.union_prefer_right(inserts(next)));
                },
                Edit::Remove(_) => {
                    assert(inserts(next) == inserts(prev));
                },
            }
        }
        assert(es.take(es.len() as int) =~= es);
        assert(by_key(self@) =~= edited(m, es));
    }
}

/// One edit more.
pub proof fn lemma_edits_push<T: KeyedItem>(edits: Seq<Edit<T>>, e: Edit<T>)
    ensures
        forall|k: T::K|
            #![trigger removes(edits.push(e), k)]
            removes(edits.push(e), k) <==> removes(edits, k) || (e matches Edit::Remove(key)
                && T::kept_key(&key) == k),
        inserts(edits.push(e)) == match e {
            Edit::Insert(item) => inserts(edits).insert(item.item_key(), item),
            Edit::Remove(_) => inserts(edits),
        },
{
    let next = edits.push(e);
    assert(next.drop_last() =~= edits);
    assert forall|k: T::K| #![trigger removes(next, k)] removes(next, k) <==> removes(edits, k) || (
    e matches Edit::Remove(key) && T::kept_key(&key) == k) by {
        lemma_removes_push(next, edits.len() as int, k);
        assert(next.take(edits.len() as int) =~= edits);
        assert(next.take(edits.len() as int + 1) =~= next);
    }
}

/// No edits change nothing.
pub proof fn lemma_no_edits<T: KeyedItem>()
    ensures
        forall|k: T::K| #![trigger removes(Seq::<Edit<T>>::empty(), k)] !removes(Seq::<Edit<T>>::empty(), k),
        inserts(Seq::<Edit<T>>::empty()) == Map::<T::K, T>::empty(),
{
}

proof fn lemma_removes_push<T: KeyedItem>(es: Seq<Edit<T>>, i: int, k: T::K)
    requires
        0 <= i < es.len(),
    ensures
        removes(es.take(i + 1), k) <==> removes(es.take(i), k) || (es[i] matches Edit::Remove(key)
            && T::kept_key(&key) == k),
{
    let prev = es.take(i);
    let next = es.take(i + 1);
    if removes(prev, k) {
        let j = choose|j: int|
            #![trigger prev[j]]
            0 <= j < prev.len() && (prev[j] matches Edit::Remove(key) && T::kept_key(&key) == k);
        assert(next[j] == prev[j]);
    }
    if removes(next, k) {
        let j = choose|j: int|
            #![trigger next[j]]
            0 <= j < next.len() && (next[j] matches Edit::Remove(key) && T::kept_key(&key) == k);
        if j < i {
            assert(prev[j] == next[j]);
        }
    }
    assert(next[i] == es[i]);
}

} // verus!
