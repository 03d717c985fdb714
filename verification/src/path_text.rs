//! The text of a path, part by part: which part of it names some of its components, as it is
//! written.
use crate::path::{
    components, fits, is_absolute_text, is_file_name, join_text, named_pieces, names_component,
    pieces, root_part,
};
use crate::path_lemmas::{
    lemma_child_comps, lemma_components_join, lemma_pieces_concat, lemma_pieces_extend,
    lemma_pieces_nonempty,
};
use crate::traversal::lemma_components_empty;
use vstd::prelude::*;

verus! {

/// Whether a text is the shortest beginning of another one with the given components.
pub open spec fn is_beginning(t: Seq<char>, ns: Seq<Seq<char>>, r: Seq<char>) -> bool {
    &&& r.len() <= t.len()
    &&& r == t.take(r.len() as int)
    &&& components(r) == ns
    &&& forall|i: int| 0 <= i < r.len() ==> components(#[trigger] t.take(i)) != ns
}

/// Whether a text is the longest end of another one with the given components.
pub open spec fn is_ending(t: Seq<char>, ns: Seq<Seq<char>>, r: Seq<char>) -> bool {
    &&& r.len() <= t.len()
    &&& r == t.skip(t.len() - r.len())
    &&& components(r) == ns
    &&& forall|i: int| 0 <= i < t.len() - r.len() ==> components(#[trigger] t.skip(i)) != ns
}

/// The first `k` components of a path as they are written: the shortest beginning of its text that
/// names them.
pub open spec fn text_of_first(t: Seq<char>, k: int) -> Seq<char> {
    choose|r: Seq<char>| is_beginning(t, components(t).take(k), r)
}

/// What is written behind the first `k` components of a path, without the slashes around it: the
/// longest end of its text that names the others, where nothing stands behind the last name.
pub open spec fn text_behind(t: Seq<char>, k: int) -> Seq<char> {
    choose|r: Seq<char>|
        is_ending(
            text_of_first(t, components(t).len() as int),
            components(t).skip(k),
            r,
        )
}

/// The shortest beginning is settled.
proof fn lemma_one_beginning(t: Seq<char>, k: int, r: Seq<char>)
    requires
        is_beginning(t, components(t).take(k), r),
    ensures
        text_of_first(t, k) == r,
{
    let ns = components(t).take(k);
    let x = text_of_first(t, k);
    assert(is_beginning(t, ns, x));
    if x.len() < r.len() {
        assert(t.take(x.len() as int) == x);
    } else if r.len() < x.len() {
        assert(t.take(r.len() as int) == r);
    }
}

/// The longest end is settled.
proof fn lemma_one_ending(t: Seq<char>, k: int, whole: Seq<char>, r: Seq<char>)
    requires
        text_of_first(t, components(t).len() as int) == whole,
        is_ending(whole, components(t).skip(k), r),
    ensures
        text_behind(t, k) == r,
{
    let ns = components(t).skip(k);
    let x = text_behind(t, k);
    assert(is_ending(whole, ns, x));
    if x.len() > r.len() {
        assert(whole.skip(whole.len() - x.len()) == x);
    } else if r.len() > x.len() {
        assert(whole.skip(whole.len() - r.len()) == r);
    }
}

/// The last piece of a text that ends with a slash is empty, and names nothing.
proof fn lemma_open_end(x: Seq<char>)
    requires
        x.len() > 0 ==> x.last() == '/',
    ensures
        pieces(x).len() > 0,
        pieces(x).last().len() == 0,
        named_pieces(pieces(x)) == named_pieces(pieces(x).drop_last()),
{
    lemma_pieces_nonempty(x);
}

/// What a text names that ends within a piece.
proof fn lemma_within_piece(x: Seq<char>, w: Seq<char>)
    requires
        x.len() > 0 ==> x.last() == '/',
        w.len() > 0,
        !w.contains('/'),
    ensures
        components(x + w) == if names_component(w, x.len() == 0) {
            components(x).push(w)
        } else {
            components(x)
        },
{
    lemma_open_end(x);
    lemma_pieces_extend(x, w);
    let ps = pieces(x);
    let qs = pieces(x + w);
    assert(ps.last() + w =~= w);
    assert(qs =~= ps.drop_last().push(w));
    assert(qs.drop_last() =~= ps.drop_last());
    if x.len() == 0 {
        assert(ps =~= seq![Seq::<char>::empty()]);
        assert(w.contains(w[0]));
        assert(x + w =~= w);
    } else {
        assert((x + w)[0] == x[0]);
        let before = x.drop_last();
        assert(before.push('/') =~= x);
        lemma_pieces_nonempty(before);
        assert(ps.len() > 1);
    }
    assert(root_part(x + w) =~= root_part(x));
    assert(components(x + w) =~= if names_component(w, x.len() == 0) {
        components(x).push(w)
    } else {
        components(x)
    });
}

/// A slash behind a text names nothing more.
proof fn lemma_slash_behind(a: Seq<char>)
    requires
        a.len() > 0,
    ensures
        components(a.push('/')) == components(a),
{
    let t = a.push('/');
    assert(t.drop_last() =~= a);
    assert(pieces(t) =~= pieces(a).push(Seq::empty()));
    assert(pieces(t).drop_last() =~= pieces(a));
    assert(t[0] == a[0]);
}

/// A slash alone names the root.
proof fn lemma_root_text()
    ensures
        components(seq!['/']) == seq![seq!['/']],
{
    let root: Seq<char> = seq!['/'];
    let ns = seq![root];
    assert(fits(ns[0], true));
    crate::path_lemmas::lemma_components_render(ns);
    assert(crate::path::render(ns) =~= root);
}

/// A text that is not empty names something.
pub proof fn lemma_something_named(t: Seq<char>)
    requires
        t.len() > 0,
    ensures
        components(t).len() > 0,
    decreases t.len(),
{
    if t[0] == '/' {
        assert(root_part(t).len() == 1);
    } else if t.len() == 1 {
        assert(!t.contains('/'));
        lemma_within_piece(Seq::empty(), t);
        assert(Seq::<char>::empty() + t =~= t);
    } else {
        let a = t.drop_last();
        assert(a[0] == t[0]);
        lemma_something_named(a);
        lemma_longer_names_more(t, t.len() - 1);
        assert(t.take(t.len() - 1) =~= a);
        assert(t.take(t.len() as int) =~= t);
    }
}

/// One character more names no less.
proof fn lemma_longer_names_more(t: Seq<char>, i: int)
    requires
        0 <= i < t.len(),
    ensures
        components(t.take(i)).len() <= components(t.take(i + 1)).len(),
{
    let a = t.take(i);
    let b = t.take(i + 1);
    assert(b.drop_last() =~= a);
    let ps = pieces(a);
    let qs = pieces(b);
    lemma_pieces_nonempty(a);
    lemma_components_empty();
    if i > 0 {
        assert(b[0] == a[0]);
        if b.last() == '/' {
            assert(qs.drop_last() =~= ps);
        } else {
            assert(qs.drop_last() =~= ps.drop_last());
            if names_component(ps.last(), ps.len() == 1) && !names_component(
                qs.last(),
                qs.len() == 1,
            ) {
                assert(qs.last().len() == 1);
            }
        }
    } else {
        assert(a =~= Seq::empty());
    }
}

/// A longer beginning names no less.
proof fn lemma_beginnings_grow(t: Seq<char>, i: int, j: int)
    requires
        0 <= i <= j <= t.len(),
    ensures
        components(t.take(i)).len() <= components(t.take(j)).len(),
    decreases j - i,
{
    if i < j {
        lemma_beginnings_grow(t, i, j - 1);
        lemma_longer_names_more(t, j - 1);
    }
}

/// The pieces of a list begin with those of its beginning.
proof fn lemma_named_pieces_grow(xs: Seq<Seq<char>>, ys: Seq<Seq<char>>)
    requires
        xs.len() > 0,
    ensures
        named_pieces(xs).len() <= named_pieces(xs + ys).len(),
        named_pieces(xs + ys).take(named_pieces(xs).len() as int) == named_pieces(xs),
    decreases ys.len(),
{
    if ys.len() == 0 {
        assert(xs + ys =~= xs);
        assert(named_pieces(xs).take(named_pieces(xs).len() as int) =~= named_pieces(xs));
    } else {
        let v = ys.drop_last();
        lemma_named_pieces_grow(xs, v);
        assert((xs + ys).drop_last() =~= xs + v);
        assert(named_pieces(xs + ys).take(named_pieces(xs).len() as int) =~= named_pieces(
            xs + v,
        ).take(named_pieces(xs).len() as int));
    }
}

/// A text that goes on with a slash names first what its beginning names.
proof fn lemma_names_of_beginning(t: Seq<char>, e: int)
    requires
        0 <= e <= t.len(),
        e == t.len() || t[e] == '/',
    ensures
        components(t.take(e)).len() <= components(t).len(),
        components(t).take(components(t.take(e)).len() as int) == components(t.take(e)),
{
    let a = t.take(e);
    if e == t.len() {
        assert(a =~= t);
        assert(components(t).take(components(t).len() as int) =~= components(t));
    } else if e == 0 {
        lemma_components_empty();
        assert(a =~= Seq::empty());
        assert(components(t).take(0) =~= Seq::empty());
    } else {
        let b = t.skip(e + 1);
        assert(t =~= a.push('/') + b);
        lemma_pieces_concat(a, b);
        lemma_pieces_nonempty(a);
        lemma_named_pieces_grow(pieces(a), pieces(b));
        assert(t[0] == a[0]);
        let n = components(a).len() as int;
        assert(components(t).take(n) =~= components(a)) by {
            assert forall|i: int| 0 <= i < n implies components(t)[i] == components(a)[i] by {
                let k = i - root_part(t).len();
                if k >= 0 {
                    assert(named_pieces(pieces(t)).take(named_pieces(pieces(a)).len() as int)[k]
                        == named_pieces(pieces(a))[k]);
                }
            }
        }
    }
}

/// Whether the `c`th component of a text stands between two places.
pub open spec fn is_span(t: Seq<char>, c: int, s: int, e: int) -> bool {
    let w = t.subrange(s, e);
    let root: Seq<char> = seq!['/'];
    &&& 0 <= s < e <= t.len()
    &&& components(t.take(s)).len() == c
    &&& components(t.take(e)) == components(t.take(s)).push(w)
    &&& c == 0 ==> s == 0
    &&& c > 0 ==> t[s - 1] == '/'
    &&& if c == 0 && t[0] == '/' {
        e == 1
    } else {
        &&& !w.contains('/')
        &&& names_component(w, s == 0)
        &&& e == t.len() || t[e] == '/'
    }
}

/// Where the components of a text stand.
pub open spec fn are_spans(t: Seq<char>, spans: Seq<(usize, usize)>) -> bool {
    forall|c: int|
        #![trigger spans[c]]
        0 <= c < spans.len() ==> is_span(t, c, spans[c].0 as int, spans[c].1 as int)
}

/// What lies up to the end of a component names the components up to it.
proof fn lemma_span_names(t: Seq<char>, c: int, s: int, e: int)
    requires
        is_span(t, c, s, e),
    ensures
        c < components(t).len(),
        components(t.take(e)) == components(t).take(c + 1),
        components(t.take(s)) == components(t).take(c),
        is_beginning(t, components(t).take(c + 1), t.take(e)),
{
    let ns = components(t);
    let x = t.take(s);
    let w = t.subrange(s, e);
    assert(t.take(e) =~= x + w);
    if c == 0 && t[0] == '/' {
        let root: Seq<char> = seq!['/'];
        assert(t.take(1) =~= root);
        lemma_root_text();
        assert(ns.take(1) =~= seq![root]);
    } else {
        lemma_names_of_beginning(t, e);
    }
    assert(components(t.take(e)).len() == c + 1);
    assert(components(t.take(s)) =~= ns.take(c)) by {
        assert(components(t.take(e)).drop_last() =~= components(t.take(s)));
        assert(ns.take(c + 1).drop_last() =~= ns.take(c));
    }
    assert forall|i: int| 0 <= i < e implies components(#[trigger] t.take(i)) != ns.take(c + 1) by {
        if i <= s {
            lemma_beginnings_grow(t, i, s);
        } else if !(c == 0 && t[0] == '/') {
            let v = t.subrange(s, i);
            assert(t.take(i) =~= x + v);
            assert(!v.contains('/')) by {
                if v.contains('/') {
                    let k = choose|k: int| 0 <= k < v.len() && v[k] == '/';
                    assert(w[k] == '/');
                }
            }
            if x.len() > 0 {
                if c == 0 {
                    assert(s == 0);
                }
                assert(x.last() == t[s - 1]);
            }
            lemma_within_piece(x, v);
            if components(t.take(i)) == ns.take(c + 1) {
                assert(components(t.take(i)).last() == v);
                assert(components(t.take(e)).last() == w);
                assert(v.len() < w.len());
            }
        }
    }
    assert(t.take(e).len() == e);
}

/// The first components of a path as they are written end where the last one of them does.
pub proof fn lemma_text_of_first(t: Seq<char>, c: int, s: int, e: int)
    requires
        is_span(t, c, s, e),
    ensures
        text_of_first(t, c + 1) == t.take(e),
        components(t.take(e)) == components(t).take(c + 1),
{
    lemma_span_names(t, c, s, e);
    lemma_one_beginning(t, c + 1, t.take(e));
}

/// No components are written as nothing.
pub proof fn lemma_text_of_none(t: Seq<char>)
    ensures
        text_of_first(t, 0) == Seq::<char>::empty(),
        components(Seq::<char>::empty()) == components(t).take(0),
{
    let none = Seq::<char>::empty();
    lemma_components_empty();
    assert(t.take(0) =~= none);
    assert(components(t).take(0) =~= Seq::empty());
    lemma_one_beginning(t, 0, none);
}

/// What is written behind all components is nothing.
pub proof fn lemma_text_behind_all(t: Seq<char>)
    ensures
        text_behind(t, components(t).len() as int) == Seq::<char>::empty(),
        components(Seq::<char>::empty()) == components(t).skip(components(t).len() as int),
{
    let n = components(t).len() as int;
    let whole = text_of_first(t, n);
    let none = Seq::<char>::empty();
    lemma_components_empty();
    assert(components(t).skip(n) =~= Seq::empty());
    assert(whole.skip(whole.len() as int) =~= none);
    assert forall|i: int| 0 <= i < whole.len() implies components(#[trigger] whole.skip(i))
        != components(t).skip(n) by {
        lemma_something_named(whole.skip(i));
    }
    lemma_one_ending(t, n, whole, none);
}

/// What is written behind no components is the path up to its last name.
pub proof fn lemma_text_behind_none(t: Seq<char>, s: int, e: int)
    requires
        is_span(t, components(t).len() - 1, s, e),
    ensures
        text_behind(t, 0) == t.take(e),
        components(t.take(e)) == components(t),
{
    let n = components(t).len() as int;
    let whole = t.take(e);
    lemma_text_of_first(t, n - 1, s, e);
    assert(components(t).take(n) =~= components(t));
    assert(components(t).skip(0) =~= components(t));
    assert(whole.skip(0) =~= whole);
    lemma_one_ending(t, 0, whole, whole);
}

/// What is written behind some components begins where the next one does.
pub proof fn lemma_text_behind(t: Seq<char>, k: int, s: int, e: int, last: int, end: int)
    requires
        0 < k < components(t).len(),
        is_span(t, k, s, e),
        is_span(t, components(t).len() - 1, last, end),
        e <= end,
    ensures
        text_behind(t, k) == t.subrange(s, end),
        components(t.subrange(s, end)) == components(t).skip(k),
{
    let ns = components(t);
    let n = ns.len() as int;
    let whole = t.take(end);
    let x = t.take(s);
    let y = t.subrange(s, end);
    let w = t.subrange(s, e);
    lemma_text_of_first(t, n - 1, last, end);
    lemma_span_names(t, k, s, e);
    assert(ns.take(n) =~= ns);
    assert(whole =~= x + y);
    lemma_components_empty();
    if s == 0 {
        assert(x =~= Seq::empty());
    }
    assert(x.last() == t[s - 1]);
    assert(y[0] == w[0]);
    assert(w.contains(w[0]));
    assert(!is_absolute_text(y));
    assert(components(y)[0] != seq!['.'] && components(y).len() > 0) by {
        lemma_something_named(y);
        let v = e - s;
        assert(y.take(v) =~= w);
        if v < y.len() {
            assert(y[v] == t[e]);
        }
        lemma_names_of_beginning(y, v);
        lemma_within_piece(Seq::empty(), w);
        assert(Seq::<char>::empty() + w =~= w);
        lemma_components_empty();
        assert(components(w) =~= seq![w]);
        assert(components(y).take(1)[0] == components(y)[0]);
    }
    lemma_components_join(x, y);
    assert(join_text(x, y) =~= whole);
    assert(components(y) =~= ns.skip(k)) by {
        assert(ns == components(x) + components(y));
    }
    assert(whole.skip(whole.len() - y.len()) =~= y);
    assert forall|i: int| 0 <= i < whole.len() - y.len() implies components(
        #[trigger] whole.skip(i),
    ) != ns.skip(k) by {
        let z = x.skip(i);
        assert(whole.skip(i) =~= z + y);
        assert(z.last() == '/');
        lemma_components_join(z, y);
        assert(join_text(z, y) =~= z + y);
        lemma_something_named(z);
        assert(components(whole.skip(i)).len() > components(y).len());
    }
    lemma_one_ending(t, k, whole, y);
}

/// Components stand in order.
pub proof fn lemma_spans_in_order(t: Seq<char>, a: int, s: int, e: int, b: int, last: int, end: int)
    requires
        is_span(t, a, s, e),
        is_span(t, b, last, end),
        a <= b,
    ensures
        e <= end,
{
    if end < e {
        lemma_span_names(t, a, s, e);
        lemma_span_names(t, b, last, end);
        lemma_beginnings_grow(t, end, e);
        assert(components(t.take(end)) == components(t).take(b + 1));
    }
}

/// The last component of a text, where its last piece is a component.
proof fn lemma_add_span(t: Seq<char>, c: int, s: int, i: int)
    requires
        0 <= s < i <= t.len(),
        components(t.take(s)).len() == c,
        s > 0 ==> t[s - 1] == '/',
        !t.subrange(s, i).contains('/'),
        i == t.len() || t[i] == '/',
    ensures
        names_component(t.subrange(s, i), s == 0) ==> is_span(t, c, s, i) && components(
            t.take(i),
        ).len() == c + 1,
        !names_component(t.subrange(s, i), s == 0) ==> components(t.take(i)).len() == c,
{
    let x = t.take(s);
    let w = t.subrange(s, i);
    if x.len() > 0 {
        assert(x.last() == t[s - 1]);
        lemma_something_named(x);
    }
    lemma_within_piece(x, w);
    assert(t.take(i) =~= x + w);
    if s == 0 {
        lemma_components_empty();
        assert(x =~= Seq::empty());
        assert(w[0] == t[0]);
        assert(w.contains(w[0]));
    }
}

/// A path without what stands behind its last name.
pub open spec fn trimmed(t: Seq<char>) -> Seq<char> {
    text_of_first(t, components(t).len() as int)
}

/// One character less names the same at first.
proof fn lemma_shorter_names_same(t: Seq<char>, k: int)
    requires
        t.len() > 0,
        0 <= k < components(t).len(),
    ensures
        k <= components(t.drop_last()).len(),
        components(t.drop_last()).take(k) == components(t).take(k),
{
    let u = t.drop_last();
    let ps = pieces(u);
    let qs = pieces(t);
    lemma_pieces_nonempty(u);
    lemma_components_empty();
    if u.len() == 0 {
        assert(u =~= Seq::empty());
        assert(t =~= seq![t[0]]);
        if t[0] == '/' {
            lemma_root_text();
            assert(t =~= seq!['/']);
        } else {
            assert(!t.contains('/'));
            lemma_within_piece(Seq::empty(), t);
            assert(Seq::<char>::empty() + t =~= t);
        }
        assert(k == 0);
        assert(components(u).take(0) =~= components(t).take(0));
    } else {
        assert(u[0] == t[0]);
        if t.last() == '/' {
            assert(qs.drop_last() =~= ps);
            assert(components(t) =~= components(u));
        } else {
            assert(qs.drop_last() =~= ps.drop_last());
            let base = root_part(t) + named_pieces(ps.drop_last());
            assert(k <= base.len());
            assert(components(t).take(k) =~= base.take(k));
            assert(components(u).take(k) =~= base.take(k));
        }
    }
}

/// Some beginning of a text names its first components.
proof fn lemma_some_beginning(t: Seq<char>, k: int) -> (i: int)
    requires
        0 <= k <= components(t).len(),
    ensures
        0 <= i <= t.len(),
        components(t.take(i)) == components(t).take(k),
    decreases t.len(),
{
    let n = components(t).len() as int;
    lemma_components_empty();
    if k == n {
        assert(t.take(t.len() as int) =~= t);
        assert(components(t).take(n) =~= components(t));
        t.len() as int
    } else if t.len() == 0 {
        assert(t =~= Seq::empty());
        0
    } else {
        let u = t.drop_last();
        lemma_shorter_names_same(t, k);
        let i = lemma_some_beginning(u, k);
        assert(u.take(i) =~= t.take(i));
        i
    }
}

/// Of the beginnings that name something there is a shortest one.
proof fn lemma_shortest_beginning(t: Seq<char>, ns: Seq<Seq<char>>, i: int) -> (r: Seq<char>)
    requires
        0 <= i <= t.len(),
        components(t.take(i)) == ns,
    ensures
        is_beginning(t, ns, r),
        r.len() <= i,
    decreases i,
{
    if exists|j: int| 0 <= j < i && components(#[trigger] t.take(j)) == ns {
        let j = choose|j: int| 0 <= j < i && components(#[trigger] t.take(j)) == ns;
        lemma_shortest_beginning(t, ns, j)
    } else {
        t.take(i)
    }
}

/// What the first components of a path are as they are written.
pub proof fn lemma_first_written(t: Seq<char>, k: int)
    requires
        0 <= k <= components(t).len(),
    ensures
        is_beginning(t, components(t).take(k), text_of_first(t, k)),
        components(text_of_first(t, k)) == components(t).take(k),
{
    let i = lemma_some_beginning(t, k);
    let r = lemma_shortest_beginning(t, components(t).take(k), i);
    lemma_one_beginning(t, k, r);
}

/// The first components are written alike in a path and in one that begins with it.
pub proof fn lemma_first_of_beginning(a: Seq<char>, b: Seq<char>, k: int)
    requires
        a.len() <= b.len(),
        a == b.take(a.len() as int),
        0 <= k <= components(a).len(),
        k <= components(b).len(),
        components(a).take(k) == components(b).take(k),
    ensures
        text_of_first(a, k) == text_of_first(b, k),
{
    lemma_first_written(a, k);
    let r = text_of_first(a, k);
    assert(r =~= b.take(r.len() as int));
    assert forall|i: int| 0 <= i < r.len() implies components(#[trigger] b.take(i)) != components(
        b,
    ).take(k) by {
        assert(b.take(i) =~= a.take(i));
    }
    lemma_one_beginning(b, k, r);
}

/// What is written first stays so in the first part of a path.
pub proof fn lemma_first_of_first(t: Seq<char>, k: int, j: int)
    requires
        0 <= j <= k <= components(t).len(),
    ensures
        text_of_first(text_of_first(t, k), j) == text_of_first(t, j),
{
    lemma_first_written(t, k);
    let a = text_of_first(t, k);
    assert(components(t).take(k).take(j) =~= components(t).take(j));
    lemma_first_of_beginning(a, t, j);
}

/// What stands behind the last name of a path does not count for what is written behind some of
/// its components.
pub proof fn lemma_trimmed(t: Seq<char>)
    ensures
        components(trimmed(t)) == components(t),
        trimmed(trimmed(t)) == trimmed(t),
        forall|k: int| #[trigger] text_behind(trimmed(t), k) == text_behind(t, k),
        forall|k: int|
            0 <= k <= components(t).len() ==> #[trigger] text_of_first(trimmed(t), k)
                == text_of_first(t, k),
{
    let n = components(t).len() as int;
    lemma_first_written(t, n);
    assert(components(t).take(n) =~= components(t));
    lemma_first_of_first(t, n, n);
    assert forall|k: int| 0 <= k <= n implies #[trigger] text_of_first(trimmed(t), k)
        == text_of_first(t, k) by {
        lemma_first_of_first(t, n, k);
    }
}

/// What has a name in a directory is written as the directory is, and then the name.
pub proof fn lemma_first_of_child(t: Seq<char>, name: Seq<char>, k: int)
    requires
        is_file_name(name),
        0 <= k <= components(t).len(),
    ensures
        text_of_first(join_text(t, name), k) == text_of_first(t, k),
{
    let c = join_text(t, name);
    lemma_child_comps(t, name);
    if is_absolute_text(name) {
        assert(name.contains(name[0]));
    }
    assert(t =~= c.take(t.len() as int));
    assert(components(c).take(k) =~= components(t).take(k));
    lemma_first_of_beginning(t, c, k);
}

/// Finds where the components of a text stand.
pub fn spans(text: &Vec<char>) -> (r: Vec<(usize, usize)>)
    ensures
        r@.len() == components(text@).len(),
        are_spans(text@, r@),
{
    let ghost t = text@;
    let mut r: Vec<(usize, usize)> = Vec::new();
    let mut start: usize = 0;
    let mut i: usize = 0;
    proof {
        lemma_components_empty();
        assert(t.take(0) =~= Seq::empty());
        assert(t.subrange(0, 0) =~= Seq::empty());
    }
    while i < text.len()
        invariant
            t == text@,
            start <= i <= t.len(),
            start > 0 ==> t[start - 1] == '/',
            !t.subrange(start as int, i as int).contains('/'),
            components(t.take(start as int)).len() == r@.len(),
            are_spans(t, r@),
        decreases t.len() - i,
    {
        if text[i] == '/' {
            let ghost before = r@;
            if i == 0 {
                r.push((0, 1));
                proof {
                    let root: Seq<char> = seq!['/'];
                    lemma_components_empty();
                    lemma_root_text();
                    assert(t.take(0) =~= Seq::empty());
                    assert(t.take(1) =~= root);
                    assert(t.subrange(0, 1) =~= root);
                    assert(Seq::<Seq<char>>::empty().push(root) =~= seq![root]);
                    assert(is_span(t, 0, 0, 1));
                }
            } else {
                if names_piece(text, start, i) {
                    r.push((start, i));
                }
                proof {
                    if start < i {
                        lemma_add_span(t, before.len() as int, start as int, i as int);
                    }
                    lemma_slash_behind(t.take(i as int));
                    assert(t.take(i as int).push('/') =~= t.take(i + 1));
                }
            }
            start = i + 1;
            assert(t.subrange(start as int, i + 1) =~= Seq::empty());
        } else {
            proof {
                let v = t.subrange(start as int, i as int);
                let w = t.subrange(start as int, i + 1);
                if w.contains('/') {
                    let k = choose|k: int| 0 <= k < w.len() && w[k] == '/';
                    assert(k < v.len());
                    assert(v[k] == '/');
                }
            }
        }
        i = i + 1;
    }
    let ghost before = r@;
    if names_piece(text, start, i) {
        r.push((start, i));
    }
    proof {
        if start < i {
            lemma_add_span(t, before.len() as int, start as int, i as int);
        }
        assert(t.take(i as int) =~= t);
    }
    r
}

/// Whether what lies between two places of a text is a component.
fn names_piece(text: &Vec<char>, start: usize, end: usize) -> (r: bool)
    requires
        start <= end <= text.len(),
    ensures
        r == names_component(text@.subrange(start as int, end as int), start == 0),
{
    let ghost w = text@.subrange(start as int, end as int);
    let ghost here: Seq<char> = seq!['.'];
    if start == end {
        return false;
    }
    if start > 0 && end - start == 1 && text[start] == '.' {
        assert(w =~= here);
        return false;
    }
    assert(start > 0 ==> w != here) by {
        assert(here.len() == 1 && here[0] == '.');
        if w == here {
            assert(w[0] == text@[start as int]);
        }
    }
    true
}

/// Copies a part of a text.
pub fn part(text: &Vec<char>, start: usize, end: usize) -> (r: Vec<char>)
    requires
        start <= end <= text.len(),
    ensures
        r@ == text@.subrange(start as int, end as int),
{
    let mut r: Vec<char> = Vec::new();
    let mut i: usize = start;
    while i < end
        invariant
            start <= i <= end <= text.len(),
            r@ == text@.subrange(start as int, i as int),
        decreases end - i,
    {
        r.push(text[i]);
        i = i + 1;
        assert(r@ =~= text@.subrange(start as int, i as int));
    }
    r
}

} // verus!
