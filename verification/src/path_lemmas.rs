//! Facts about components, their order and their nesting.
use crate::path::{
    chars_lt, components, file_name_of, fits, has_parent, is_absolute_text, is_file_name, join_text,
    name_class, name_lt, named_pieces, names_component, names_lt, nested_in, pieces, render, root_part,
    well_named,
};
use vstd::prelude::*;

verus! {

pub proof fn lemma_chars_lt_irreflexive(a: Seq<char>)
    ensures
        !chars_lt(a, a),
    decreases a.len(),
{
    if a.len() > 0 {
        lemma_chars_lt_irreflexive(a.drop_first());
    }
}

pub proof fn lemma_chars_lt_transitive(a: Seq<char>, b: Seq<char>, c: Seq<char>)
    requires
        chars_lt(a, b),
        chars_lt(b, c),
    ensures
        chars_lt(a, c),
    decreases a.len(),
{
    if a.len() > 0 {
        if a[0] == b[0] && b[0] == c[0] {
            lemma_chars_lt_transitive(a.drop_first(), b.drop_first(), c.drop_first());
        }
    }
}

pub proof fn lemma_chars_lt_total(a: Seq<char>, b: Seq<char>)
    ensures
        a == b || chars_lt(a, b) || chars_lt(b, a),
    decreases a.len(),
{
    if a.len() > 0 && b.len() > 0 {
        lemma_chars_lt_total(a.drop_first(), b.drop_first());
        if a[0] == b[0] && a.drop_first() == b.drop_first() {
            assert(a =~= seq![a[0]] + a.drop_first());
            assert(b =~= seq![b[0]] + b.drop_first());
        }
    } else {
        if a.len() == 0 && b.len() == 0 {
            assert(a =~= b);
        }
    }
}

pub proof fn lemma_name_lt_irreflexive(a: Seq<char>)
    ensures
        !name_lt(a, a),
{
    lemma_chars_lt_irreflexive(a);
}

pub proof fn lemma_name_lt_transitive(a: Seq<char>, b: Seq<char>, c: Seq<char>)
    requires
        name_lt(a, b),
        name_lt(b, c),
    ensures
        name_lt(a, c),
{
    if name_class(a) == name_class(b) && name_class(b) == name_class(c) {
        lemma_chars_lt_transitive(a, b, c);
    }
}

pub proof fn lemma_name_lt_total(a: Seq<char>, b: Seq<char>)
    ensures
        a == b || name_lt(a, b) || name_lt(b, a),
{
    lemma_chars_lt_total(a, b);
}

/// No path comes before itself.
pub proof fn lemma_names_lt_irreflexive(a: Seq<Seq<char>>)
    ensures
        !names_lt(a, a),
    decreases a.len(),
{
    if a.len() > 0 {
        lemma_name_lt_irreflexive(a[0]);
        lemma_names_lt_irreflexive(a.drop_first());
    }
}

/// The order of paths is transitive.
pub proof fn lemma_names_lt_transitive(a: Seq<Seq<char>>, b: Seq<Seq<char>>, c: Seq<Seq<char>>)
    requires
        names_lt(a, b),
        names_lt(b, c),
    ensures
        names_lt(a, c),
    decreases a.len(),
{
    if a.len() > 0 {
        lemma_name_lt_irreflexive(a[0]);
        if a[0] == b[0] && b[0] == c[0] {
            lemma_names_lt_transitive(a.drop_first(), b.drop_first(), c.drop_first());
        } else if name_lt(a[0], b[0]) && name_lt(b[0], c[0]) {
            lemma_name_lt_transitive(a[0], b[0], c[0]);
        }
    }
}

/// Of two different paths one comes before the other.
pub proof fn lemma_names_lt_total(a: Seq<Seq<char>>, b: Seq<Seq<char>>)
    ensures
        a == b || names_lt(a, b) || names_lt(b, a),
    decreases a.len(),
{
    if a.len() > 0 && b.len() > 0 {
        lemma_name_lt_total(a[0], b[0]);
        lemma_names_lt_total(a.drop_first(), b.drop_first());
        if a[0] == b[0] && a.drop_first() == b.drop_first() {
            assert(a =~= seq![a[0]] + a.drop_first());
            assert(b =~= seq![b[0]] + b.drop_first());
        }
    } else {
        if a.len() == 0 && b.len() == 0 {
            assert(a =~= b);
        }
    }
}

/// Two paths do not each come before the other.
pub proof fn lemma_names_lt_asymmetric(a: Seq<Seq<char>>, b: Seq<Seq<char>>)
    requires
        names_lt(a, b),
    ensures
        !names_lt(b, a),
        a != b,
{
    if names_lt(b, a) {
        lemma_names_lt_transitive(a, b, a);
    }
    lemma_names_lt_irreflexive(a);
}

/// A directory comes before what lies in it.
pub proof fn lemma_nested_is_after(a: Seq<Seq<char>>, base: Seq<Seq<char>>)
    requires
        nested_in(a, base),
    ensures
        a == base || names_lt(base, a),
    decreases a.len(),
{
    if base.len() == 0 {
        if a.len() == 0 {
            assert(a =~= base);
        }
    } else {
        assert(a[0] == base[0]) by {
            assert(a.subrange(0, base.len() as int)[0] == base[0]);
        }
        assert(nested_in(a.drop_first(), base.drop_first())) by {
            assert(base.drop_first() =~= a.drop_first().subrange(0, base.len() - 1)) by {
                assert forall|i: int| 0 <= i < base.len() - 1 implies base.drop_first()[i]
                    == a.drop_first().subrange(0, base.len() - 1)[i] by {
                    assert(a.subrange(0, base.len() as int)[i + 1] == base[i + 1]);
                }
            }
        }
        lemma_nested_is_after(a.drop_first(), base.drop_first());
        if a.drop_first() == base.drop_first() {
            assert(a =~= seq![a[0]] + a.drop_first());
            assert(base =~= seq![base[0]] + base.drop_first());
        }
    }
}

/// What lies in a directory stands in one block, right behind it: a path between the directory
/// and something in it lies in it too.
pub proof fn lemma_nested_is_block(base: Seq<Seq<char>>, a: Seq<Seq<char>>, b: Seq<Seq<char>>)
    requires
        base == a || names_lt(base, a),
        names_lt(a, b),
        nested_in(b, base),
    ensures
        nested_in(a, base),
    decreases base.len(),
{
    if base == a {
        assert(a =~= a.subrange(0, a.len() as int));
    } else if base.len() > 0 {
        assert(b.subrange(0, base.len() as int)[0] == base[0]);
        assert(b[0] == base[0]);
        if a.len() == 0 {
            assert(false);
        }
        if name_lt(base[0], a[0]) {
            if name_lt(a[0], b[0]) {
                lemma_name_lt_transitive(base[0], a[0], b[0]);
            }
            lemma_name_lt_irreflexive(base[0]);
            assert(false);
        }
        assert(base[0] == a[0]);
        lemma_name_lt_irreflexive(base[0]);
        assert(names_lt(a.drop_first(), b.drop_first()));
        assert(nested_in(b.drop_first(), base.drop_first())) by {
            assert(base.drop_first() =~= b.drop_first().subrange(0, base.len() - 1)) by {
                assert forall|i: int| 0 <= i < base.len() - 1 implies base.drop_first()[i]
                    == b.drop_first().subrange(0, base.len() - 1)[i] by {
                    assert(b.subrange(0, base.len() as int)[i + 1] == base[i + 1]);
                }
            }
        }
        lemma_nested_is_block(base.drop_first(), a.drop_first(), b.drop_first());
        assert(nested_in(a, base)) by {
            assert(base =~= a.subrange(0, base.len() as int)) by {
                assert forall|i: int| 0 <= i < base.len() implies base[i] == a.subrange(
                    0,
                    base.len() as int,
                )[i] by {
                    if i > 0 {
                        assert(a.drop_first().subrange(0, base.len() - 1)[i - 1]
                            == base.drop_first()[i - 1]);
                    }
                }
            }
        }
    } else {
        assert(base =~= a.subrange(0, 0));
    }
}

/// Nesting is transitive.
pub proof fn lemma_nested_transitive(a: Seq<Seq<char>>, b: Seq<Seq<char>>, c: Seq<Seq<char>>)
    requires
        nested_in(a, b),
        nested_in(b, c),
    ensures
        nested_in(a, c),
{
    assert(c =~= a.subrange(0, c.len() as int)) by {
        assert forall|i: int| 0 <= i < c.len() implies c[i] == a.subrange(0, c.len() as int)[i] by {
            assert(b.subrange(0, c.len() as int)[i] == c[i]);
            assert(a.subrange(0, b.len() as int)[i] == b[i]);
        }
    }
}

/// Of two directories that one path lies in, the shorter holds the longer.
pub proof fn lemma_prefixes_nest(a: Seq<Seq<char>>, b: Seq<Seq<char>>, c: Seq<Seq<char>>)
    requires
        nested_in(a, b),
        nested_in(a, c),
        c.len() <= b.len(),
    ensures
        nested_in(b, c),
{
    assert(c =~= b.subrange(0, c.len() as int)) by {
        assert forall|i: int| 0 <= i < c.len() implies c[i] == b.subrange(0, c.len() as int)[i] by {
            assert(a.subrange(0, c.len() as int)[i] == c[i]);
            assert(a.subrange(0, b.len() as int)[i] == b[i]);
        }
    }
}

pub proof fn lemma_pieces_nonempty(t: Seq<char>)
    ensures
        pieces(t).len() > 0,
    decreases t.len(),
{
    if t.len() > 0 {
        lemma_pieces_nonempty(t.drop_last());
    }
}

/// No piece holds a slash.
proof fn lemma_pieces_plain(t: Seq<char>)
    ensures
        pieces(t).len() > 0,
        forall|i: int| #![trigger pieces(t)[i]] 0 <= i < pieces(t).len() ==> !pieces(t)[i].contains('/'),
    decreases t.len(),
{
    if t.len() > 0 {
        let before = pieces(t.drop_last());
        lemma_pieces_plain(t.drop_last());
        if t.last() != '/' {
            let w = before.last().push(t.last());
            assert(!before[before.len() - 1].contains('/'));
            assert(!w.contains('/')) by {
                if w.contains('/') {
                    let k = choose|k: int| 0 <= k < w.len() && w[k] == '/';
                    assert(k < before.last().len());
                    assert(before.last()[k] == '/');
                }
            }
            assert forall|i: int| 0 <= i < pieces(t).len() implies !(#[trigger] pieces(t)[i]).contains(
                '/',
            ) by {
                if i < before.len() - 1 {
                    assert(pieces(t)[i] == before[i]);
                }
            }
        } else {
            assert forall|i: int| 0 <= i < pieces(t).len() implies !(#[trigger] pieces(t)[i]).contains(
                '/',
            ) by {
                if i < before.len() {
                    assert(pieces(t)[i] == before[i]);
                }
            }
        }
    } else {
        assert(!Seq::<char>::empty().contains('/'));
    }
}

proof fn lemma_named_pieces_fit(ps: Seq<Seq<char>>)
    requires
        forall|i: int| #![trigger ps[i]] 0 <= i < ps.len() ==> !ps[i].contains('/'),
    ensures
        forall|i: int|
            #![trigger named_pieces(ps)[i]]
            0 <= i < named_pieces(ps).len() ==> {
                &&& !named_pieces(ps)[i].contains('/')
                &&& names_component(named_pieces(ps)[i], i == 0 && ps.len() > 0 && ps[0].len() > 0)
            },
        named_pieces(ps).len() <= ps.len(),
    decreases ps.len(),
{
    if ps.len() > 0 {
        let before = ps.drop_last();
        assert forall|i: int| #![trigger before[i]] 0 <= i < before.len() implies !before[i].contains(
            '/',
        ) by {
            assert(before[i] == ps[i]);
        }
        lemma_named_pieces_fit(before);
        if before.len() > 0 {
            assert(before[0] == ps[0]);
        }
        assert(ps.last() == ps[ps.len() - 1]);
        assert forall|i: int| #![trigger named_pieces(ps)[i]]
            0 <= i < named_pieces(ps).len() implies {
            &&& !named_pieces(ps)[i].contains('/')
            &&& names_component(named_pieces(ps)[i], i == 0 && ps.len() > 0 && ps[0].len() > 0)
        } by {
            if i < named_pieces(before).len() {
                assert(named_pieces(ps)[i] == named_pieces(before)[i]);
            } else {
                if ps.len() == 1 {
                    assert(named_pieces(before).len() == 0);
                }
            }
        }
    }
}

/// The first piece of an absolute path is empty.
proof fn lemma_first_piece(t: Seq<char>)
    ensures
        pieces(t).len() > 0,
        is_absolute_text(t) ==> pieces(t).len() > 1 && pieces(t)[0].len() == 0,
    decreases t.len(),
{
    if t.len() > 0 {
        lemma_first_piece(t.drop_last());
        if t.len() == 1 {
            assert(t.drop_last().len() == 0);
        } else {
            assert(t.drop_last()[0] == t[0]);
        }
    }
}

/// The components of a text can stand in a path.
pub proof fn lemma_components_well_named(t: Seq<char>)
    ensures
        well_named(components(t)),
{
    let ps = pieces(t);
    lemma_pieces_plain(t);
    lemma_named_pieces_fit(ps);
    lemma_first_piece(t);
    let c = components(t);
    assert forall|i: int| #![trigger c[i]] 0 <= i < c.len() implies fits(c[i], i == 0) by {
        let k = i - root_part(t).len();
        if k >= 0 {
            assert(c[i] == named_pieces(ps)[k]);
        }
    }
}

/// Text without a slash lengthens the last piece.
pub proof fn lemma_pieces_extend(t: Seq<char>, w: Seq<char>)
    requires
        !w.contains('/'),
    ensures
        pieces(t + w) == pieces(t).update(pieces(t).len() - 1, pieces(t).last() + w),
    decreases w.len(),
{
    lemma_pieces_nonempty(t);
    if w.len() == 0 {
        assert(t + w =~= t);
        assert(pieces(t).last() + w =~= pieces(t).last());
        assert(pieces(t) =~= pieces(t).update(pieces(t).len() - 1, pieces(t).last() + w));
    } else {
        let v = w.drop_last();
        assert(!v.contains('/')) by {
            if v.contains('/') {
                let k = choose|k: int| 0 <= k < v.len() && v[k] == '/';
                assert(w[k] == '/');
            }
        }
        assert(w.last() != '/') by {
            assert(w[w.len() - 1] == w.last());
        }
        lemma_pieces_extend(t, v);
        assert((t + w).drop_last() =~= t + v);
        assert((t + w).last() == w.last());
        assert((pieces(t).last() + v).push(w.last()) =~= pieces(t).last() + w);
        assert(pieces(t + w) =~= pieces(t).update(pieces(t).len() - 1, pieces(t).last() + w));
    }
}

/// A slash between two texts keeps their pieces apart.
pub proof fn lemma_pieces_concat(a: Seq<char>, b: Seq<char>)
    ensures
        pieces(a.push('/') + b) == pieces(a) + pieces(b),
    decreases b.len(),
{
    if b.len() == 0 {
        assert(a.push('/') + b =~= a.push('/'));
        assert(a.push('/').drop_last() =~= a);
        assert(pieces(a).push(Seq::<char>::empty()) =~= pieces(a) + pieces(b));
    } else {
        let v = b.drop_last();
        lemma_pieces_concat(a, v);
        lemma_pieces_nonempty(v);
        assert((a.push('/') + b).drop_last() =~= a.push('/') + v);
        assert((a.push('/') + b).last() == b.last());
        assert(pieces(a.push('/') + b) =~= pieces(a) + pieces(b));
    }
}

/// The named pieces of two lists, the first of them not empty and the second not beginning
/// with `.`.
proof fn lemma_named_pieces_concat(xs: Seq<Seq<char>>, ys: Seq<Seq<char>>)
    requires
        xs.len() > 0,
        ys.len() > 0 ==> ys[0] != seq!['.'],
    ensures
        named_pieces(xs + ys) == named_pieces(xs) + named_pieces(ys),
    decreases ys.len(),
{
    if ys.len() == 0 {
        assert(xs + ys =~= xs);
        assert(named_pieces(xs) + named_pieces(ys) =~= named_pieces(xs));
    } else {
        let v = ys.drop_last();
        if v.len() > 0 {
            assert(v[0] == ys[0]);
        }
        lemma_named_pieces_concat(xs, v);
        assert((xs + ys).drop_last() =~= xs + v);
        assert((xs + ys).last() == ys.last());
        assert(named_pieces(xs + ys) =~= named_pieces(xs) + named_pieces(ys));
    }
}

/// A name put behind a path is its last component.
pub proof fn lemma_components_push(t: Seq<char>, name: Seq<char>)
    requires
        t.len() > 0,
        fits(name, false),
    ensures
        components(t.push('/') + name) == components(t).push(name),
{
    lemma_pieces_concat(t, name);
    lemma_pieces_extend(Seq::empty(), name);
    assert(Seq::<char>::empty() + name =~= name);
    assert(pieces(name) =~= seq![name]);
    assert(pieces(t) + pieces(name) =~= pieces(t).push(name));
    lemma_pieces_nonempty(t);
    let ps = pieces(t).push(name);
    assert(ps.drop_last() =~= pieces(t));
    assert((t.push('/') + name)[0] == t[0]);
    assert(components(t.push('/') + name) =~= components(t).push(name));
}

/// Components that can stand in a path are those of the text that joins them.
pub proof fn lemma_components_render(ns: Seq<Seq<char>>)
    requires
        well_named(ns),
    ensures
        components(render(ns)) == ns,
        render(ns).len() == 0 <==> ns.len() == 0,
    decreases ns.len(),
{
    let root: Seq<char> = seq!['/'];
    if ns.len() == 0 {
        assert(pieces(Seq::<char>::empty()) =~= seq![Seq::<char>::empty()]);
        let ps = seq![Seq::<char>::empty()];
        assert(named_pieces(ps.drop_last()) =~= Seq::empty());
        assert(named_pieces(ps) =~= Seq::empty());
        assert(components(render(ns)) =~= ns);
    } else if ns.len() == 1 {
        let n = ns[0];
        assert(fits(n, true));
        if n == root {
            assert(root.drop_last() =~= Seq::<char>::empty());
            assert(pieces(root.drop_last()) =~= seq![Seq::<char>::empty()]);
            let ps = pieces(root);
            assert(ps =~= seq![Seq::<char>::empty(), Seq::<char>::empty()]);
            assert(ps.drop_last() =~= seq![Seq::<char>::empty()]);
            assert(ps.drop_last().drop_last() =~= Seq::empty());
            assert(named_pieces(ps.drop_last().drop_last()) =~= Seq::empty());
            assert(named_pieces(ps.drop_last()) =~= Seq::empty());
            assert(named_pieces(ps) =~= Seq::empty());
            assert(components(n) =~= ns);
        } else {
            lemma_pieces_extend(Seq::empty(), n);
            assert(Seq::<char>::empty() + n =~= n);
            assert(pieces(n) =~= seq![n]);
            assert(seq![n].drop_last() =~= Seq::empty());
            assert(named_pieces(seq![n].drop_last()) =~= Seq::empty());
            assert(named_pieces(seq![n]) =~= seq![n]);
            assert(n[0] != '/') by {
                if n[0] == '/' {
                    assert(n.contains('/'));
                }
            }
            assert(components(n) =~= ns);
        }
    } else {
        let before = ns.drop_last();
        let name = ns.last();
        assert(name == ns[ns.len() - 1]);
        assert(fits(name, false));
        assert(well_named(before)) by {
            assert forall|i: int| #![trigger before[i]] 0 <= i < before.len() implies fits(
                before[i],
                i == 0,
            ) by {
                assert(before[i] == ns[i]);
            }
        }
        lemma_components_render(before);
        assert(before.push(name) =~= ns);
        if before == seq![root] {
            assert(before[0] == root);
            assert(render(before) =~= root);
            assert(root =~= Seq::<char>::empty().push('/'));
            lemma_pieces_concat(Seq::empty(), name);
            assert(root + name =~= Seq::<char>::empty().push('/') + name);
            lemma_pieces_extend(Seq::empty(), name);
            assert(Seq::<char>::empty() + name =~= name);
            assert(pieces(name) =~= seq![name]);
            let ps = seq![Seq::<char>::empty()].push(name);
            assert(pieces(root + name) =~= ps);
            assert(ps.drop_last() =~= seq![Seq::<char>::empty()]);
            assert(ps.drop_last().drop_last() =~= Seq::empty());
            assert(named_pieces(ps.drop_last().drop_last()) =~= Seq::empty());
            assert(named_pieces(ps.drop_last()) =~= Seq::empty());
            assert(named_pieces(ps) =~= seq![name]);
            assert((root + name)[0] == '/');
            assert(components(root + name) =~= ns);
        } else {
            lemma_components_push(render(before), name);
        }
    }
}

/// A relative path whose first component is not `.` adds its components to those of the path
/// that it is joined to.
pub proof fn lemma_components_join(base: Seq<char>, t: Seq<char>)
    requires
        !is_absolute_text(t),
        components(t).len() > 0 ==> components(t)[0] != seq!['.'],
    ensures
        components(join_text(base, t)) == components(base) + components(t),
{
    lemma_pieces_nonempty(base);
    lemma_pieces_nonempty(t);
    assert(components(t) =~= named_pieces(pieces(t)));
    lemma_first_kept(pieces(t));
    if base.len() == 0 {
        assert(base + t =~= t);
        let ps = pieces(base);
        assert(ps =~= seq![Seq::<char>::empty()]);
        assert(ps.drop_last() =~= Seq::empty());
        assert(named_pieces(ps.drop_last()) =~= Seq::empty());
        assert(named_pieces(ps) =~= Seq::empty());
        assert(components(base) + components(t) =~= components(t));
    } else if base.last() != '/' {
        lemma_pieces_concat(base, t);
        lemma_named_pieces_concat(pieces(base), pieces(t));
        assert((base.push('/') + t)[0] == base[0]);
        assert(components(join_text(base, t)) =~= components(base) + components(t));
    } else {
        let b = base.drop_last();
        assert(b.push('/') =~= base);
        lemma_pieces_concat(b, t);
        lemma_pieces_nonempty(b);
        lemma_named_pieces_concat(pieces(b), pieces(t));
        let ps = pieces(base);
        assert(ps.drop_last() =~= pieces(b));
        assert(named_pieces(ps) =~= named_pieces(pieces(b)));
        assert((base + t)[0] == base[0]);
        assert(components(join_text(base, t)) =~= components(base) + components(t));
    }
}

/// Where the first piece is `.`, so is the first named one.
proof fn lemma_first_kept(ps: Seq<Seq<char>>)
    requires
        ps.len() > 0,
    ensures
        ps[0] == seq!['.'] ==> named_pieces(ps).len() > 0 && named_pieces(ps)[0] == ps[0],
    decreases ps.len(),
{
    if ps[0] == seq!['.'] {
        if ps.len() == 1 {
            assert(named_pieces(ps.drop_last()) =~= Seq::empty());
            assert(ps.last() == ps[0]);
        } else {
            assert(ps.drop_last()[0] == ps[0]);
            lemma_first_kept(ps.drop_last());
        }
    }
}

/// The last name of a list of pieces stays the last one behind other pieces.
proof fn lemma_named_pieces_last(xs: Seq<Seq<char>>, ys: Seq<Seq<char>>)
    requires
        xs.len() > 0,
        named_pieces(ys).len() > 0,
        named_pieces(ys).last() != seq!['.'],
    ensures
        named_pieces(xs + ys).len() > 0,
        named_pieces(xs + ys).last() == named_pieces(ys).last(),
    decreases ys.len(),
{
    let all = xs + ys;
    assert(all.last() == ys.last());
    assert(all.drop_last() =~= xs + ys.drop_last());
    if !names_component(ys.last(), ys.len() == 1) {
        lemma_named_pieces_last(xs, ys.drop_last());
    }
}

/// A path that is put behind another one keeps its last name.
pub proof fn lemma_join_last(base: Seq<char>, t: Seq<char>)
    requires
        file_name_of(components(t)) is Some,
    ensures
        file_name_of(components(join_text(base, t))) == file_name_of(components(t)),
        has_parent(components(join_text(base, t))),
{
    if !is_absolute_text(t) {
        assert(components(t) =~= named_pieces(pieces(t)));
        let joined = join_text(base, t);
        lemma_pieces_nonempty(base);
        if base.len() == 0 {
            assert(joined =~= t);
        } else if base.last() != '/' {
            lemma_pieces_concat(base, t);
            lemma_named_pieces_last(pieces(base), pieces(t));
        } else {
            let front = base.drop_last();
            assert(base =~= front.push('/'));
            lemma_pieces_nonempty(front);
            lemma_pieces_concat(front, t);
            lemma_named_pieces_last(pieces(front), pieces(t));
        }
    }
}

/// The components of what has a name in a directory.
pub proof fn lemma_child_comps(base: Seq<char>, name: Seq<char>)
    requires
        is_file_name(name),
    ensures
        components(name) == seq![name],
        components(join_text(base, name)) == components(base).push(name),
{
    let ns = seq![name];
    assert(fits(ns[0], true));
    lemma_components_render(ns);
    assert(render(ns) =~= name);
    if is_absolute_text(name) {
        assert(name.contains(name[0]));
    }
    lemma_components_join(base, name);
    assert(components(base) + ns =~= components(base).push(name));
}

/// The named pieces of two lists, the first of them not empty and the second beginning with `.`,
/// which names nothing there.
proof fn lemma_named_pieces_here(xs: Seq<Seq<char>>, ys: Seq<Seq<char>>)
    requires
        xs.len() > 0,
        ys.len() > 0,
        ys[0] == seq!['.'],
    ensures
        named_pieces(ys).len() > 0,
        named_pieces(xs + ys) == named_pieces(xs) + named_pieces(ys).skip(1),
    decreases ys.len(),
{
    let v = ys.drop_last();
    assert((xs + ys).drop_last() =~= xs + v);
    assert((xs + ys).last() == ys.last());
    if ys.len() == 1 {
        assert(v =~= Seq::empty());
        assert(xs + v =~= xs);
        assert(named_pieces(v) =~= Seq::empty());
        assert(named_pieces(ys).skip(1) =~= Seq::empty());
        assert(named_pieces(xs + ys) =~= named_pieces(xs) + named_pieces(ys).skip(1));
    } else {
        assert(v[0] == ys[0]);
        lemma_named_pieces_here(xs, v);
        assert(named_pieces(xs + ys) =~= named_pieces(xs) + named_pieces(ys).skip(1));
    }
}

/// What a path names that is put behind another one is settled by what both name.
pub proof fn lemma_join_same(base: Seq<char>, a: Seq<char>, b: Seq<char>)
    requires
        components(a) == components(b),
    ensures
        components(join_text(base, a)) == components(join_text(base, b)),
{
    lemma_behind(base, a);
    lemma_behind(base, b);
}

/// What a path names that is put behind another one.
pub proof fn lemma_behind(base: Seq<char>, t: Seq<char>)
    ensures
        components(join_text(base, t)) == if base.len() == 0 || (components(t).len() > 0
            && components(t)[0] == seq!['/']) {
            components(t)
        } else if components(t).len() > 0 && components(t)[0] == seq!['.'] {
            components(base) + components(t).skip(1)
        } else {
            components(base) + components(t)
        },
{
    let root: Seq<char> = seq!['/'];
    let here: Seq<char> = seq!['.'];
    let ns = components(t);
    if is_absolute_text(t) {
        assert(root_part(t).len() == 1);
        assert(ns[0] == root);
    } else {
        assert(ns =~= named_pieces(pieces(t)));
        lemma_pieces_plain(t);
        lemma_named_pieces_fit(pieces(t));
        if ns.len() > 0 && ns[0] == root {
            assert(ns[0][0] == '/');
            lemma_components_well_named(t);
            assert(named_pieces(pieces(t))[0] == root);
            assert(root.contains('/'));
        }
        if base.len() == 0 {
            assert(base + t =~= t);
        } else if ns.len() > 0 && ns[0] == here {
            assert(here[0] == '.' && root[0] == '/');
            lemma_pieces_nonempty(t);
            lemma_here_is_first(pieces(t));
            if base.last() != '/' {
                lemma_pieces_concat(base, t);
                lemma_pieces_nonempty(base);
                lemma_named_pieces_here(pieces(base), pieces(t));
                assert((base.push('/') + t)[0] == base[0]);
                assert(components(join_text(base, t)) =~= components(base) + ns.skip(1));
            } else {
                let front = base.drop_last();
                assert(front.push('/') =~= base);
                lemma_pieces_concat(front, t);
                lemma_pieces_nonempty(front);
                lemma_named_pieces_here(pieces(front), pieces(t));
                let ps = pieces(base);
                assert(ps.drop_last() =~= pieces(front));
                assert(named_pieces(ps) =~= named_pieces(pieces(front)));
                assert((base + t)[0] == base[0]);
                assert(components(join_text(base, t)) =~= components(base) + ns.skip(1));
            }
        } else {
            lemma_components_join(base, t);
        }
    }
}

/// Where the first named piece is `.`, it is the first piece.
proof fn lemma_here_is_first(ps: Seq<Seq<char>>)
    requires
        named_pieces(ps).len() > 0,
        named_pieces(ps)[0] == seq!['.'],
    ensures
        ps.len() > 0,
        ps[0] == seq!['.'],
    decreases ps.len(),
{
    let before = named_pieces(ps.drop_last());
    if before.len() > 0 {
        assert(named_pieces(ps)[0] == before[0]);
        lemma_here_is_first(ps.drop_last());
    } else {
        assert(named_pieces(ps)[0] == ps.last());
        assert(ps.len() == 1);
    }
}

} // verus!
