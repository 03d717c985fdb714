//! What paths are: which names a text spells, how paths lie in one another and in which order they
//! stand, and where a path of a worktree lies in the file system.
use crate::file::File;
use crate::local_snapshot::LocalSnapshot;
use crate::local_worktree::LocalWorktree;
use crate::path::{
    chars_lt, components, file_name_of, is_absolute_text, is_child_of, is_name, join_text, name_class,
    name_lt, names_lt, nested_in, pieces, KeyOrder, Path,
};
use crate::path_lemmas::{
    lemma_behind, lemma_components_join, lemma_components_push, lemma_names_lt_asymmetric,
    lemma_pieces_nonempty,
};
use crate::path_text::lemma_first_written;
use crate::refresh::absolute_text;
use crate::traversal::lemma_components_empty;
use crate::worktree::Worktree;
use std::sync::Arc;
use vstd::prelude::*;

verus! {

/// A slash and a name behind a text name one component more; a slash alone, or one more slash,
/// names nothing.
pub proof fn law_slash_separates(t: Seq<char>, name: Seq<char>)
    requires
        t.len() > 0,
        name.len() > 0,
        !name.contains('/'),
        name != seq!['.'],
    ensures
        components(t.push('/') + name) == components(t).push(name),
        components(t.push('/')) == components(t),
        components(t.push('/').push('/') + name) == components(t).push(name),
        components(t.push('/').push('.')) == components(t),
{
    let u = t.push('/');
    let here: Seq<char> = seq!['.'];
    lemma_components_push(t, name);
    assert(u.drop_last() =~= t);
    lemma_pieces_nonempty(t);
    assert(pieces(u).drop_last() =~= pieces(t));
    assert(u[0] == t[0]);
    lemma_components_push(u, name);
    lemma_pieces_nonempty(u);
    let v = u.push('.');
    assert(v.drop_last() =~= u);
    assert(pieces(u).last() =~= Seq::empty());
    assert(pieces(v).last() =~= here);
    assert(pieces(v).drop_last() =~= pieces(t));
    assert(v[0] == t[0]);
}

/// A name alone is its own component, the root is one, and nothing names nothing. What an absolute
/// path names below the root is what is written behind the first slash.
pub proof fn law_components_begin(name: Seq<char>)
    requires
        name.len() > 0,
        !name.contains('/'),
    ensures
        components(name) == seq![name],
        components(seq!['/']) == seq![seq!['/']],
        components(Seq::empty()) == Seq::<Seq<char>>::empty(),
        name != seq!['.'] ==> components(seq!['/'] + name) == seq![seq!['/'], name],
{
    let none = Seq::<char>::empty();
    let root: Seq<char> = seq!['/'];
    let ns = seq![name];
    lemma_components_empty();
    assert(crate::path::fits(ns[0], true));
    assert(crate::path::well_named(ns));
    crate::path_lemmas::lemma_components_render(ns);
    assert(crate::path::fits(root, true));
    assert(crate::path::well_named(seq![root]));
    crate::path_lemmas::lemma_components_render(seq![root]);
    if name != seq!['.'] {
        let both = seq![root, name];
        assert(crate::path::well_named(both));
        assert(both.drop_last() =~= seq![root]);
        assert(crate::path::render(seq![root]) =~= root);
        crate::path_lemmas::lemma_components_render(both);
    }
}

/// A path lies in another one exactly where something can be put behind the other one to make it.
pub proof fn law_nested_is_prefix(a: Seq<Seq<char>>, base: Seq<Seq<char>>)
    ensures
        nested_in(a, base) <==> exists|rest: Seq<Seq<char>>| a == #[trigger] (base + rest),
        is_child_of(a, base) <==> exists|name: Seq<char>| a == #[trigger] base.push(name),
{
    if nested_in(a, base) {
        let rest = a.skip(base.len() as int);
        assert(base + rest =~= a) by {
            assert forall|i: int| 0 <= i < a.len() implies (base + rest)[i] == a[i] by {
                if i < base.len() {
                    assert(a.subrange(0, base.len() as int)[i] == base[i]);
                }
            }
        }
    }
    if exists|rest: Seq<Seq<char>>| a == #[trigger] (base + rest) {
        let rest = choose|rest: Seq<Seq<char>>| a == #[trigger] (base + rest);
        assert(base =~= a.subrange(0, base.len() as int));
    }
    if is_child_of(a, base) {
        assert(a =~= base.push(a.last()));
    }
    if exists|name: Seq<char>| a == #[trigger] base.push(name) {
        let name = choose|name: Seq<char>| a == #[trigger] base.push(name);
        assert(a.drop_last() =~= base);
    }
}

/// Of two paths the one comes first whose component is the lesser where they first differ, and a
/// path comes before what lies in it.
pub proof fn law_first_difference_decides(a: Seq<Seq<char>>, b: Seq<Seq<char>>, k: int)
    requires
        0 <= k <= a.len(),
        k <= b.len(),
        a.take(k) == b.take(k),
        k < a.len() && k < b.len() ==> a[k] != b[k],
    ensures
        k == a.len() && k < b.len() ==> names_lt(a, b),
        k == b.len() ==> !names_lt(a, b),
        k < a.len() && k < b.len() ==> (names_lt(a, b) <==> name_lt(a[k], b[k])),
    decreases k,
{
    if k > 0 {
        assert(a.take(k)[0] == b.take(k)[0]);
        let s = a.drop_first();
        let t = b.drop_first();
        assert(s.take(k - 1) =~= a.take(k).drop_first());
        assert(t.take(k - 1) =~= b.take(k).drop_first());
        law_first_difference_decides(s, t, k - 1);
        crate::path_lemmas::lemma_name_lt_irreflexive(a[0]);
    }
}

/// Of two names the one comes first whose character is the lesser where they first differ, and
/// what a name begins with comes before it. The root comes before `.`, that before `..`, and that
/// before all other names.
pub proof fn law_names_stand_in_order(a: Seq<char>, b: Seq<char>, k: int)
    requires
        0 <= k <= a.len(),
        k <= b.len(),
        a.take(k) == b.take(k),
        k < a.len() && k < b.len() ==> a[k] != b[k],
    ensures
        k == a.len() && k < b.len() ==> chars_lt(a, b),
        k == b.len() ==> !chars_lt(a, b),
        k < a.len() && k < b.len() ==> (chars_lt(a, b) <==> a[k] < b[k]),
        ({
            let special: Seq<Seq<char>> = seq![seq!['/'], seq!['.'], seq!['.', '.']];
            &&& !special.contains(a) && !special.contains(b) ==> (name_lt(a, b) <==> chars_lt(a, b))
            &&& forall|i: int|
                #![trigger special[i]]
                0 <= i < 3 && a == special[i] && !special.contains(b) ==> name_lt(a, b)
            &&& forall|i: int, j: int|
                #![trigger special[i], special[j]]
                0 <= i < j < 3 ==> name_lt(special[i], special[j])
        }),
    decreases k,
{
    if k > 0 {
        assert(a.take(k)[0] == b.take(k)[0]);
        let s = a.drop_first();
        let t = b.drop_first();
        assert(s.take(k - 1) =~= a.take(k).drop_first());
        assert(t.take(k - 1) =~= b.take(k).drop_first());
        law_names_stand_in_order(s, t, k - 1);
        assert(a[0] == a.take(k)[0] && b[0] == b.take(k)[0]);
    }
    let special: Seq<Seq<char>> = seq![seq!['/'], seq!['.'], seq!['.', '.']];
    lemma_classes(a);
    lemma_classes(b);
    lemma_classes(special[0]);
    lemma_classes(special[1]);
    lemma_classes(special[2]);
    assert(special[0][0] == '/' && special[1][0] == '.' && special[2].len() == 2);
}

/// The root is in a class of its own.
pub proof fn lemma_root_class(n: Seq<char>)
    ensures
        name_class(n) == 0 <==> n == seq!['/'],
{
    lemma_classes(n);
}

/// The class of a name.
proof fn lemma_classes(n: Seq<char>)
    ensures
        ({
            let special: Seq<Seq<char>> = seq![seq!['/'], seq!['.'], seq!['.', '.']];
            &&& special.contains(n) <==> name_class(n) < 3
            &&& n == special[0] ==> name_class(n) == 0
            &&& n == special[1] ==> name_class(n) == 1
            &&& n == special[2] ==> name_class(n) == 2
            &&& name_class(n) <= 3
        }),
{
    let special: Seq<Seq<char>> = seq![seq!['/'], seq!['.'], seq!['.', '.']];
    let a: Seq<char> = seq!['/'];
    let b: Seq<char> = seq!['.'];
    let c: Seq<char> = seq!['.', '.'];
    assert(special[0] == a && special[1] == b && special[2] == c);
    assert(a[0] == '/' && b[0] == '.' && a.len() == 1 && b.len() == 1 && c.len() == 2);
    if special.contains(n) {
        let i = choose|i: int| 0 <= i < special.len() && special[i] == n;
        assert(i == 0 || i == 1 || i == 2);
    }
}

/// The file name of a path is its last component, unless that is the root, `.` or `..`.
pub proof fn law_file_name_is_last(ns: Seq<Seq<char>>)
    ensures
        file_name_of(ns) == if ns.len() > 0 && ns.last() != seq!['/'] && ns.last() != seq!['.']
            && ns.last() != seq!['.', '.'] {
            Some(ns.last())
        } else {
            None
        },
{
}

/// What is put behind a path is written behind it, with one slash between them where the path does
/// not end in one; but an absolute path stands for itself.
pub proof fn law_join_puts_behind(base: Seq<char>, t: Seq<char>)
    ensures
        t.len() > 0 && t[0] == '/' ==> join_text(base, t) == t,
        !(t.len() > 0 && t[0] == '/') && (base.len() == 0 || base.last() == '/') ==> join_text(
            base,
            t,
        ) == base + t,
        !(t.len() > 0 && t[0] == '/') && base.len() > 0 && base.last() != '/' ==> join_text(base, t)
            == base + seq!['/'] + t,
{
    assert(base + seq!['/'] + t =~= base.push('/') + t);
}

/// Where a path of a worktree lies in the file system: a relative path whose last component is a
/// name, however long it is, lies below the root, at its own components. An absolute path lies where
/// it says, and a path that does not end in a name is that of the root.
pub proof fn law_absolute_path_is_below_root(root: Seq<char>, path: Seq<char>)
    ensures
        ({
            let ns = components(path);
            let abs = absolute_text(root, path);
            let named = ns.len() > 0 && ns.last() != seq!['/'] && ns.last() != seq!['.']
                && ns.last() != seq!['.', '.'];
            let is_absolute = path.len() > 0 && path[0] == '/';
            &&& named && !is_absolute && ns[0] != seq!['.'] ==> components(abs) == components(root)
                + ns
            &&& named && !is_absolute && ns[0] == seq!['.'] && root.len() > 0 ==> components(abs)
                == components(root) + ns.skip(1)
            &&& named && is_absolute ==> abs == path
            &&& !named ==> abs == root
        }),
{
    let slash: Seq<char> = seq!['/'];
    let ns = components(path);
    law_file_name_is_last(ns);
    lemma_behind(root, path);
    if !is_absolute_text(path) && ns.len() > 0 && ns[0] != seq!['.'] {
        lemma_components_join(root, path);
    }
    if ns.len() > 0 && ns[0] == seq!['.'] {
        assert(seq!['.'][0] == '.');
        assert(slash[0] == '/');
    }
}

/// Paths of a worktree that differ lie at different places in the file system.
pub proof fn law_absolute_paths_differ(root: Seq<char>, a: Seq<char>, b: Seq<char>)
    requires
        ends_in_name(components(a)),
        ends_in_name(components(b)),
        components(a)[0] != seq!['/'],
        components(b)[0] != seq!['/'],
        components(a)[0] != seq!['.'],
        components(b)[0] != seq!['.'],
        components(a) != components(b),
    ensures
        components(absolute_text(root, a)) != components(absolute_text(root, b)),
        absolute_text(root, a) != absolute_text(root, b),
        nested_in(components(absolute_text(root, a)), components(root)),
{
    let top = components(root);
    let x = components(a);
    let y = components(b);
    lemma_not_absolute(a);
    lemma_not_absolute(b);
    law_absolute_path_is_below_root(root, a);
    law_absolute_path_is_below_root(root, b);
    law_nested_is_prefix(top + x, top);
    if top + x == top + y {
        assert(x =~= y) by {
            assert((top + x).len() == (top + y).len());
            assert forall|i: int| 0 <= i < x.len() implies x[i] == y[i] by {
                assert((top + x)[top.len() + i] == (top + y)[top.len() + i]);
            }
        }
    }
}

/// The absolute path that is made of a path of a worktree, however it comes to be asked for: a
/// relative path whose last component is a name, however long it is, lies below the root, at its own
/// components; an absolute path lies where it says; and a path that does not end in a name is that of
/// the root.
pub proof fn law_absolutized_path_is_below_root(l: &LocalSnapshot, path: &Path, r: Path)
    requires
        call_ensures(LocalSnapshot::absolutize, (l, path), r),
    ensures
        ({
            let ns = path.comps();
            let rooted = path@.len() > 0 && path@[0] == '/';
            &&& ends_in_name(ns) && !rooted && ns[0] != seq!['.'] ==> r.comps()
                == l.snap().root_path().comps() + ns
            &&& ends_in_name(ns) && !rooted && ns[0] == seq!['.'] && l.snap().root_path()@.len() > 0
                ==> r.comps() == l.snap().root_path().comps() + ns.skip(1)
            &&& ends_in_name(ns) && rooted ==> r@ == path@
            &&& !ends_in_name(ns) ==> r@ == l.snap().root_path()@
        }),
{
    lemma_below_root(l.snap().root_path()@, path@);
}

/// A local worktree makes absolute paths as its snapshot does.
pub proof fn law_worktree_path_is_below_root(w: &LocalWorktree, path: &Path, r: Path)
    requires
        call_ensures(LocalWorktree::absolutize, (w, path), r),
    ensures
        ({
            let ns = path.comps();
            let rooted = path@.len() > 0 && path@[0] == '/';
            let root = w.local().snap().root_path();
            &&& ends_in_name(ns) && !rooted && ns[0] != seq!['.'] ==> r.comps()
                == root.comps() + ns
            &&& ends_in_name(ns) && !rooted && ns[0] == seq!['.'] && root@.len() > 0 ==> r.comps()
                == root.comps() + ns.skip(1)
            &&& ends_in_name(ns) && rooted ==> r@ == path@
            &&& !ends_in_name(ns) ==> r@ == root@
        }),
{
    lemma_below_root(w.local().snap().root_path()@, path@);
}

/// A file is loaded from where its path lies below the root of its worktree, and its absolute path is
/// the same one where its path ends in a name.
pub proof fn law_file_is_loaded_from_below_root(file: &File, worktree: &Worktree, r: Path, abs: Path)
    requires
        call_ensures(File::load, (file, worktree), r),
        call_ensures(File::abs_path, (file, worktree), abs),
    ensures
        ({
            let ns = file.path.comps();
            let rooted = file.path@.len() > 0 && file.path@[0] == '/';
            let root = worktree.snap().root_path();
            &&& ends_in_name(ns) && !rooted && ns[0] != seq!['.'] ==> r.comps()
                == root.comps() + ns
            &&& ns.len() > 0 && !rooted && ns[0] != seq!['.'] ==> abs.comps()
                == root.comps() + ns
            &&& ends_in_name(ns) && !rooted && ns[0] == seq!['.'] && root@.len() > 0 ==> r.comps()
                == root.comps() + ns.skip(1)
            &&& ends_in_name(ns) && rooted ==> r@ == file.path@ && abs@ == file.path@
            &&& !ends_in_name(ns) ==> r@ == root@
            &&& file.path@.len() == 0 ==> abs.comps() == root.comps()
        }),
{
    lemma_below_root(worktree.snap().root_path()@, file.path@);
    if file.path.comps().len() > 0 && !is_absolute_text(file.path@) && file.path.comps()[0]
        != seq!['.'] {
        lemma_components_join(worktree.snap().root_path()@, file.path@);
    }
    let root = worktree.snap().root_path()@;
    if file.path@.len() == 0 && root.len() > 0 {
        let name: Seq<char> = seq!['a'];
        assert(name != seq!['.']) by {
            assert(name[0] != seq!['.'][0]);
        }
        law_slash_separates(root, name);
        assert(root.push('/') + file.path@ =~= root.push('/'));
    }
    assert(root + Seq::<char>::empty() =~= root);
    if file.path@.len() == 0 {
        assert(file.path@ =~= Seq::empty());
    }
}

pub proof fn lemma_below_root(root: Seq<char>, path: Seq<char>)
    ensures
        ({
            let ns = components(path);
            let rooted = path.len() > 0 && path[0] == '/';
            let abs = absolute_text(root, path);
            &&& ends_in_name(ns) && !rooted && ns[0] != seq!['.'] ==> components(abs)
                == components(root) + ns
            &&& ends_in_name(ns) && !rooted && ns[0] == seq!['.'] && root.len() > 0 ==> components(abs)
                == components(root) + ns.skip(1)
            &&& ends_in_name(ns) && rooted ==> abs == path
            &&& !ends_in_name(ns) ==> abs == root
        }),
{
    law_absolute_path_is_below_root(root, path);
}

/// Whether a path lies in another one, and what is left of it then: what is put behind the other one to
/// make it.
pub proof fn law_prefix_is_stripped(path: &Path, base: &Path, is_in: bool, r: Option<Path>)
    requires
        call_ensures(Path::starts_with, (path, base), is_in),
        call_ensures(Path::strip_prefix, (path, base), r),
    ensures
        is_in <==> exists|rest: Seq<Seq<char>>| path.comps() == #[trigger] (base.comps() + rest),
        r is Some <==> is_in,
        r matches Some(p) ==> path.comps() == base.comps() + p.comps(),
{
    law_nested_is_prefix(path.comps(), base.comps());
    if nested_in(path.comps(), base.comps()) {
        let n = base.comps().len() as int;
        assert(base.comps() + path.comps().skip(n) =~= path.comps()) by {
            assert forall|i: int| 0 <= i < path.comps().len() implies (base.comps() + path.comps().skip(
                n,
            ))[i] == path.comps()[i] by {
                if i < n {
                    assert(path.comps().subrange(0, n)[i] == base.comps()[i]);
                }
            }
        }
    }
}

/// The parent of a path has all its components but the last one, which is not the root; and the paths
/// above it have ever fewer of them, the nearest first, down to the root or to none.
pub proof fn law_paths_above_are_shorter(
    path: &Path,
    up: Option<Path>,
    above: Vec<Arc<Path>>,
    i: int,
)
    requires
        call_ensures(Path::parent, (path,), up),
        call_ensures(Path::ancestors, (path,), above),
    ensures
        ({
            let ns = path.comps();
            let rooted = ns.len() > 0 && ns[0] == seq!['/'];
            &&& up is Some <==> ns.len() > 0 && ns.last() != seq!['/']
            &&& up matches Some(p) ==> ns == p.comps().push(ns.last())
            &&& above@.len() == if rooted {
                ns.len() - 1
            } else {
                ns.len() as int
            }
            &&& 0 <= i < above@.len() ==> above@[i].comps() == ns.take(ns.len() - 1 - i)
        }),
{
    let ns = path.comps();
    lemma_classes(seq!['/']);
    if ns.len() > 0 {
        lemma_classes(ns[0]);
        lemma_classes(ns.last());
        assert(ns =~= ns.drop_last().push(ns.last()));
    }
}

/// A path that is put behind another one lies there; an absolute one stands for itself.
pub proof fn law_joined_path_lies_behind(base: &Path, path: &Path, r: Path)
    requires
        call_ensures(Path::join, (base, path), r),
    ensures
        path@.len() > 0 && path@[0] == '/' ==> r@ == path@,
        !(path@.len() > 0 && path@[0] == '/') && path.comps().len() > 0 && path.comps()[0] != seq!['.']
            ==> r.comps() == base.comps() + path.comps(),
{
    if !is_absolute_text(path@) && path.comps().len() > 0 && path.comps()[0] != seq!['.'] {
        lemma_components_join(base@, path@);
    }
}

/// The file name of a path is its last component, unless that is the root, `.` or `..`.
pub proof fn law_file_name_is_told(path: &Path, name: &str, r: Option<String>, is_it: bool)
    requires
        call_ensures(Path::file_name, (path,), r),
        call_ensures(Path::file_name_is, (path, name), is_it),
    ensures
        r is Some <==> ends_in_name(path.comps()),
        r matches Some(n) ==> n@ == path.comps().last(),
        is_it <==> ends_in_name(path.comps()) && path.comps().last() == name@,
{
    law_file_name_is_last(path.comps());
}

/// Comparing paths: they are the same where their components are; else the one comes first that names
/// the lesser component where they first differ, or has none there. The other way round the answer is
/// the other way round.
pub proof fn law_paths_are_compared(a: &Path, b: &Path, k: int, r: KeyOrder, back: KeyOrder)
    requires
        call_ensures(Path::compare, (a, b), r),
        call_ensures(Path::compare, (b, a), back),
        0 <= k <= a.comps().len(),
        k <= b.comps().len(),
        a.comps().take(k) == b.comps().take(k),
        k < a.comps().len() && k < b.comps().len() ==> a.comps()[k] != b.comps()[k],
    ensures
        r is Same <==> a.comps() == b.comps(),
        r is Same <==> back is Same,
        r is Less <==> back is Greater,
        r is Less <==> k < b.comps().len() && (k == a.comps().len() || name_lt(
            a.comps()[k],
            b.comps()[k],
        )),
{
    law_first_difference_decides(a.comps(), b.comps(), k);
    law_first_difference_decides(b.comps(), a.comps(), k);
    if names_lt(a.comps(), b.comps()) && names_lt(b.comps(), a.comps()) {
        lemma_names_lt_asymmetric(a.comps(), b.comps());
    }
    crate::path_lemmas::lemma_names_lt_irreflexive(a.comps());
}

/// Whether components end in a name that a file can have.
pub open spec fn ends_in_name(ns: Seq<Seq<char>>) -> bool {
    ns.len() > 0 && ns.last() != seq!['/'] && ns.last() != seq!['.'] && ns.last() != seq!['.', '.']
}

/// An absolute path begins with the root.
proof fn lemma_not_absolute(t: Seq<char>)
    ensures
        is_absolute_text(t) ==> components(t).len() > 0 && components(t)[0] == seq!['/'],
{
}

/// Paths of a worktree that differ are made different absolute paths, below its root.
pub proof fn law_absolutized_paths_differ(l: &LocalSnapshot, a: &Path, b: &Path, r: Path, q: Path)
    requires
        call_ensures(LocalSnapshot::absolutize, (l, a), r),
        call_ensures(LocalSnapshot::absolutize, (l, b), q),
        ends_in_name(a.comps()),
        ends_in_name(b.comps()),
        a.comps()[0] != seq!['/'],
        b.comps()[0] != seq!['/'],
        a.comps()[0] != seq!['.'],
        b.comps()[0] != seq!['.'],
        a.comps() != b.comps(),
    ensures
        r.comps() != q.comps(),
        nested_in(r.comps(), l.snap().root_path().comps()),
        nested_in(q.comps(), l.snap().root_path().comps()),
{
    law_absolute_paths_differ(l.snap().root_path()@, a@, b@);
    law_absolute_paths_differ(l.snap().root_path()@, b@, a@);
}

/// A name can be that of a file in a directory where something is written, no slash is in it, and it is
/// neither `.` nor `..`.
pub proof fn law_names_of_files(t: &str, r: bool)
    requires
        call_ensures(is_name, (t,), r),
    ensures
        r <==> t@.len() > 0 && !t@.contains('/') && t@ != seq!['.'] && t@ != seq!['.', '.'],
{
    lemma_classes(t@);
    let special: Seq<Seq<char>> = seq![seq!['/'], seq!['.'], seq!['.', '.']];
    if t@ == special[0] {
        assert(t@[0] == '/');
        assert(t@.contains('/'));
    }
    if special.contains(t@) {
        let i = choose|i: int| 0 <= i < special.len() && special[i] == t@;
        assert(i == 0 || i == 1 || i == 2);
    }
    if t@ == special[1] {
        assert(special.contains(t@));
    }
    if t@ == special[2] {
        assert(special.contains(t@));
    }
}

/// Paths are the same where their components are, and as deep as they have components.
pub proof fn law_same_paths_have_same_components(a: &Path, b: &Path, r: bool, n: usize)
    requires
        call_ensures(Path::same, (a, b), r),
        call_ensures(Path::depth, (a,), n),
    ensures
        r <==> a.comps() == b.comps(),
        n == a.comps().len(),
{
}

/// The parent of a path is written as the path begins, without a slash behind it, unless it is the root;
/// and what is left of a path behind another one does not begin with a slash.
pub proof fn law_parts_are_written_without_slashes(
    path: &Path,
    up: Option<Path>,
    base: &Path,
    rest: Option<Path>,
)
    requires
        call_ensures(Path::parent, (path,), up),
        call_ensures(Path::strip_prefix, (path, base), rest),
    ensures
        up matches Some(p) ==> {
            &&& p@.len() <= path@.len()
            &&& p@ == path@.take(p@.len() as int)
            &&& p@.len() > 1 ==> p@.last() != '/'
        },
        rest matches Some(p) ==> base.comps().len() > 0 ==> !(p@.len() > 0 && p@[0] == '/'),
{
    let ns = path.comps();
    if up is Some {
        let p = up->0@;
        lemma_first_written(path@, ns.len() - 1);
        if p.len() > 1 && p.last() == '/' {
            let t = p.drop_last();
            let name: Seq<char> = seq!['a'];
            assert(name != seq!['.']) by {
                assert(name[0] != seq!['.'][0]);
            }
            law_slash_separates(t, name);
            assert(t.push('/') =~= p);
            assert(t =~= path@.take(t.len() as int));
        }
    }
    if rest is Some && base.comps().len() > 0 {
        let p = rest->0;
        let n = base.comps().len() as int;
        if p@.len() > 0 && p@[0] == '/' {
            lemma_not_absolute(p@);
            crate::path_lemmas::lemma_components_well_named(path@);
            assert(p.comps()[0] == ns[n]);
            assert(crate::path::fits(ns[n], n == 0));
            assert(seq!['/'][0] == '/');
            assert(ns[n].contains('/')) by {
                assert(ns[n][0] == '/');
            }
        }
    }
}

} // verus!
