//! What holds of ignored paths and entries as a whole.
use crate::entry::Entry;
use crate::ignore_stack::{is_ignored_by, layers_ignore, IgnoreRules, Layer};
use crate::local_snapshot::{
    path_ignored, rules_above, rules_for, rules_in, Ignores, LocalSnapshot,
};
use crate::path::{
    components, is_absolute_text, is_file_name, join_text, names_lt, nested_in, render, root_length,
    well_named, Path,
};
use crate::path_lemmas::{
    lemma_child_comps, lemma_components_join, lemma_components_render, lemma_names_lt_asymmetric, lemma_nested_is_after,
    lemma_nested_transitive,
};
use crate::path_text::{
    lemma_first_of_beginning, lemma_first_of_child, lemma_first_of_first, lemma_first_written,
    lemma_trimmed, text_behind, text_of_first, trimmed,
};
use crate::snapshot::ByPath;
use crate::statuses::{
    are_changed_dirs, are_dirs_apart, dir_statuses, fresh_ignores, is_changed_dir, is_inside,
    lemma_distinct, lemma_inside_ends, lemma_inside_entry, lemma_restate_known, place_of, relative,
    restate, restated, Statuses,
};
use crate::sum_tree::{by_key, lemma_item_with, lemma_key_index, sorted};
use crate::traversal::after_subtree;
use std::sync::Arc;
use vstd::prelude::*;

verus! {

/// Whether all names of a path can stand in directories.
pub open spec fn is_plain(p: Seq<Seq<char>>) -> bool {
    forall|i: int| #![trigger p[i]] 0 <= i < p.len() ==> is_file_name(p[i])
}

/// What lies at a path of the worktree, as it is written.
pub open spec fn place(root: Seq<char>, p: Seq<Seq<char>>) -> Seq<char> {
    join_text(root, render(p))
}

/// Whether a text is that of a path of the worktree. The root can be written with a slash behind it
/// or without one.
pub open spec fn is_at(root: Seq<char>, p: Seq<Seq<char>>, t: Seq<char>) -> bool {
    t == place(root, p) || p.len() == 0 && t == root
}

/// What plain names that are joined by slashes look like.
pub proof fn lemma_plain_text(p: Seq<Seq<char>>)
    requires
        is_plain(p),
    ensures
        components(render(p)) == p,
        !is_absolute_text(render(p)),
        p.len() > 0 ==> p[0] != seq!['.'],
        p.len() > 0 ==> render(p).len() > 0 && render(p).last() != '/',
{
    assert(well_named(p)) by {
        assert forall|i: int| #![trigger p[i]] 0 <= i < p.len() implies crate::path::fits(
            p[i],
            i == 0,
        ) by {
            assert(is_file_name(p[i]));
        }
    }
    lemma_components_render(p);
    let slash: Seq<char> = seq!['/'];
    if is_absolute_text(render(p)) {
        assert(p[0] == slash);
        assert(slash.contains(slash[0]));
        assert(is_file_name(p[0]));
    }
    if p.len() > 0 {
        let last = p[p.len() - 1];
        assert(is_file_name(p[0]));
        assert(is_file_name(last));
        assert(last.len() > 0);
        assert(last.contains(last.last()));
        assert(render(p).last() == last.last());
    }
}

/// A plain path and one name more.
pub proof fn lemma_plain_child(p: Seq<Seq<char>>, name: Seq<char>)
    requires
        is_plain(p),
        is_file_name(name),
    ensures
        is_plain(p.push(name)),
        render(p.push(name)) == join_text(render(p), name),
{
    let q = p.push(name);
    lemma_plain_text(p);
    assert(q.drop_last() =~= p);
    assert forall|i: int| #![trigger q[i]] 0 <= i < q.len() implies is_file_name(q[i]) by {
        if i < p.len() {
            assert(q[i] == p[i]);
        }
    }
    if is_absolute_text(name) {
        assert(name.contains(name[0]));
    }
    let slash: Seq<char> = seq!['/'];
    if p.len() == 0 {
        assert(render(p) + name =~= name);
    } else {
        assert(is_file_name(p[0]));
        assert(slash.contains(slash[0]));
        assert(p != seq![slash]) by {
            assert(seq![slash][0] == slash);
        }
    }
}

/// What is the first part of a plain path is plain.
pub proof fn lemma_plain_parent(p: Seq<Seq<char>>)
    requires
        is_plain(p),
        p.len() > 0,
    ensures
        is_plain(p.drop_last()),
        is_file_name(p.last()),
        p == p.drop_last().push(p.last()),
{
    let q = p.drop_last();
    assert(p =~= q.push(p.last()));
    assert(is_file_name(p[p.len() - 1]));
    assert forall|i: int| #![trigger q[i]] 0 <= i < q.len() implies is_file_name(q[i]) by {
        assert(q[i] == p[i]);
    }
}

/// The components of what lies at a path of the worktree.
pub proof fn lemma_place(root: Seq<char>, p: Seq<Seq<char>>)
    requires
        is_plain(p),
    ensures
        components(place(root, p)) == components(root) + p,
{
    lemma_plain_text(p);
    lemma_components_join(root, render(p));
}

/// What lies in a directory of the worktree is written as the directory is, and then the name.
pub proof fn lemma_place_child(root: Seq<char>, p: Seq<Seq<char>>, t: Seq<char>, name: Seq<char>)
    requires
        is_plain(p),
        is_file_name(name),
        is_at(root, p, t),
    ensures
        place(root, p.push(name)) == join_text(t, name),
        components(t) == components(root) + p,
        trimmed(t) == trimmed(place(root, p)),
{
    let q = p.push(name);
    let a = place(root, p);
    lemma_plain_child(p, name);
    lemma_plain_text(p);
    lemma_plain_text(q);
    lemma_place(root, p);
    if is_absolute_text(name) {
        assert(name.contains(name[0]));
    }
    assert(join_text(a, name) =~= place(root, q)) by {
        if p.len() == 0 {
            assert(render(p) =~= Seq::empty());
            assert(render(q) =~= name);
        }
    }
    if t != a {
        assert(render(p) =~= Seq::empty());
        assert(join_text(root, name) =~= place(root, q)) by {
            assert(render(q) =~= name);
        }
        assert(root =~= a.take(root.len() as int));
        assert(components(root) + p =~= components(root));
        lemma_first_of_beginning(root, a, components(root).len() as int);
    }
}

/// What is said of a path does not depend on the slashes behind it.
pub proof fn lemma_verdict_trimmed(rules: IgnoreRules, a: Seq<char>, b: Seq<char>, is_dir: bool)
    requires
        trimmed(a) == trimmed(b),
    ensures
        components(a) == components(b),
        is_ignored_by(rules, a, is_dir) == is_ignored_by(rules, b, is_dir),
{
    lemma_trimmed(a);
    lemma_trimmed(b);
    if rules is Layers {
        lemma_layers_trimmed(rules->Layers_0, a, b, is_dir);
    }
}

proof fn lemma_layers_trimmed(layers: Seq<Layer>, a: Seq<char>, b: Seq<char>, is_dir: bool)
    requires
        trimmed(a) == trimmed(b),
    ensures
        layers_ignore(layers, a, is_dir) == layers_ignore(layers, b, is_dir),
    decreases layers.len(),
{
    if layers.len() > 0 {
        let k = layers.last().base.len() as int;
        lemma_trimmed(a);
        lemma_trimmed(b);
        assert(text_behind(trimmed(a), k) == text_behind(a, k));
        assert(text_behind(trimmed(b), k) == text_behind(b, k));
        lemma_layers_trimmed(layers.drop_last(), a, b, is_dir);
    }
}

/// What applies to a path by the directories above it depends on these directories alone.
pub proof fn lemma_rules_prefix(ignores: Ignores, a: Seq<char>, b: Seq<char>, n: int)
    requires
        root_length(components(a)) == root_length(components(b)),
        forall|k: int|
            #![trigger text_of_first(a, k)]
            0 <= k < n ==> text_of_first(a, k) == text_of_first(b, k),
    ensures
        rules_above(ignores, a, n) == rules_above(ignores, b, n),
    decreases n,
{
    if n > root_length(components(a)) {
        lemma_rules_prefix(ignores, a, b, n - 1);
        assert(text_of_first(a, n - 1) == text_of_first(b, n - 1));
    }
}

/// What applies in a directory.
pub open spec fn rules_below(ignores: Ignores, dir: Seq<char>) -> IgnoreRules {
    rules_in(ignores, rules_for(ignores, dir), dir)
}

/// What applies to a path and in it does not depend on the slashes behind it.
pub proof fn lemma_rules_trimmed(ignores: Ignores, a: Seq<char>, b: Seq<char>, is_dir: bool)
    requires
        trimmed(a) == trimmed(b),
    ensures
        rules_for(ignores, a) == rules_for(ignores, b),
        rules_below(ignores, a) == rules_below(ignores, b),
        path_ignored(ignores, a, is_dir) == path_ignored(ignores, b, is_dir),
{
    let n = components(a).len() as int;
    let rules = rules_for(ignores, a);
    lemma_verdict_trimmed(rules, a, b, is_dir);
    lemma_verdict_trimmed(rules, a, b, true);
    lemma_trimmed(a);
    lemma_trimmed(b);
    assert forall|k: int| #![trigger text_of_first(a, k)] 0 <= k < n implies text_of_first(a, k)
        == text_of_first(b, k) by {
        assert(text_of_first(trimmed(a), k) == text_of_first(a, k));
        assert(text_of_first(trimmed(b), k) == text_of_first(b, k));
    }
    lemma_rules_prefix(ignores, a, b, n);
}

/// What applies to a path in a directory is what applies in the directory.
pub proof fn lemma_rules_child(ignores: Ignores, dir: Seq<char>, name: Seq<char>)
    requires
        components(dir).len() > 0,
        is_file_name(name),
    ensures
        rules_for(ignores, join_text(dir, name)) == rules_below(ignores, dir),
{
    let n = components(dir).len() as int;
    let child = join_text(dir, name);
    lemma_child_comps(dir, name);
    assert(components(child)[0] == components(dir)[0]);
    assert forall|k: int| #![trigger text_of_first(dir, k)] 0 <= k < n implies text_of_first(dir, k)
        == text_of_first(child, k) by {
        lemma_first_of_child(dir, name, k);
    }
    lemma_rules_prefix(ignores, dir, child, n);
    lemma_first_of_child(dir, name, n);
    lemma_trimmed(dir);
    lemma_verdict_trimmed(rules_for(ignores, dir), dir, trimmed(dir), true);
}

/// Everything that lies in an ignored directory is ignored.
pub proof fn law_ignored_dir_hides(ignores: Ignores, path: Seq<char>, k: int, is_dir: bool)
    requires
        0 < k < components(path).len(),
        path_ignored(ignores, text_of_first(path, k), true),
    ensures
        path_ignored(ignores, path, is_dir),
{
    lemma_all_below(ignores, path, k, components(path).len() as int);
}

proof fn lemma_all_below(ignores: Ignores, path: Seq<char>, k: int, n: int)
    requires
        0 < k < n <= components(path).len(),
        path_ignored(ignores, text_of_first(path, k), true),
    ensures
        rules_above(ignores, path, n) == IgnoreRules::All,
    decreases n,
{
    let dir = text_of_first(path, k);
    if n == k + 1 {
        lemma_first_written(path, k);
        assert(components(dir)[0] == components(path)[0]);
        assert forall|j: int| #![trigger text_of_first(dir, j)] 0 <= j < k implies text_of_first(
            dir,
            j,
        ) == text_of_first(path, j) by {
            lemma_first_of_first(path, k, j);
        }
        lemma_rules_prefix(ignores, dir, path, k);
    } else {
        lemma_all_below(ignores, path, k, n - 1);
    }
}

/// Whether the path of an entry is relative and plainly written: names that can stand in
/// directories, with one slash between two of them.
#[verifier::opaque]
pub open spec fn is_relative(e: Entry) -> bool {
    &&& is_plain(e.comps())
    &&& e.path@ == render(e.comps())
}

/// Whether the parent of every entry but the root is there.
pub open spec fn has_parents(paths: ByPath) -> bool {
    forall|p: Seq<Seq<char>>| #[trigger]
        paths.contains_key(p) && p.len() > 0 ==> paths.contains_key(p.drop_last())
}

/// Whether the parent of every entry but the root is there and is a directory, and all paths are
/// relative.
pub open spec fn is_tree(paths: ByPath) -> bool {
    forall|p: Seq<Seq<char>>| #[trigger]
        paths.contains_key(p) ==> {
            &&& is_relative(paths[p])
            &&& p.len() > 0 ==> paths.contains_key(p.drop_last())
                && !paths[p.drop_last()].is_file_entry()
        }
}

/// Whether a path has names that can stand in directories, and the status of the entry at it is the
/// one that the ignore files above it give.
pub open spec fn is_right(
    paths: ByPath,
    ignores: Ignores,
    root: Seq<char>,
    p: Seq<Seq<char>>,
) -> bool {
    &&& is_plain(p)
    &&& paths[p].is_ignored == path_ignored(ignores, place(root, p), !paths[p].is_file_entry())
}

/// Whether the directories of the worktree that are known to hold ignore files are written as the
/// root is, and then their names.
pub open spec fn are_written(l: LocalSnapshot) -> bool {
    forall|dir: Seq<Seq<char>>| #[trigger]
        l.ignores().contains_key(dir) && nested_in(dir, l.snap().root_path().comps())
            ==> l.ignores()[dir].text == trimmed(place(l.root_text(), relative(l, dir)))
}

/// Where the entries between two places stand among those that lie in a path: no entry from the
/// first place on lies in one that stands before it.
pub open spec fn is_boundary(s: Seq<Entry>, start: int, from: int, to: int) -> bool {
    forall|k: int, j: int|
        #![trigger s[k], s[j]]
        start <= k < from <= j < to ==> !nested_in(s[j].comps(), s[k].comps())
}

/// The first entry behind a boundary lies directly in the path.
pub proof fn lemma_boundary_child(
    s: Seq<Entry>,
    base: Seq<Seq<char>>,
    start: int,
    from: int,
    to: int,
)
    requires
        sorted(s),
        has_parents(by_key(s)),
        is_inside(s, base, start, to),
        start <= from < to,
        is_boundary(s, start, from, to),
    ensures
        s[from].comps().len() == base.len() + 1,
{
    let c = s[from].comps();
    let parent = c.drop_last();
    lemma_item_with(s, from);
    assert(names_lt(base, c));
    assert(nested_in(c, base));
    if c.len() == base.len() {
        assert(c =~= base) by {
            assert(c.subrange(0, base.len() as int) =~= c);
        }
        crate::path_lemmas::lemma_names_lt_irreflexive(base);
    }
    if c.len() > base.len() + 1 {
        let k = lemma_key_index(s, parent);
        assert(nested_in(parent, base)) by {
            assert(base =~= parent.subrange(0, base.len() as int)) by {
                assert forall|i: int| 0 <= i < base.len() implies base[i] == parent.subrange(
                    0,
                    base.len() as int,
                )[i] by {
                    assert(c.subrange(0, base.len() as int)[i] == base[i]);
                }
            }
        }
        assert(nested_in(c, parent)) by {
            assert(parent =~= c.subrange(0, parent.len() as int));
        }
        lemma_nested_is_after(c, parent);
        lemma_nested_is_after(parent, base);
        assert(parent != base);
        assert(parent != c);
        if k < start {
            lemma_names_lt_asymmetric(base, parent);
        }
        if k >= from {
            if k > from {
                assert(names_lt(s[from].comps(), s[k].comps()));
                lemma_names_lt_asymmetric(parent, c);
            }
        }
        assert(start <= k < from);
        assert(!nested_in(s[from].comps(), s[k].comps()));
    }
}

/// What applies to an entry that lies directly in a path.
proof fn lemma_rules_of_child(ignores: Ignores, root: Seq<char>, base: Seq<Seq<char>>, e: Entry)
    requires
        is_relative(e),
        components(root).len() > 0,
        nested_in(e.comps(), base),
        e.comps().len() == base.len() + 1,
    ensures
        join_text(root, e.path@) == place(root, e.comps()),
        rules_for(ignores, place(root, e.comps())) == rules_below(ignores, place(root, base)),
{
    let c = e.comps();
    reveal(is_relative);
    lemma_plain_parent(c);
    assert(c.drop_last() =~= base) by {
        assert(base =~= c.subrange(0, base.len() as int));
    }
    lemma_place_child(root, base, place(root, base), c.last());
    lemma_rules_child(ignores, place(root, base), c.last());
}

/// Brought up to date, the statuses of what lies in a directory are right.
proof fn lemma_restate_right(
    known: Statuses,
    s: Seq<Entry>,
    ignores: Ignores,
    root: Seq<char>,
    base: Seq<Seq<char>>,
    start: int,
    from: int,
    to: int,
    j: int,
)
    requires
        sorted(s),
        is_tree(by_key(s)),
        components(root).len() > 0,
        is_inside(s, base, start, to),
        start <= from <= j < to,
        is_boundary(s, start, from, to),
    ensures
        ({
            let rules = rules_below(ignores, place(root, base));
            let after = restate(known, s, ignores, root, rules, from, to);
            let p = s[j].comps();
            &&& after.contains_key(p)
            &&& after[p] == path_ignored(ignores, place(root, p), !s[j].is_file_entry())
        }),
    decreases to - from,
{
    let rules = rules_below(ignores, place(root, base));
    let e = s[from];
    let c = e.comps();
    let abs = join_text(root, e.path@);
    let end = after_subtree(s, c, from + 1);
    let status = is_ignored_by(rules, abs, !e.is_file_entry());
    let here = known.insert(c, status);
    let p = s[j].comps();
    lemma_item_with(s, from);
    lemma_inside_entry(s, from);
    lemma_inside_ends(s, base, start, to, from);
    lemma_boundary_child(s, base, start, from, to);
    lemma_rules_of_child(ignores, root, base, e);
    assert(status == path_ignored(ignores, abs, !e.is_file_entry()));
    let inner = rules_in(ignores, rules, abs);
    assert(inner == rules_below(ignores, abs));
    if e.is_file_entry() && from + 1 < end {
        let q = s[from + 1].comps();
        assert(is_boundary(s, from + 1, from + 1, end));
        lemma_boundary_child(s, c, from + 1, from + 1, end);
        lemma_item_with(s, from + 1);
        assert(q.drop_last() =~= c) by {
            assert(nested_in(q, c));
            assert(q.subrange(0, c.len() as int) =~= q.drop_last());
        }
    }
    let inside = if e.is_file_entry() {
        here
    } else {
        restate(here, s, ignores, root, inner, from + 1, end)
    };
    assert(is_boundary(s, start, end, to)) by {
        assert forall|a: int, b: int|
            #![trigger s[a], s[b]]
            start <= a < end <= b < to implies !nested_in(s[b].comps(), s[a].comps()) by {
            if a > from {
                if nested_in(s[b].comps(), s[a].comps()) {
                    assert(nested_in(s[a].comps(), c));
                    lemma_nested_transitive(s[b].comps(), s[a].comps(), c);
                }
            }
        }
    }
    let after = restate(inside, s, ignores, root, rules, end, to);
    if j >= end {
        lemma_restate_right(inside, s, ignores, root, base, start, end, to, j);
    } else {
        assert forall|k: int| #![trigger s[k]] end <= k < to implies s[k].comps() != p by {
            lemma_distinct(s, k, j);
        }
        lemma_restate_known(inside, s, ignores, root, rules, end, to, p);
        if j == from {
            if !e.is_file_entry() {
                assert forall|k: int| #![trigger s[k]] from + 1 <= k < end implies s[k].comps() != p by {
                    lemma_distinct(s, k, j);
                }
                lemma_restate_known(here, s, ignores, root, inner, from + 1, end, p);
            }
        } else {
            assert(is_boundary(s, from + 1, from + 1, end));
            lemma_restate_right(here, s, ignores, root, c, from + 1, from + 1, end, j);
        }
    }
}

/// Whether directories of the worktree are written as the root is, and then their names.
spec fn are_dirs_written(snapshot: LocalSnapshot, dirs: Seq<Arc<Path>>) -> bool {
    forall|i: int|
        #![trigger dirs[i]]
        0 <= i < dirs.len() ==> trimmed(dirs[i]@) == trimmed(
            place(snapshot.root_text(), relative(snapshot, dirs[i].comps())),
        )
}

/// Whether a path lies in one of the first `n` of some directories, but is not one of them.
spec fn is_inside_first(
    snapshot: LocalSnapshot,
    dirs: Seq<Arc<Path>>,
    n: int,
    p: Seq<Seq<char>>,
) -> bool {
    exists|m: int|
        #![trigger dirs[m]]
        0 <= m < n && nested_in(p, relative(snapshot, dirs[m].comps())) && p != relative(
            snapshot,
            dirs[m].comps(),
        )
}

/// The statuses that are found for the entries in some directories are right, and none are found
/// for other entries.
proof fn lemma_dir_status(
    snapshot: LocalSnapshot,
    ignores: Ignores,
    dirs: Seq<Arc<Path>>,
    n: int,
    p: Seq<Seq<char>>,
)
    requires
        snapshot.wf(),
        is_tree(snapshot.paths_map()),
        snapshot.snap().root_path().comps().len() > 0,
        are_dirs_apart(snapshot, dirs),
        are_dirs_written(snapshot, dirs),
        0 <= n <= dirs.len(),
        snapshot.paths_map().contains_key(p),
    ensures
        ({
            let found = dir_statuses(snapshot, ignores, dirs, n);
            &&& found.contains_key(p) <==> is_inside_first(snapshot, dirs, n, p)
            &&& found.contains_key(p) ==> found[p] == path_ignored(
                ignores,
                place(snapshot.root_text(), p),
                !snapshot.paths_map()[p].is_file_entry(),
            )
        }),
    decreases n,
{
    if n > 0 {
        let s = snapshot.snap().list();
        let root = snapshot.snap().root_path().comps();
        let before = dir_statuses(snapshot, ignores, dirs, n - 1);
        let dir = dirs[n - 1].comps();
        let rel = relative(snapshot, dir);
        let i = place_of(s, rel);
        let from = i + 1;
        let to = after_subtree(s, rel, from);
        let rules = rules_below(ignores, dirs[n - 1]@);
        lemma_rules_trimmed(ignores, dirs[n - 1]@, place(snapshot.root_text(), rel), true);
        lemma_dir_status(snapshot, ignores, dirs, n - 1, p);
        assert(nested_in(dirs[n - 1].comps(), root));
        let k = lemma_key_index(s, rel);
        assert(0 <= i < s.len() && s[i].comps() == rel);
        lemma_inside_entry(s, i);
        let j = lemma_key_index(s, p);
        lemma_item_with(s, j);
        if nested_in(p, rel) && p != rel {
            lemma_nested_is_after(p, rel);
            if j < from {
                lemma_names_lt_asymmetric(rel, p);
            }
            assert(from <= j < to);
            assert(is_boundary(s, from, from, to));
            lemma_restate_right(
                before,
                s,
                ignores,
                snapshot.root_text(),
                rel,
                from,
                from,
                to,
                j,
            );
            assert(is_inside_first(snapshot, dirs, n, p)) by {
                assert(0 <= n - 1 < n && nested_in(p, relative(snapshot, dirs[n - 1].comps())));
            }
        } else {
            assert forall|a: int| #![trigger s[a]] from <= a < to implies s[a].comps() != p by {
                if s[a].comps() == p {
                    assert(nested_in(p, rel));
                    crate::path_lemmas::lemma_names_lt_irreflexive(rel);
                }
            }
            lemma_restate_known(before, s, ignores, snapshot.root_text(), rules, from, to, p);
            if is_inside_first(snapshot, dirs, n, p) {
                let m = choose|m: int|
                    #![trigger dirs[m]]
                    0 <= m < n && nested_in(p, relative(snapshot, dirs[m].comps())) && p
                        != relative(snapshot, dirs[m].comps());
                assert(m != n - 1);
                assert(is_inside_first(snapshot, dirs, n - 1, p));
            }
            if is_inside_first(snapshot, dirs, n - 1, p) {
                let m = choose|m: int|
                    #![trigger dirs[m]]
                    0 <= m < n - 1 && nested_in(p, relative(snapshot, dirs[m].comps())) && p
                        != relative(snapshot, dirs[m].comps());
                assert(0 <= m < n);
            }
        }
    }
}

/// Whether an entry lies in a directory whose ignore file was changed by the current scan.
pub open spec fn is_in_changed_dir(snapshot: LocalSnapshot, p: Seq<Seq<char>>) -> bool {
    exists|dir: Seq<Seq<char>>| #[trigger]
        is_changed_dir(snapshot, dir) && nested_in(p, relative(snapshot, dir)) && p != relative(
            snapshot,
            dir,
        )
}

/// Where ignore files changed, bringing the statuses up to date makes all of them right in the
/// directories that hold these files: whether an entry is ignored is what the ignore files say that
/// are known from the root of the file system down to the entry. Elsewhere entries are left as they
/// are, and what was right stays right. Entries, and the directories that hold ignore files, are
/// plainly written.
pub proof fn law_statuses_become_right(
    before: LocalSnapshot,
    dirs: Seq<Arc<Path>>,
    after: LocalSnapshot,
)
    requires
        before.wf(),
        is_tree(before.paths_map()),
        before.snap().root_path().comps().len() > 0,
        are_written(before),
        are_changed_dirs(before, dirs),
        after.ignores() == fresh_ignores(before),
        after.paths_map() == restated(
            before.paths_map(),
            dir_statuses(before, fresh_ignores(before), dirs, dirs.len() as int),
        ),
    ensures
        forall|p: Seq<Seq<char>>| #[trigger]
            after.paths_map().contains_key(p) && (is_in_changed_dir(before, p) || is_right(
                before.paths_map(),
                after.ignores(),
                before.root_text(),
                p,
            )) ==> is_right(
                after.paths_map(),
                after.ignores(),
                before.root_text(),
                p,
            ),
        forall|p: Seq<Seq<char>>| #[trigger]
            after.paths_map().contains_key(p) && !is_in_changed_dir(before, p)
                ==> after.paths_map()[p] == before.paths_map()[p],
{
    let n = dirs.len() as int;
    let root = before.snap().root_path().comps();
    let w = before.root_text();
    let ignores = after.ignores();
    assert(are_dirs_written(before, dirs)) by {
        assert forall|i: int| #![trigger dirs[i]] 0 <= i < dirs.len() implies trimmed(dirs[i]@)
            == trimmed(place(w, relative(before, dirs[i].comps()))) by {
            assert(is_changed_dir(before, dirs[i].comps()));
        }
    }
    assert(are_dirs_apart(before, dirs)) by {
        assert forall|i: int| #![trigger dirs[i]] 0 <= i < dirs.len() implies nested_in(
            dirs[i].comps(),
            root,
        ) && before.paths_map().contains_key(relative(before, dirs[i].comps())) by {
            assert(is_changed_dir(before, dirs[i].comps()));
        }
    }
    assert forall|p: Seq<Seq<char>>| #[trigger] after.paths_map().contains_key(p) implies {
        &&& is_in_changed_dir(before, p) || is_right(before.paths_map(), ignores, w, p)
            ==> is_right(after.paths_map(), ignores, w, p)
        &&& !is_in_changed_dir(before, p) ==> after.paths_map()[p] == before.paths_map()[p]
    } by {
        lemma_dir_status(before, ignores, dirs, n, p);
        reveal(is_relative);
        assert(is_relative(before.paths_map()[p]));
        assert(is_inside_first(before, dirs, n, p) <==> is_in_changed_dir(before, p)) by {
            if is_inside_first(before, dirs, n, p) {
                let m = choose|m: int|
                    #![trigger dirs[m]]
                    0 <= m < n && nested_in(p, relative(before, dirs[m].comps())) && p != relative(
                        before,
                        dirs[m].comps(),
                    );
                assert(is_changed_dir(before, dirs[m].comps()));
            }
            if is_in_changed_dir(before, p) {
                let d = choose|d: Seq<Seq<char>>| #[trigger]
                    is_changed_dir(before, d) && nested_in(p, relative(before, d)) && p != relative(
                        before,
                        d,
                    );
                let m = choose|m: int| #![trigger dirs[m]] 0 <= m < n && nested_in(d, dirs[m].comps());
                let t = dirs[m].comps();
                assert(is_changed_dir(before, t));
                crate::statuses::lemma_nested_skip(d, t, root);
                lemma_nested_transitive(p, relative(before, d), relative(before, t));
                if p == relative(before, t) {
                    assert(relative(before, d) =~= p) by {
                        assert(relative(before, d).len() == p.len());
                        assert(p.subrange(0, p.len() as int) =~= p);
                    }
                }
                assert(0 <= m < n);
            }
        }
    }
}

} // verus!
