//! What every change keeps: entries are found by their paths and by their identifiers alike, the
//! entries form a tree, and what changed is marked with the scan that changed it.
use crate::entry::{Entry, EntryKind};
use crate::ignore_laws::{is_relative, is_tree};
use crate::local_snapshot::{
    entries_in, inodes_of, is_populated, is_with_entry, is_without_path, removed_with, reused_id,
    reuses_ids, same_but_id, LocalSnapshot, Removed,
};
use crate::local_worktree::is_without_entry;
use crate::path::nested_in;
use crate::path_lemmas::lemma_nested_transitive;
use crate::snapshot::{
    consistent, entries_by_id, entries_by_path, ids_in, kept_of, paths_in, speaks_of, ById,
    ByPath,
};
use crate::statuses::{restated, restated_ids, Statuses};
use crate::sum_tree::{by_key, lemma_filter_sorted, lemma_item_with, lemma_key_index, sorted};
use crate::update::{
    keyed, lemma_entries_by_id, lemma_entries_by_path, lemma_keyed, row_of, stamped,
};
use vstd::prelude::*;

verus! {

/// Whether entries are found by their paths and by their identifiers alike, and the identifiers
/// of removed entries are free and belong to one inode each.
pub open spec fn is_orderly(l: LocalSnapshot) -> bool {
    let removed = l.removed();
    &&& consistent(l.paths_map(), l.ids_map())
    &&& forall|n: u64| #[trigger]
        removed.contains_key(n) ==> !l.ids_map().contains_key(removed[n])
    &&& forall|a: u64, b: u64|
        #![trigger removed[a], removed[b]]
        removed.contains_key(a) && removed.contains_key(b) && a != b ==> removed[a] != removed[b]
}

/// Whether an identifier is that of no entry, removed or not.
pub open spec fn is_free(l: LocalSnapshot, id: usize) -> bool {
    &&& !l.ids_map().contains_key(id)
    &&& forall|n: u64| #[trigger] l.removed().contains_key(n) ==> l.removed()[n] != id
}

/// Whether an entry would come to a path at which another one stands, with the identifier of a
/// removed entry.
pub open spec fn takes_over(l: LocalSnapshot, e: Entry) -> bool {
    l.paths_map().contains_key(e.comps()) && l.removed().contains_key(e.inode)
}

/// Putting in an entry that comes with a free identifier keeps entries in order, where it does
/// not take a path over from another entry under the identifier of a removed one.
pub proof fn law_insert_keeps_order(
    before: LocalSnapshot,
    e: Entry,
    contents: Option<Seq<char>>,
    r: Entry,
    after: LocalSnapshot,
)
    requires
        is_orderly(before),
        is_free(before, e.id@),
        !takes_over(before, e),
        is_with_entry(before, e, contents, r, after),
    ensures
        is_orderly(after),
{
    let paths = before.paths_map();
    let ids = before.ids_map();
    let removed = before.removed();
    lemma_keyed(before.snap().list());
    lemma_keyed(after.snap().list());
    assert(r.comps() == e.comps());
    lemma_insert_ids(before, e, r);
    assert forall|p: Seq<Seq<char>>| #[trigger] after.paths_map().contains_key(p) implies after.ids_map().contains_key(
        after.paths_map()[p].id@,
    ) && speaks_of(after.ids_map()[after.paths_map()[p].id@], after.paths_map()[p]) by {
        if p != r.comps() {
            assert(paths.contains_key(p));
            assert(ids.contains_key(paths[p].id@) && speaks_of(ids[paths[p].id@], paths[p]));
        }
    }
    assert forall|id: usize| #[trigger] after.ids_map().contains_key(id) implies after.paths_map().contains_key(
        after.ids_map()[id].path.comps(),
    ) && after.paths_map()[after.ids_map()[id].path.comps()].id@ == id by {
        if id != r.id@ {
            assert(ids.contains_key(id));
        }
    }
    assert forall|n: u64| #[trigger] after.removed().contains_key(n) implies !after.ids_map().contains_key(
        after.removed()[n],
    ) by {
        assert(removed.contains_key(n));
    }
}

/// The identifier that an entry gets is not that of another entry.
proof fn lemma_insert_ids(before: LocalSnapshot, e: Entry, r: Entry)
    requires
        is_orderly(before),
        is_free(before, e.id@),
        !takes_over(before, e),
        keyed(before.paths_map()),
        r.id@ == reused_id(before.removed(), before.paths_map(), e),
        r.comps() == e.comps(),
    ensures
        before.ids_map().contains_key(r.id@) <==> before.paths_map().contains_key(r.comps()),
        before.ids_map().contains_key(r.id@) ==> before.ids_map()[r.id@].path.comps() == r.comps()
            && before.paths_map()[r.comps()].id@ == r.id@,
        forall|n: u64| #[trigger]
            before.removed().contains_key(n) && n != e.inode ==> before.removed()[n] != r.id@,
{
    let paths = before.paths_map();
    let ids = before.ids_map();
    let removed = before.removed();
    if removed.contains_key(e.inode) {
    } else if paths.contains_key(e.comps()) {
        let x = paths[e.comps()];
        assert(ids.contains_key(x.id@) && speaks_of(ids[x.id@], x));
    }
}

/// Taking out everything that lies in a path keeps entries in order.
pub proof fn law_remove_keeps_order(before: LocalSnapshot, path: Seq<Seq<char>>, after: LocalSnapshot)
    requires
        before.wf(),
        is_orderly(before),
        is_without_path(before, path, after),
    ensures
        is_orderly(after),
{
    let s = before.snap().list();
    let paths = before.paths_map();
    let ids = before.ids_map();
    let gone = entries_in(s, path);
    let removed = before.removed();
    lemma_keyed(s);
    lemma_gone_entries(s, path);
    lemma_taken_out_keeps(paths, ids, path);
    assert forall|n: u64| #[trigger] after.removed().contains_key(n) implies !after.ids_map().contains_key(
        after.removed()[n],
    ) by {
        lemma_removed_with(removed, gone, n);
    }
    assert forall|a: u64, b: u64|
        #![trigger after.removed()[a], after.removed()[b]]
        after.removed().contains_key(a) && after.removed().contains_key(b) && a
            != b implies after.removed()[a] != after.removed()[b] by {
        lemma_removed_with(removed, gone, a);
        lemma_removed_with(removed, gone, b);
        lemma_removed_apart(before, path, a, b);
    }
}

/// The identifiers that two inodes keep are not the same.
proof fn lemma_removed_apart(before: LocalSnapshot, path: Seq<Seq<char>>, a: u64, b: u64)
    requires
        before.wf(),
        is_orderly(before),
        a != b,
        removed_with(before.removed(), entries_in(before.snap().list(), path)).contains_key(a),
        removed_with(before.removed(), entries_in(before.snap().list(), path)).contains_key(b),
    ensures
        ({
            let after = removed_with(before.removed(), entries_in(before.snap().list(), path));
            after[a] != after[b]
        }),
{
    let s = before.snap().list();
    let paths = before.paths_map();
    let ids = before.ids_map();
    let gone = entries_in(s, path);
    let removed = before.removed();
    lemma_keyed(s);
    lemma_gone_entries(s, path);
    lemma_removed_with(removed, gone, a);
    lemma_removed_with(removed, gone, b);
    let x = removed_with(removed, gone)[a];
    let y = removed_with(removed, gone)[b];
    if x == y {
        if removed.contains_key(a) && removed[a] == x {
            if removed.contains_key(b) && removed[b] == y {
            } else {
                let j = choose|j: int|
                    #![trigger gone[j]]
                    0 <= j < gone.len() && gone[j].inode == b && gone[j].id@ == y;
                let p = gone[j].comps();
                assert(paths.contains_key(p) && paths[p] == gone[j]);
                assert(ids.contains_key(y));
            }
        } else {
            let i = choose|i: int|
                #![trigger gone[i]]
                0 <= i < gone.len() && gone[i].inode == a && gone[i].id@ == x;
            let p = gone[i].comps();
            assert(paths.contains_key(p) && paths[p] == gone[i]);
            assert(ids.contains_key(x) && speaks_of(ids[x], paths[p]));
            if removed.contains_key(b) && removed[b] == y {
            } else {
                let j = choose|j: int|
                    #![trigger gone[j]]
                    0 <= j < gone.len() && gone[j].inode == b && gone[j].id@ == y;
                let q = gone[j].comps();
                assert(paths.contains_key(q) && paths[q] == gone[j]);
                assert(speaks_of(ids[y], paths[q]));
                assert(p == q);
            }
        }
    }
}

/// The entries that lie in a path stand at their paths.
pub proof fn lemma_gone_entries(s: Seq<Entry>, path: Seq<Seq<char>>)
    requires
        sorted(s),
    ensures
        forall|i: int|
            #![trigger entries_in(s, path)[i]]
            0 <= i < entries_in(s, path).len() ==> {
                let e = entries_in(s, path)[i];
                &&& nested_in(e.comps(), path)
                &&& by_key(s).contains_key(e.comps())
                &&& by_key(s)[e.comps()] == e
            },
{
    let inside = |e: Entry| nested_in(e.comps(), path);
    let gone = entries_in(s, path);
    lemma_filter_sorted(s, inside);
    assert forall|i: int| #![trigger gone[i]] 0 <= i < gone.len() implies {
        &&& nested_in(gone[i].comps(), path)
        &&& by_key(s).contains_key(gone[i].comps())
        &&& by_key(s)[gone[i].comps()] == gone[i]
    } by {
        assert(inside(gone[i]));
        let j = choose|j: int| 0 <= j < s.len() && s[j] == gone[i];
        lemma_item_with(s, j);
    }
}

/// What an inode keeps once entries are removed: what it kept before, or the identifier of one of
/// the entries.
pub proof fn lemma_removed_with(removed: Removed, gone: Seq<Entry>, n: u64)
    ensures
        ({
            let after = removed_with(removed, gone);
            &&& removed.contains_key(n) ==> after.contains_key(n)
            &&& after.contains_key(n) ==> (removed.contains_key(n) && removed[n] == after[n])
                || exists|i: int|
                #![trigger gone[i]]
                0 <= i < gone.len() && gone[i].inode == n && gone[i].id@ == after[n]
        }),
    decreases gone.len(),
{
    if gone.len() > 0 {
        let t = gone.drop_last();
        lemma_removed_with(removed, t, n);
        let mid = removed_with(removed, t);
        let after = removed_with(removed, gone);
        if after.contains_key(n) {
            if gone.last().inode == n && after[n] == gone.last().id@ {
                assert(gone[gone.len() - 1] == gone.last());
            } else {
                assert(mid.contains_key(n) && mid[n] == after[n]);
                if !(removed.contains_key(n) && removed[n] == after[n]) {
                    let i = choose|i: int|
                        #![trigger t[i]]
                        0 <= i < t.len() && t[i].inode == n && t[i].id@ == mid[n];
                    assert(gone[i] == t[i]);
                }
            }
        }
    }
}

/// What is left where everything that lies in a path goes is found alike.
proof fn lemma_taken_out_keeps(paths: ByPath, ids: ById, path: Seq<Seq<char>>)
    requires
        keyed(paths),
        consistent(paths, ids),
    ensures
        consistent(paths.remove_keys(paths_in(path)), ids.remove_keys(ids_in(paths, path))),
{
    let ps = paths.remove_keys(paths_in(path));
    let is = ids.remove_keys(ids_in(paths, path));
    assert forall|p: Seq<Seq<char>>| #[trigger] ps.contains_key(p) implies is.contains_key(
        ps[p].id@,
    ) && speaks_of(is[ps[p].id@], ps[p]) by {
        let id = paths[p].id@;
        assert(paths.contains_key(p));
        assert(ids.contains_key(id) && speaks_of(ids[id], paths[p]));
        if ids_in(paths, path).contains(id) {
            let q = choose|q: Seq<Seq<char>>| #[trigger]
                paths.contains_key(q) && nested_in(q, path) && paths[q].id@ == id;
            assert(speaks_of(ids[paths[q].id@], paths[q]));
            assert(p == q);
        }
    }
    assert forall|id: usize| #[trigger] is.contains_key(id) implies ps.contains_key(
        is[id].path.comps(),
    ) && ps[is[id].path.comps()].id@ == id by {
        assert(ids.contains_key(id));
        let p = ids[id].path.comps();
        assert(paths.contains_key(p) && paths[p].id@ == id);
        if nested_in(p, path) {
            assert(ids_in(paths, path).contains(id));
        }
    }
}

/// Deleting an entry with everything that lies in it keeps entries in order.
pub proof fn law_delete_keeps_order(before: LocalSnapshot, id: usize, after: LocalSnapshot)
    requires
        before.wf(),
        is_orderly(before),
        is_without_entry(before, id, after),
    ensures
        is_orderly(after),
{
    let paths = before.paths_map();
    let ids = before.ids_map();
    lemma_keyed(before.snap().list());
    if ids.contains_key(id) {
        let base = ids[id].path.comps();
        assert(paths.contains_key(base) && paths[base].id@ == id);
        lemma_taken_out_keeps(paths, ids, base);
        assert(nested_in(base, base)) by {
            assert(base =~= base.subrange(0, base.len() as int));
        }
        assert(ids_in(paths, base).contains(id));
        assert(after.ids_map() =~= ids.remove_keys(ids_in(paths, base)));
    }
    assert forall|n: u64| #[trigger] after.removed().contains_key(n) implies !after.ids_map().contains_key(
        after.removed()[n],
    ) by {
        assert(before.removed().contains_key(n));
    }
}

/// Whether entries come to paths of their own, with identifiers that are free.
pub open spec fn are_new_entries(l: LocalSnapshot, es: Seq<Entry>) -> bool {
    &&& forall|i: int|
        #![trigger es[i]]
        0 <= i < es.len() ==> is_free(l, es[i].id@) && !takes_over(l, es[i])
    &&& forall|i: int, j: int|
        #![trigger es[i], es[j]]
        0 <= i < j < es.len() ==> es[i].comps() != es[j].comps() && es[i].id@ != es[j].id@
}

/// Putting in the entries of a directory that was read keeps entries in order.
pub proof fn law_populate_keeps_order(
    before: LocalSnapshot,
    dir: Seq<Seq<char>>,
    es: Seq<Entry>,
    rs: Seq<Entry>,
    after: LocalSnapshot,
)
    requires
        is_orderly(before),
        before.paths_map().contains_key(dir),
        are_new_entries(before, es),
        is_populated(before, dir, es, rs, after),
    ensures
        is_orderly(after),
{
    let paths = before.paths_map();
    let ids = before.ids_map();
    let removed = before.removed();
    let np = after.paths_map();
    let ni = after.ids_map();
    lemma_keyed(before.snap().list());
    assert forall|p: Seq<Seq<char>>| #[trigger] np.contains_key(p) implies ni.contains_key(
        np[p].id@,
    ) && speaks_of(ni[np[p].id@], np[p]) by {
        lemma_populated_path(before, dir, es, rs, p);
        if entries_by_path(rs).contains_key(p) {
            let i = choose|i: int|
                #![trigger rs[i]]
                0 <= i < rs.len() && rs[i].comps() == p && np[p] == rs[i];
            lemma_populated_id(before, es, rs, rs[i].id@);
            assert(rs[i].id@ == np[p].id@);
        } else {
            let id = paths[p].id@;
            assert(paths.contains_key(p));
            assert(ids.contains_key(id) && speaks_of(ids[id], paths[p]));
            lemma_populated_id(before, es, rs, id);
            if entries_by_id(rs, before.scan()).contains_key(id) {
                let i = choose|i: int| #![trigger rs[i]] 0 <= i < rs.len() && rs[i].id@ == id;
                lemma_reused(before, es, rs, i);
                assert(rs[i].comps() == p);
                lemma_entries_by_path(rs, p);
            }
        }
    }
    assert forall|id: usize| #[trigger] ni.contains_key(id) implies np.contains_key(
        ni[id].path.comps(),
    ) && np[ni[id].path.comps()].id@ == id by {
        lemma_populated_id(before, es, rs, id);
        if entries_by_id(rs, before.scan()).contains_key(id) {
            let i = choose|i: int|
                #![trigger rs[i]]
                0 <= i < rs.len() && rs[i].id@ == id && ni[id] == kept_of(rs[i], before.scan());
            lemma_populated_path(before, dir, es, rs, rs[i].comps());
            lemma_entries_by_path(rs, rs[i].comps());
            let j = choose|j: int|
                #![trigger rs[j]]
                0 <= j < rs.len() && rs[j].comps() == rs[i].comps() && entries_by_path(
                    rs,
                )[rs[i].comps()] == rs[j];
            assert(es[i].comps() == es[j].comps());
            assert(i == j);
        } else {
            assert(ids.contains_key(id));
            let p = ids[id].path.comps();
            assert(paths.contains_key(p) && paths[p].id@ == id);
            lemma_entries_by_path(rs, p);
            if entries_by_path(rs).contains_key(p) {
                let i = choose|i: int| #![trigger rs[i]] 0 <= i < rs.len() && rs[i].comps() == p;
                lemma_reused(before, es, rs, i);
                lemma_entries_by_id(rs, before.scan(), id);
            }
            lemma_populated_path(before, dir, es, rs, p);
        }
    }
    assert forall|n: u64| #[trigger] after.removed().contains_key(n) implies !ni.contains_key(
        after.removed()[n],
    ) by {
        let x = removed[n];
        assert(removed.contains_key(n));
        lemma_entries_by_id(rs, before.scan(), x);
        if entries_by_id(rs, before.scan()).contains_key(x) {
            let i = choose|i: int| #![trigger rs[i]] 0 <= i < rs.len() && rs[i].id@ == x;
            lemma_reused(before, es, rs, i);
            assert(es[i].inode == n);
            assert(inodes_of(es).contains(n));
        }
    }
    assert forall|a: u64, b: u64|
        #![trigger after.removed()[a], after.removed()[b]]
        after.removed().contains_key(a) && after.removed().contains_key(b) && a
            != b implies after.removed()[a] != after.removed()[b] by {
        assert(removed[a] != removed[b]);
    }
}

/// Which identifier an entry of a directory got: that of a removed entry with its inode, that of
/// the entry at its path, or its own.
proof fn lemma_reused(before: LocalSnapshot, es: Seq<Entry>, rs: Seq<Entry>, i: int)
    requires
        is_orderly(before),
        keyed(before.paths_map()),
        are_new_entries(before, es),
        reuses_ids(before.removed(), before.paths_map(), es, rs),
        0 <= i < rs.len(),
    ensures
        ({
            let paths = before.paths_map();
            let ids = before.ids_map();
            let removed = before.removed();
            let id = rs[i].id@;
            &&& rs[i].comps() == es[i].comps()
            &&& ids.contains_key(id) <==> paths.contains_key(rs[i].comps())
            &&& ids.contains_key(id) ==> paths[rs[i].comps()].id@ == id
                && ids[id].path.comps() == rs[i].comps()
            &&& forall|n: u64| #[trigger]
                removed.contains_key(n) && removed[n] == id ==> n == es[i].inode
                    && !inodes_of(es.take(i)).contains(n)
            &&& !ids.contains_key(id) && !(removed.contains_key(es[i].inode)
                && removed[es[i].inode] == id) ==> id == es[i].id@
        }),
{
    let paths = before.paths_map();
    let ids = before.ids_map();
    let removed = before.removed();
    let left = removed.remove_keys(inodes_of(es.take(i)));
    let id = rs[i].id@;
    assert(same_but_id(rs[i], es[i]) && id == reused_id(left, paths, es[i]));
    assert(is_free(before, es[i].id@) && !takes_over(before, es[i]));
    if left.contains_key(es[i].inode) {
        assert(removed.contains_key(es[i].inode));
    } else if paths.contains_key(es[i].comps()) {
        let x = paths[es[i].comps()];
        assert(ids.contains_key(x.id@) && speaks_of(ids[x.id@], x));
    }
}

/// The entries of a directory get distinct identifiers.
proof fn lemma_reused_apart(before: LocalSnapshot, es: Seq<Entry>, rs: Seq<Entry>, i: int, j: int)
    requires
        is_orderly(before),
        keyed(before.paths_map()),
        are_new_entries(before, es),
        reuses_ids(before.removed(), before.paths_map(), es, rs),
        0 <= i < j < rs.len(),
    ensures
        rs[i].id@ != rs[j].id@,
{
    lemma_reused(before, es, rs, i);
    lemma_reused(before, es, rs, j);
    assert(es[i].comps() != es[j].comps() && es[i].id@ != es[j].id@);
    let removed = before.removed();
    let id = rs[i].id@;
    if id == rs[j].id@ && !before.ids_map().contains_key(id) {
        if removed.contains_key(es[i].inode) && removed[es[i].inode] == id {
            let n = es[i].inode;
            assert(es.take(j)[i] == es[i]);
            assert(inodes_of(es.take(j)).contains(n));
        } else if removed.contains_key(es[j].inode) && removed[es[j].inode] == id {
            let n = es[j].inode;
            assert(removed.contains_key(n) && removed[n] == id);
            assert(n == es[i].inode);
        }
    }
}

/// What an identifier stands for once a directory was read.
proof fn lemma_populated_id(before: LocalSnapshot, es: Seq<Entry>, rs: Seq<Entry>, id: usize)
    requires
        is_orderly(before),
        keyed(before.paths_map()),
        are_new_entries(before, es),
        reuses_ids(before.removed(), before.paths_map(), es, rs),
    ensures
        entries_by_id(rs, before.scan()).contains_key(id) <==> exists|i: int|
            #![trigger rs[i]]
            0 <= i < rs.len() && rs[i].id@ == id,
        forall|i: int|
            #![trigger rs[i]]
            0 <= i < rs.len() && rs[i].id@ == id ==> entries_by_id(rs, before.scan())[id]
                == kept_of(rs[i], before.scan()),
{
    lemma_entries_by_id(rs, before.scan(), id);
    assert forall|i: int| #![trigger rs[i]] 0 <= i < rs.len() && rs[i].id@ == id implies entries_by_id(
        rs,
        before.scan(),
    )[id] == kept_of(rs[i], before.scan()) by {
        let j = choose|j: int|
            #![trigger rs[j]]
            0 <= j < rs.len() && rs[j].id@ == id && entries_by_id(rs, before.scan())[id]
                == kept_of(rs[j], before.scan());
        if i < j {
            lemma_reused_apart(before, es, rs, i, j);
        } else if j < i {
            lemma_reused_apart(before, es, rs, j, i);
        }
    }
}

/// What stands at a path once a directory was read.
pub proof fn lemma_populated_path(
    before: LocalSnapshot,
    dir: Seq<Seq<char>>,
    es: Seq<Entry>,
    rs: Seq<Entry>,
    p: Seq<Seq<char>>,
)
    requires
        before.paths_map().contains_key(dir),
    ensures
        ({
            let paths = before.paths_map();
            let after = paths.insert(
                dir,
                Entry { kind: EntryKind::Dir, ..paths[dir] },
            ).union_prefer_right(entries_by_path(rs));
            &&& after.contains_key(p) <==> paths.contains_key(p) || entries_by_path(
                rs,
            ).contains_key(p)
            &&& entries_by_path(rs).contains_key(p) ==> exists|i: int|
                #![trigger rs[i]]
                0 <= i < rs.len() && rs[i].comps() == p && after[p] == rs[i]
            &&& !entries_by_path(rs).contains_key(p) && paths.contains_key(p) ==> {
                &&& after[p].id == paths[p].id
                &&& after[p].path == paths[p].path
                &&& after[p].is_ignored == paths[p].is_ignored
                &&& after[p].inode == paths[p].inode
                &&& after[p].mtime == paths[p].mtime
                &&& after[p].is_symlink == paths[p].is_symlink
                &&& p != dir ==> after[p] == paths[p]
            }
        }),
{
    lemma_entries_by_path(rs, p);
}

/// Bringing statuses up to date keeps entries in order.
pub proof fn law_statuses_keep_order(before: LocalSnapshot, statuses: Statuses, after: LocalSnapshot)
    requires
        is_orderly(before),
        after.paths_map() == restated(before.paths_map(), statuses),
        after.ids_map() == restated_ids(
            before.ids_map(),
            before.paths_map(),
            statuses,
            before.scan(),
        ),
        after.removed() == before.removed() || after.removed() == Removed::empty(),
    ensures
        is_orderly(after),
{
    let paths = before.paths_map();
    let ids = before.ids_map();
    lemma_keyed(before.snap().list());
    assert forall|p: Seq<Seq<char>>| #[trigger] after.paths_map().contains_key(p) implies after.ids_map().contains_key(
        after.paths_map()[p].id@,
    ) && speaks_of(after.ids_map()[after.paths_map()[p].id@], after.paths_map()[p]) by {
        assert(paths.contains_key(p));
        let id = paths[p].id@;
        assert(ids.contains_key(id) && speaks_of(ids[id], paths[p]));
        assert(ids[id].path.comps() == p);
    }
    assert forall|id: usize| #[trigger] after.ids_map().contains_key(id) implies after.paths_map().contains_key(
        after.ids_map()[id].path.comps(),
    ) && after.paths_map()[after.ids_map()[id].path.comps()].id@ == id by {
        assert(ids.contains_key(id));
    }
    assert forall|n: u64| #[trigger] after.removed().contains_key(n) implies !after.ids_map().contains_key(
        after.removed()[n],
    ) by {
        assert(before.removed().contains_key(n));
    }
}

/// What is renamed keeps its identifier: where everything that lies in a path is taken out, and
/// an entry with the inode of what stood at the path is put in later, it has the identifier that
/// was there before. This holds where no other entry that was taken out has the inode.
pub proof fn law_rename_keeps_id(
    before: LocalSnapshot,
    path: Seq<Seq<char>>,
    between: LocalSnapshot,
    e: Entry,
    contents: Option<Seq<char>>,
    r: Entry,
    after: LocalSnapshot,
)
    requires
        before.wf(),
        before.paths_map().contains_key(path),
        !before.removed().contains_key(before.paths_map()[path].inode),
        forall|p: Seq<Seq<char>>| #[trigger]
            before.paths_map().contains_key(p) && nested_in(p, path)
                && before.paths_map()[p].inode == before.paths_map()[path].inode ==> p == path,
        is_without_path(before, path, between),
        e.inode == before.paths_map()[path].inode,
        is_with_entry(between, e, contents, r, after),
    ensures
        r.id@ == before.paths_map()[path].id@,
        after.paths_map().contains_key(e.comps()),
        after.paths_map()[e.comps()].id@ == before.paths_map()[path].id@,
{
    let s = before.snap().list();
    let gone = entries_in(s, path);
    let x = before.paths_map()[path];
    let inside = |e: Entry| nested_in(e.comps(), path);
    lemma_filter_sorted(s, inside);
    lemma_gone_entries(s, path);
    lemma_keyed(s);
    let k = lemma_key_index(s, path);
    assert(nested_in(path, path)) by {
        assert(path =~= path.subrange(0, path.len() as int));
    }
    assert(s.contains(x));
    assert(inside(x));
    assert(gone.contains(x));
    let i = choose|i: int| 0 <= i < gone.len() && gone[i] == x;
    lemma_removed_has(before.removed(), gone, i);
    lemma_removed_with(before.removed(), gone, x.inode);
    let j = choose|j: int|
        #![trigger gone[j]]
        0 <= j < gone.len() && gone[j].inode == x.inode && gone[j].id@ == between.removed()[x.inode];
    assert(gone[j].comps() == path);
    assert(gone[j] == x);
}

/// What was removed is kept.
pub proof fn lemma_removed_has(removed: Removed, gone: Seq<Entry>, i: int)
    requires
        0 <= i < gone.len(),
    ensures
        removed_with(removed, gone).contains_key(gone[i].inode),
    decreases gone.len(),
{
    if i < gone.len() - 1 {
        lemma_removed_has(removed, gone.drop_last(), i);
    }
}

/// Whether every entry that changed since an older snapshot is marked with a later scan, and the
/// scans of the older snapshot are not later than its last one.
pub open spec fn is_marked_since(older: LocalSnapshot, l: LocalSnapshot) -> bool {
    let ids = l.ids_map();
    let before = older.ids_map();
    &&& forall|id: usize| #[trigger]
        before.contains_key(id) ==> before[id].scan_id <= older.scan()
    &&& forall|id: usize| #[trigger]
        ids.contains_key(id) ==> ids[id].scan_id > older.scan() || {
            let p = ids[id].path.comps();
            &&& before.contains_key(id)
            &&& before[id].path.comps() == p
            &&& before[id].scan_id == ids[id].scan_id
            &&& row_of(l.paths_map()[p]) == row_of(older.paths_map()[p])
        }
}

/// Where what changed since an older snapshot is marked, an entry that both keep from one scan is
/// the same in both.
pub proof fn law_marks_tell_changes(older: LocalSnapshot, newer: LocalSnapshot)
    requires
        is_marked_since(older, newer),
    ensures
        stamped(newer.paths_map(), newer.ids_map(), older.paths_map(), older.ids_map()),
{
    let ni = newer.ids_map();
    let oi = older.ids_map();
    assert forall|id: usize|
        #![trigger ni[id]]
        #![trigger oi[id]]
        ni.contains_key(id) && oi.contains_key(id) && ni[id].scan_id == oi[id].scan_id implies {
        &&& ni[id].path.comps() == oi[id].path.comps()
        &&& row_of(newer.paths_map()[ni[id].path.comps()]) == row_of(
            older.paths_map()[oi[id].path.comps()],
        )
    } by {
        assert(oi[id].scan_id <= older.scan());
    }
}

/// Putting in an entry marks it.
pub proof fn law_insert_marks(
    older: LocalSnapshot,
    before: LocalSnapshot,
    e: Entry,
    contents: Option<Seq<char>>,
    r: Entry,
    after: LocalSnapshot,
)
    requires
        is_orderly(before),
        is_free(before, e.id@),
        !takes_over(before, e),
        older.scan() < before.scan(),
        is_marked_since(older, before),
        is_with_entry(before, e, contents, r, after),
    ensures
        is_marked_since(older, after),
{
    let ids = before.ids_map();
    let ni = after.ids_map();
    lemma_keyed(before.snap().list());
    lemma_insert_ids(before, e, r);
    assert forall|id: usize| #[trigger] ni.contains_key(id) implies ni[id].scan_id > older.scan() || {
        let p = ni[id].path.comps();
        &&& older.ids_map().contains_key(id)
        &&& older.ids_map()[id].path.comps() == p
        &&& older.ids_map()[id].scan_id == ni[id].scan_id
        &&& row_of(after.paths_map()[p]) == row_of(older.paths_map()[p])
    } by {
        if id != r.id@ {
            assert(ids.contains_key(id));
            let p = ids[id].path.comps();
            assert(before.paths_map().contains_key(p) && before.paths_map()[p].id@ == id);
        }
    }
}

/// Taking out everything that lies in a path leaves what is left marked.
pub proof fn law_remove_keeps_marks(
    older: LocalSnapshot,
    before: LocalSnapshot,
    path: Seq<Seq<char>>,
    after: LocalSnapshot,
)
    requires
        is_orderly(before),
        is_marked_since(older, before),
        is_without_path(before, path, after),
    ensures
        is_marked_since(older, after),
{
    let ids = before.ids_map();
    let ni = after.ids_map();
    let paths = before.paths_map();
    assert forall|id: usize| #[trigger] ni.contains_key(id) implies ni[id].scan_id > older.scan() || {
        let p = ni[id].path.comps();
        &&& older.ids_map().contains_key(id)
        &&& older.ids_map()[id].path.comps() == p
        &&& older.ids_map()[id].scan_id == ni[id].scan_id
        &&& row_of(after.paths_map()[p]) == row_of(older.paths_map()[p])
    } by {
        assert(ids.contains_key(id));
        let p = ids[id].path.comps();
        assert(paths.contains_key(p) && paths[p].id@ == id);
        if nested_in(p, path) {
            assert(ids_in(paths, path).contains(id));
        }
    }
}

/// Putting in the entries of a directory that was read marks them.
pub proof fn law_populate_marks(
    older: LocalSnapshot,
    before: LocalSnapshot,
    dir: Seq<Seq<char>>,
    es: Seq<Entry>,
    rs: Seq<Entry>,
    after: LocalSnapshot,
)
    requires
        is_orderly(before),
        before.paths_map().contains_key(dir),
        before.paths_map()[dir].kind is PendingDir,
        are_new_entries(before, es),
        older.scan() < before.scan(),
        is_marked_since(older, before),
        is_populated(before, dir, es, rs, after),
    ensures
        is_marked_since(older, after),
{
    let paths = before.paths_map();
    let ids = before.ids_map();
    let ni = after.ids_map();
    lemma_keyed(before.snap().list());
    assert forall|id: usize| #[trigger] ni.contains_key(id) implies ni[id].scan_id > older.scan() || {
        let p = ni[id].path.comps();
        &&& older.ids_map().contains_key(id)
        &&& older.ids_map()[id].path.comps() == p
        &&& older.ids_map()[id].scan_id == ni[id].scan_id
        &&& row_of(after.paths_map()[p]) == row_of(older.paths_map()[p])
    } by {
        lemma_populated_id(before, es, rs, id);
        if entries_by_id(rs, before.scan()).contains_key(id) {
            let i = choose|i: int| #![trigger rs[i]] 0 <= i < rs.len() && rs[i].id@ == id;
            assert(ni[id] == kept_of(rs[i], before.scan()));
        } else {
            assert(ids.contains_key(id));
            let p = ids[id].path.comps();
            assert(paths.contains_key(p) && paths[p].id@ == id);
            lemma_entries_by_path(rs, p);
            if entries_by_path(rs).contains_key(p) {
                let i = choose|i: int| #![trigger rs[i]] 0 <= i < rs.len() && rs[i].comps() == p;
                lemma_reused(before, es, rs, i);
                lemma_entries_by_id(rs, before.scan(), id);
            }
            assert(row_of(after.paths_map()[p]) == row_of(paths[p]));
        }
    }
}

/// Bringing statuses up to date marks the entries whose statuses change.
pub proof fn law_statuses_mark(
    older: LocalSnapshot,
    before: LocalSnapshot,
    statuses: Statuses,
    after: LocalSnapshot,
)
    requires
        is_orderly(before),
        older.scan() < before.scan(),
        is_marked_since(older, before),
        after.paths_map() == restated(before.paths_map(), statuses),
        after.ids_map() == restated_ids(
            before.ids_map(),
            before.paths_map(),
            statuses,
            before.scan(),
        ),
    ensures
        is_marked_since(older, after),
{
    let ids = before.ids_map();
    let ni = after.ids_map();
    assert forall|id: usize| #[trigger] ni.contains_key(id) implies ni[id].scan_id > older.scan() || {
        let p = ni[id].path.comps();
        &&& older.ids_map().contains_key(id)
        &&& older.ids_map()[id].path.comps() == p
        &&& older.ids_map()[id].scan_id == ni[id].scan_id
        &&& row_of(after.paths_map()[p]) == row_of(older.paths_map()[p])
    } by {
        assert(ids.contains_key(id));
        let p = ids[id].path.comps();
        assert(before.paths_map().contains_key(p) && before.paths_map()[p].id@ == id);
    }
}

/// Putting in an entry keeps entries in a tree, where its parent is there and a file does not take
/// the place of a directory.
pub proof fn law_insert_keeps_tree(
    before: LocalSnapshot,
    e: Entry,
    contents: Option<Seq<char>>,
    r: Entry,
    after: LocalSnapshot,
)
    requires
        is_tree(before.paths_map()),
        is_relative(e),
        e.comps().len() > 0 ==> before.paths_map().contains_key(e.comps().drop_last())
            && !before.paths_map()[e.comps().drop_last()].is_file_entry(),
        before.paths_map().contains_key(e.comps()) ==> before.paths_map()[e.comps()].is_file_entry()
            == e.is_file_entry(),
        is_with_entry(before, e, contents, r, after),
    ensures
        is_tree(after.paths_map()),
{
    let paths = before.paths_map();
    let np = after.paths_map();
    assert forall|p: Seq<Seq<char>>| #[trigger] np.contains_key(p) implies {
        &&& is_relative(np[p])
        &&& p.len() > 0 ==> np.contains_key(p.drop_last()) && !np[p.drop_last()].is_file_entry()
    } by {
        reveal(is_relative);
        if p != e.comps() {
            assert(paths.contains_key(p));
        }
        if p.len() > 0 {
            assert(p.drop_last().len() < p.len());
            if p.drop_last() == e.comps() {
                assert(paths.contains_key(p));
                assert(!paths[e.comps()].is_file_entry());
            }
        }
    }
}

/// Taking out everything that lies in a path keeps entries in a tree.
pub proof fn law_remove_keeps_tree(before: LocalSnapshot, path: Seq<Seq<char>>, after: LocalSnapshot)
    requires
        is_tree(before.paths_map()),
        after.paths_map() == before.paths_map().remove_keys(paths_in(path)),
    ensures
        is_tree(after.paths_map()),
{
    let paths = before.paths_map();
    let np = after.paths_map();
    assert forall|p: Seq<Seq<char>>| #[trigger] np.contains_key(p) implies {
        &&& is_relative(np[p])
        &&& p.len() > 0 ==> np.contains_key(p.drop_last()) && !np[p.drop_last()].is_file_entry()
    } by {
        assert(paths.contains_key(p));
        if p.len() > 0 && nested_in(p.drop_last(), path) {
            assert(nested_in(p, p.drop_last())) by {
                assert(p.drop_last() =~= p.subrange(0, p.drop_last().len() as int));
            }
            lemma_nested_transitive(p, p.drop_last(), path);
        }
    }
}

/// Putting in the entries of a directory that was read keeps entries in a tree, where they lie
/// directly in it and no file takes the place of a directory.
pub proof fn law_populate_keeps_tree(
    before: LocalSnapshot,
    dir: Seq<Seq<char>>,
    es: Seq<Entry>,
    rs: Seq<Entry>,
    after: LocalSnapshot,
)
    requires
        is_tree(before.paths_map()),
        before.paths_map().contains_key(dir),
        is_populated(before, dir, es, rs, after),
        forall|i: int|
            #![trigger es[i]]
            0 <= i < es.len() ==> {
                &&& is_relative(es[i])
                &&& es[i].comps().len() == dir.len() + 1
                &&& es[i].comps().drop_last() == dir
                &&& before.paths_map().contains_key(es[i].comps())
                    ==> before.paths_map()[es[i].comps()].is_file_entry() == es[i].is_file_entry()
            },
    ensures
        is_tree(after.paths_map()),
{
    let paths = before.paths_map();
    let np = after.paths_map();
    assert forall|p: Seq<Seq<char>>| #[trigger] np.contains_key(p) implies {
        &&& is_relative(np[p])
        &&& p.len() > 0 ==> np.contains_key(p.drop_last()) && !np[p.drop_last()].is_file_entry()
    } by {
        reveal(is_relative);
        lemma_populated_path(before, dir, es, rs, p);
        lemma_populated_path(before, dir, es, rs, p.drop_last());
        let q = p.drop_last();
        lemma_entries_by_path(rs, q);
        if entries_by_path(rs).contains_key(p) {
            let i = choose|i: int|
                #![trigger rs[i]]
                0 <= i < rs.len() && rs[i].comps() == p && np[p] == rs[i];
            assert(same_but_id(rs[i], es[i]));
            assert(q == dir);
            if entries_by_path(rs).contains_key(dir) {
                let j = choose|j: int| #![trigger rs[j]] 0 <= j < rs.len() && rs[j].comps() == dir;
                assert(same_but_id(rs[j], es[j]));
            }
        } else {
            assert(paths.contains_key(p));
            if p.len() > 0 && entries_by_path(rs).contains_key(q) {
                let j = choose|j: int|
                    #![trigger rs[j]]
                    0 <= j < rs.len() && rs[j].comps() == q && np[q] == rs[j];
                assert(same_but_id(rs[j], es[j]));
                assert(!paths[q].is_file_entry());
            }
        }
    }
}

/// Bringing statuses up to date keeps entries in a tree.
pub proof fn law_statuses_keep_tree(before: LocalSnapshot, statuses: Statuses, after: LocalSnapshot)
    requires
        is_tree(before.paths_map()),
        after.paths_map() == restated(before.paths_map(), statuses),
    ensures
        is_tree(after.paths_map()),
{
    let paths = before.paths_map();
    let np = after.paths_map();
    assert forall|p: Seq<Seq<char>>| #[trigger] np.contains_key(p) implies {
        &&& is_relative(np[p])
        &&& p.len() > 0 ==> np.contains_key(p.drop_last()) && !np[p.drop_last()].is_file_entry()
    } by {
        reveal(is_relative);
        assert(paths.contains_key(p));
    }
}

} // verus!
