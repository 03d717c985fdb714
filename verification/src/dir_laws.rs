//! What reading a directory gives: the entries of its children, the directories that are to be read
//! next, and the ignore files that count in them.
use crate::char_bag::CharBag;
use crate::entry::Entry;
use crate::gitignore::{file_verdicts, gitignore_verdicts, Verdicts};
use crate::ids::{next_number, nth_number};
use crate::ignore_stack::{
    is_ignored_by, lemma_git_names, with_layer, IgnoreRules, IgnoreStack, Layer,
};
use crate::local_snapshot::{is_dir_populated, is_populated, path_ignored, LocalSnapshot};
use crate::outermost::is_among;
use crate::path::{components, join_text, names_lt, Path};
use crate::path_lemmas::{lemma_child_comps, lemma_components_join};
use crate::path_text::lemma_trimmed;
use crate::rule_laws::{decides, is_dir_hidden, law_all_files_above_count};
use crate::scanner::{
    are_child_entries, child_verdicts, dir_rules, dir_verdicts, found, is_to_read, scan_dir,
    well_listed, DirChild, DirScan, ScanJob,
};
use crate::snapshot_laws::{lemma_last_of_path, tells_metadata};
use crate::sum_tree::lemma_key_index;
use crate::update::{lemma_entries_by_id, lemma_entries_by_path};
use std::sync::Arc;
use vstd::prelude::*;

verus! {

/// Whether children have names of their own.
pub open spec fn are_named_apart(children: Seq<DirChild>) -> bool {
    forall|i: int, j: int|
        #![trigger children[i], children[j]]
        0 <= i < j < children.len() ==> children[i].name@ != children[j].name@
}

/// The text of the ignore file among children that can be read.
pub open spec fn is_ignore_text(c: DirChild) -> bool {
    c.metadata is Some && c.contents is Some && c.name@ == seq!['.', 'g', 'i', 't', 'i', 'g', 'n', 'o', 'r', 'e']
}

/// What the ignore file of a directory says, where the `k`th child is one that can be used.
pub open spec fn said_by_child(dir: Seq<char>, children: Seq<DirChild>, k: int) -> Option<Verdicts> {
    if 0 <= k < children.len() && is_ignore_text(children[k]) {
        file_verdicts(join_text(dir, children[k].name@), children[k].contents->0@)
    } else {
        None
    }
}

/// The ignore files that count for the children of a directory are those that apply in it and its own,
/// where a child is one that can be used; the snapshot then comes to know what that one says.
pub proof fn law_own_ignore_file_counts(
    root: &CharBag,
    next_entry_id: &mut usize,
    job: &ScanJob,
    children: Vec<DirChild>,
    r: DirScan,
    k: int,
)
    requires
        call_ensures(scan_dir, (root, next_entry_id, job, children), r),
        well_listed(children@),
        are_named_apart(children@),
        said_by_child(job.abs_path@, children@, k) is Some,
    ensures
        r.ignore matches Some(g) && gitignore_verdicts(*g) == said_by_child(job.abs_path@, children@, k)->0,
{
    lemma_own_file(job.ignore_stack@, job.abs_path@, children@, k);
}

/// Where no child is an ignore file that can be used, none comes of reading the directory.
pub proof fn law_no_ignore_file_counts(
    root: &CharBag,
    next_entry_id: &mut usize,
    job: &ScanJob,
    children: Vec<DirChild>,
    r: DirScan,
)
    requires
        call_ensures(scan_dir, (root, next_entry_id, job, children), r),
        well_listed(children@),
        forall|k: int| said_by_child(job.abs_path@, children@, k) is None,
    ensures
        r.ignore is None,
{
    lemma_no_own_file(job.ignore_stack@, job.abs_path@, children@);
}

proof fn lemma_no_own_file(before: IgnoreRules, dir: Seq<char>, children: Seq<DirChild>)
    requires
        forall|k: int| #[trigger] said_by_child(dir, children, k) is None,
    ensures
        dir_rules(before, dir, children) == before,
        dir_verdicts(dir, children) is None,
    decreases children.len(),
{
    lemma_git_names();
    if children.len() > 0 {
        let t = children.drop_last();
        assert forall|k: int| #[trigger] said_by_child(dir, t, k) is None by {
            assert(said_by_child(dir, children, k) is None);
        }
        lemma_no_own_file(before, dir, t);
        assert(said_by_child(dir, children, children.len() - 1) is None);
        assert(child_verdicts(dir, children.last()) is None);
    }
}

proof fn lemma_own_file(before: IgnoreRules, dir: Seq<char>, children: Seq<DirChild>, k: int)
    requires
        are_named_apart(children),
        said_by_child(dir, children, k) is Some,
    ensures
        dir_rules(before, dir, children) == with_layer(
            before,
            Layer { base: components(dir), verdicts: said_by_child(dir, children, k)->0 },
        ),
        dir_verdicts(dir, children) == said_by_child(dir, children, k),
    decreases children.len(),
{
    lemma_git_names();
    let t = children.drop_last();
    let n = t.len() as int;
    if k == n {
        assert forall|i: int| #[trigger] said_by_child(dir, t, i) is None by {
            if 0 <= i < n {
                assert(children[i].name@ != children[n].name@);
            }
        }
        lemma_no_own_file(before, dir, t);
        assert(child_verdicts(dir, children.last()) == said_by_child(dir, children, k));
    } else {
        assert(said_by_child(dir, t, k) == said_by_child(dir, children, k));
        assert(are_named_apart(t)) by {
            assert forall|i: int, j: int|
                #![trigger t[i], t[j]]
                0 <= i < j < t.len() implies t[i].name@ != t[j].name@ by {
                assert(t[i] == children[i] && t[j] == children[j]);
            }
        }
        lemma_own_file(before, dir, t, k);
        assert(children[k].name@ != children[n].name@);
        assert(child_verdicts(dir, children.last()) is None);
    }
}

/// The ignore files that count for the children of a directory.
pub open spec fn counting(job: ScanJob, children: Seq<DirChild>, rules: IgnoreRules) -> bool {
    &&& forall|k: int| #[trigger]
        said_by_child(job.abs_path@, children, k) is Some ==> rules == with_layer(
            job.ignore_stack@,
            Layer {
                base: job.abs_path.comps(),
                verdicts: said_by_child(job.abs_path@, children, k)->0,
            },
        )
    &&& (forall|k: int| #[trigger] said_by_child(job.abs_path@, children, k) is None) ==> rules
        == job.ignore_stack@
}

proof fn lemma_counting(job: ScanJob, children: Seq<DirChild>)
    requires
        are_named_apart(children),
    ensures
        counting(job, children, dir_rules(job.ignore_stack@, job.abs_path@, children)),
{
    assert forall|k: int| #[trigger] said_by_child(job.abs_path@, children, k) is Some implies dir_rules(
        job.ignore_stack@,
        job.abs_path@,
        children,
    ) == with_layer(
        job.ignore_stack@,
        Layer { base: job.abs_path.comps(), verdicts: said_by_child(job.abs_path@, children, k)->0 },
    ) by {
        lemma_own_file(job.ignore_stack@, job.abs_path@, children, k);
    }
    if forall|k: int| #[trigger] said_by_child(job.abs_path@, children, k) is None {
        lemma_no_own_file(job.ignore_stack@, job.abs_path@, children);
    }
}

/// Reading a directory gives one entry for each child that the file system says anything of, in their
/// order: directly in the directory, under the name of the child, with what the file system says of it,
/// ignored where the ignore files that count say so, and with a number of its own from the counter.
#[verifier::rlimit(40)]
#[verifier::spinoff_prover]
pub proof fn law_children_become_entries(
    root: &CharBag,
    next_entry_id: &mut usize,
    job: &ScanJob,
    children: Vec<DirChild>,
    r: DirScan,
    rules: IgnoreRules,
)
    requires
        call_ensures(scan_dir, (root, next_entry_id, job, children), r),
        well_listed(children@),
        are_named_apart(children@),
        counting(*job, children@, rules),
    ensures
        ({
            let cs = children@.filter(|c: DirChild| c.metadata is Some);
            let es = r.entries@;
            &&& es.len() == cs.len()
            &&& forall|i: int|
                #![trigger es[i]]
                0 <= i < es.len() ==> {
                    let m = cs[i].metadata->0;
                    &&& tells_metadata(es[i], job.path.comps().push(cs[i].name@), m)
                    &&& es[i].kind is PendingDir <==> m.is_dir
                    &&& es[i].kind is File <==> !m.is_dir
                    &&& es[i].is_ignored <==> is_ignored_by(
                        rules,
                        join_text(job.abs_path@, cs[i].name@),
                        m.is_dir,
                    )
                }
            &&& es.len() > 0 ==> es[0].id@ == *old(next_entry_id) && *final(next_entry_id)
                == next_number(es.last().id@)
            &&& es.len() == 0 ==> *final(next_entry_id) == *old(next_entry_id)
            &&& forall|i: int, j: int|
                #![trigger es[i], es[j]]
                0 <= i && j == i + 1 && j < es.len() ==> es[j].id@ == next_number(es[i].id@)
        }),
{
    lemma_counting(*job, children@);
    lemma_one_counting(*job, children@, rules, dir_rules(job.ignore_stack@, job.abs_path@, children@));
    let cs = children@.filter(|c: DirChild| c.metadata is Some);
    assert(cs == found(children@));
    assert forall|i: int| #![trigger r.entries@[i]] 0 <= i < r.entries@.len() implies r.entries@[i].comps()
        == job.path.comps().push(cs[i].name@) by {
        lemma_found_from(children@, cs[i]);
        lemma_child_comps(job.path@, cs[i].name@);
    }
}

/// Whether a child has a name that a file can have.
spec fn is_file_named(c: DirChild) -> bool {
    crate::path::is_file_name(c.name@)
}

proof fn lemma_found_from(children: Seq<DirChild>, c: DirChild)
    requires
        found(children).contains(c),
        well_listed(children),
    ensures
        children.contains(c),
        c.metadata is Some,
        is_file_named(c),
{
    broadcast use vstd::seq_lib::group_filter_ensures;
    let keep = |c: DirChild| c.metadata is Some;
    children.lemma_filter_contains_rev(keep, c);
    let i = choose|i: int| 0 <= i < found(children).len() && found(children)[i] == c;
    assert(keep(children.filter(keep)[i]));
    let j = choose|j: int| 0 <= j < children.len() && children[j] == c;
    assert(is_file_named(children[j]));
}

/// The ignore files that count are settled.
proof fn lemma_one_counting(job: ScanJob, children: Seq<DirChild>, a: IgnoreRules, b: IgnoreRules)
    requires
        counting(job, children, a),
        counting(job, children, b),
    ensures
        a == b,
{
    if exists|k: int| #[trigger] said_by_child(job.abs_path@, children, k) is Some {
        let k = choose|k: int| #[trigger] said_by_child(job.abs_path@, children, k) is Some;
    }
}

/// Reading a directory gives one job for each child that is a directory and not one that it lies in
/// itself, in their order, with the ignore files that count in it and with the inodes above it and its
/// own.
pub proof fn law_child_dirs_are_to_be_read(
    root: &CharBag,
    next_entry_id: &mut usize,
    job: &ScanJob,
    children: Vec<DirChild>,
    r: DirScan,
    rules: IgnoreRules,
)
    requires
        call_ensures(scan_dir, (root, next_entry_id, job, children), r),
        well_listed(children@),
        are_named_apart(children@),
        counting(*job, children@, rules),
    ensures
        ({
            let above = job.ancestor_inodes@;
            let cs = children@.filter(
                |c: DirChild|
                    c.metadata is Some && c.metadata->0.is_dir && !above.contains(c.metadata->0.inode),
            );
            let js = r.jobs@;
            &&& js.len() == cs.len()
            &&& forall|i: int|
                #![trigger js[i]]
                0 <= i < js.len() ==> {
                    let here = join_text(job.abs_path@, cs[i].name@);
                    &&& js[i].abs_path.comps() == job.abs_path.comps().push(cs[i].name@)
                    &&& js[i].path.comps() == job.path.comps().push(cs[i].name@)
                    &&& js[i].ancestor_inodes@ == above.insert(cs[i].metadata->0.inode)
                    &&& is_ignored_by(rules, here, true) ==> js[i].ignore_stack@ is All
                    &&& !is_ignored_by(rules, here, true) ==> js[i].ignore_stack@ == rules
                }
        }),
{
    let above = job.ancestor_inodes@;
    lemma_counting(*job, children@);
    lemma_one_counting(*job, children@, rules, dir_rules(job.ignore_stack@, job.abs_path@, children@));
    let keep = |c: DirChild| is_to_read(c, above);
    let keep_too = |c: DirChild|
        c.metadata is Some && c.metadata->0.is_dir && !above.contains(c.metadata->0.inode);
    assert(keep =~= keep_too);
    let cs = children@.filter(keep);
    assert forall|i: int| #![trigger r.jobs@[i]] 0 <= i < r.jobs@.len() implies r.jobs@[i].path.comps()
        == job.path.comps().push(cs[i].name@) by {
        broadcast use vstd::seq_lib::group_filter_ensures;
        children@.lemma_filter_contains_rev(keep, cs[i]);
        let j = choose|j: int| 0 <= j < children@.len() && children@[j] == cs[i];
        assert(is_file_named(children@[j]));
        lemma_child_comps(job.path@, cs[i].name@);
    }
}

/// Once a directory was read, every child that the file system says anything of has its entry there,
/// directly in the directory, with what the file system says of it; the directory counts as read; and
/// what is no child of it is as it was.
#[verifier::rlimit(40)]
#[verifier::spinoff_prover]
pub proof fn law_read_dir_holds_its_children(
    l: &mut LocalSnapshot,
    next_entry_id: &mut usize,
    job: &ScanJob,
    children: Vec<DirChild>,
    repo: Option<u64>,
    r: Vec<ScanJob>,
    k: int,
    p: Seq<Seq<char>>,
)
    requires
        call_ensures(LocalSnapshot::scan_dir, (l, next_entry_id, job, children, repo), r),
        well_listed(children@),
        are_named_apart(children@),
        old(l).paths_map().contains_key(job.path.comps()),
        0 <= k < children@.len(),
    ensures
        ({
            let dir = job.path.comps();
            let q = dir.push(children@[k].name@);
            let now = final(l).paths_map();
            let was = old(l).paths_map();
            &&& children@[k].metadata matches Some(m) ==> {
                &&& now.contains_key(q)
                &&& tells_metadata(now[q], q, m)
                &&& now[q].kind is PendingDir <==> m.is_dir
                &&& now[q].kind is File <==> !m.is_dir
                &&& !old(l).removed().contains_key(m.inode) && was.contains_key(q) ==> now[q].id@ == was[q].id@
                &&& !old(l).removed().contains_key(m.inode) && !was.contains_key(q) ==> exists|n: nat|
                    now[q].id@ == #[trigger] nth_number(*old(next_entry_id), n)
                &&& final(l).ids_map().contains_key(now[q].id@)
                &&& !final(l).removed().contains_key(m.inode)
            }
            &&& now.contains_key(dir)
            &&& now[dir].kind is Dir
            &&& now[dir].id == was[dir].id
            &&& now[dir].inode == was[dir].inode
            &&& (forall|i: int|
                #![trigger children@[i]]
                0 <= i < children@.len() && children@[i].metadata is Some ==> p != dir.push(
                    children@[i].name@,
                )) && p != dir ==> {
                &&& now.contains_key(p) == was.contains_key(p)
                &&& now.contains_key(p) ==> now[p] == was[p]
            }
            &&& final(l).scan() == old(l).scan()
        }),
{
    let dir = job.path.comps();
    let rules = dir_rules(job.ignore_stack@, job.abs_path@, children@);
    let cs = found(children@);
    let was = old(l).paths_map();
    let es = choose|es: Seq<Entry>|
        {
            &&& #[trigger] are_child_entries(
                es,
                *job,
                rules,
                cs,
                old(l).snap().root_chars(),
                *old(next_entry_id),
            )
            &&& is_dir_populated(
                *old(l),
                job.path,
                es,
                dir_verdicts(job.abs_path@, children@),
                repo,
                *final(l),
            )
        };
    let rs = choose|rs: Seq<Entry>| #[trigger] is_populated(*old(l), dir, es, rs, *final(l));
    assert(is_populated(*old(l), dir, es, rs, *final(l)));
    assert forall|i: int| #![trigger rs[i]] 0 <= i < rs.len() implies rs[i].comps() == dir.push(cs[i].name@)
        by {
        assert(es[i].path@ == join_text(job.path@, cs[i].name@));
        lemma_found_from(children@, cs[i]);
        lemma_child_comps(job.path@, cs[i].name@);
    }
    lemma_entries_by_path(rs, dir);
    if exists|i: int| #![trigger rs[i]] 0 <= i < rs.len() && rs[i].comps() == dir {
        let i = choose|i: int| #![trigger rs[i]] 0 <= i < rs.len() && rs[i].comps() == dir;
        assert(dir.push(cs[i].name@).len() == dir.len() + 1);
    }
    lemma_entries_by_path(rs, p);
    if exists|i: int| #![trigger rs[i]] 0 <= i < rs.len() && rs[i].comps() == p {
        let i = choose|i: int| #![trigger rs[i]] 0 <= i < rs.len() && rs[i].comps() == p;
        lemma_found_from(children@, cs[i]);
        let j = choose|j: int| 0 <= j < children@.len() && children@[j] == cs[i];
        assert(children@[j].metadata is Some);
        assert(p == dir.push(children@[j].name@));
    }
    if children@[k].metadata is Some {
        let q = dir.push(children@[k].name@);
        let keep = |c: DirChild| c.metadata is Some;
        broadcast use vstd::seq_lib::group_filter_ensures;
        children@.lemma_filter_contains(keep, k);
        let i = choose|i: int| 0 <= i < cs.len() && cs[i] == children@[k];
        assert(rs[i].comps() == q);
        lemma_found_apart(children@);
        assert forall|j: int| #![trigger rs[j]] i < j < rs.len() implies rs[j].comps() != q by {
            assert(cs[j].name@ != cs[i].name@);
            assert(dir.push(cs[j].name@).last() == cs[j].name@);
            assert(q.last() == cs[i].name@);
        }
        lemma_last_of_path(rs, i);
        assert(q.len() == dir.len() + 1);
        assert(es[i].inode == cs[i].metadata->0.inode);
        assert(es[i].id@ == nth_number(*old(next_entry_id), i as nat));
        lemma_entries_by_id(rs, old(l).scan(), rs[i].id@);
    }
}

proof fn lemma_found_apart(children: Seq<DirChild>)
    requires
        are_named_apart(children),
    ensures
        are_named_apart(found(children)),
    decreases children.len(),
{
    reveal(Seq::filter);
    if children.len() > 0 {
        let t = children.drop_last();
        let c = children.last();
        assert(are_named_apart(t)) by {
            assert forall|i: int, j: int|
                #![trigger t[i], t[j]]
                0 <= i < j < t.len() implies t[i].name@ != t[j].name@ by {
                assert(t[i] == children[i] && t[j] == children[j]);
            }
        }
        lemma_found_apart(t);
        let keep = |c: DirChild| c.metadata is Some;
        if keep(c) {
            let before = t.filter(keep);
            assert(children.filter(keep) == before.push(c));
            assert forall|i: int| #![trigger before[i]] 0 <= i < before.len() implies before[i].name@
                != c.name@ by {
                t.lemma_filter_contains_rev(keep, before[i]);
                let j = choose|j: int| 0 <= j < t.len() && t[j] == before[i];
                assert(children[j] == t[j]);
                assert(children[children.len() - 1] == c);
            }
            let s = before.push(c);
            assert forall|i: int, j: int|
                #![trigger s[i], s[j]]
                0 <= i < j < s.len() implies s[i].name@ != s[j].name@ by {
                assert(s[i] == before[i]);
                if j < before.len() {
                    assert(s[j] == before[j]);
                }
            }
        }
    }
}

/// The ignore files that apply to a path: where the path is ignored, everything is; and the answer for
/// the path is that a directory above it is ignored, or that the nearest of the ignore files in all
/// directories above it that says anything of it says so, or that it is a directory named `.git`.
pub proof fn law_files_above_are_asked(
    l: &LocalSnapshot,
    path: &Path,
    is_dir: bool,
    stack: IgnoreStack,
    r: bool,
)
    requires
        call_ensures(LocalSnapshot::ignore_stack_for_abs_path, (l, path, is_dir), stack),
        call_ensures(IgnoreStack::is_abs_path_ignored, (&stack, path, is_dir), r),
    ensures
        ({
            let ns = path.comps();
            let n = ns.len() as int;
            r <==> {
                ||| is_dir && n > 0 && ns.last() == seq!['.', 'g', 'i', 't']
                ||| exists|k: int| #[trigger] is_dir_hidden(l.ignores(), path@, k, n)
                ||| exists|k: int| #[trigger] decides(l.ignores(), path@, is_dir, k, n)
            }
        }),
        r <==> stack@ is All,
{
    let ignores = l.ignores();
    let n = path.comps().len() as int;
    law_all_files_above_count(ignores, path@, is_dir);
    assert(r == path_ignored(ignores, path@, is_dir));
    if exists|k: int| #[trigger] is_dir_hidden(ignores, path@, k, n) {
        let k = choose|k: int| #[trigger] is_dir_hidden(ignores, path@, k, n);
        assert(is_dir_hidden(l.ignores(), path@, k, n));
    }
    if exists|k: int| #[trigger] decides(ignores, path@, is_dir, k, n) {
        let k = choose|k: int| #[trigger] decides(ignores, path@, is_dir, k, n);
        assert(decides(l.ignores(), path@, is_dir, k, n));
    }
}

/// A first scan begins at the root, where that is a directory: it is to be read with the ignore files
/// that apply to it, with its own inode, and is ignored where the ignore files above it say so.
pub proof fn law_scan_begins_at_root(l: &mut LocalSnapshot, above: &Vec<Option<String>>, r: Option<ScanJob>)
    requires
        call_ensures(LocalSnapshot::begin_scan, (l, above), r),
        old(l).removed().dom().is_empty(),
    ensures
        ({
            let top = Seq::<Seq<char>>::empty();
            let was = old(l).paths_map();
            let now = final(l).paths_map();
            let hidden = path_ignored(final(l).ignores(), old(l).snap().root_path()@, true);
            &&& r is Some <==> was.contains_key(top) && !(was[top].kind is File)
            &&& r matches Some(job) ==> {
                &&& job.abs_path == old(l).snap().root_path()
                &&& job.path@.len() == 0
                &&& forall|n: u64| #[trigger] job.ancestor_inodes@.contains(n) <==> n == was[top].inode
                &&& job.ignore_stack@ is All <==> hidden
            }
            &&& now.dom() == was.dom()
            &&& was.contains_key(top) ==> {
                &&& now[top].is_ignored == (was[top].is_ignored || hidden)
                &&& now[top].id@ == was[top].id@
                &&& now[top].inode == was[top].inode
                &&& now[top].kind == was[top].kind
            }
            &&& forall|p: Seq<Seq<char>>| #[trigger]
                now.contains_key(p) && p.len() > 0 ==> now[p] == was[p]
            &&& final(l).scan() == old(l).scan() + 1
            &&& final(l).repos() == old(l).repos()
        }),
{
    let top = Seq::<Seq<char>>::empty();
    let was = old(l).paths_map();
    if was.contains_key(top) {
        let k = lemma_key_index(old(l).snap().list(), top);
        assert(was[top].comps() == top);
        assert(!old(l).removed().dom().contains(was[top].inode));
    }
    assert(final(l).paths_map().dom() =~= was.dom());
    assert forall|p: Seq<Seq<char>>| #[trigger] final(l).paths_map().contains_key(p) && p.len() > 0 implies final(
        l
    ).paths_map()[p] == was[p] by {
        assert(p != top);
    }
    lemma_all(final(l).ignores(), old(l).snap().root_path()@);
}

/// A path that is not ignored does not lie in a directory that is.
proof fn lemma_all(ignores: crate::local_snapshot::Ignores, path: Seq<char>)
    ensures
        !path_ignored(ignores, path, true) ==> !(crate::local_snapshot::rules_for(ignores, path) is All),
{
}

/// Once a directory was read in which a child is an ignore file that can be used, what that one says is
/// known of the directory, as of the current scan, under the path by which the directory was known
/// first; of every other directory what was known stays. Where no child is one, nothing changes.
#[verifier::rlimit(40)]
#[verifier::spinoff_prover]
pub proof fn law_read_dir_knows_its_ignore_file(
    l: &mut LocalSnapshot,
    next_entry_id: &mut usize,
    job: &ScanJob,
    children: Vec<DirChild>,
    repo: Option<u64>,
    r: Vec<ScanJob>,
    k: int,
    dir: Seq<Seq<char>>,
)
    requires
        call_ensures(LocalSnapshot::scan_dir, (l, next_entry_id, job, children, repo), r),
        well_listed(children@),
        are_named_apart(children@),
        old(l).paths_map().contains_key(job.path.comps()),
        job.path.comps().len() > 0,
        !(job.path@.len() > 0 && job.path@[0] == '/'),
        job.path.comps()[0] != seq!['.'],
    ensures
        ({
            let here = old(l).snap().root_path().comps() + job.path.comps();
            let was = old(l).ignores();
            let now = final(l).ignores();
            let said = said_by_child(job.abs_path@, children@, k);
            &&& said is Some ==> {
                &&& now.contains_key(here)
                &&& now[here].verdicts == said->0
                &&& now[here].scan_id == old(l).scan()
                &&& was.contains_key(here) ==> now[here].text == was[here].text
                &&& !was.contains_key(here) ==> components(now[here].text) == here
            }
            &&& dir != here ==> {
                &&& now.contains_key(dir) == was.contains_key(dir)
                &&& now.contains_key(dir) ==> now[dir] == was[dir]
            }
            &&& (forall|i: int| #[trigger] said_by_child(job.abs_path@, children@, i) is None) ==> now
                == was
        }),
{
    let root = old(l).snap().root_path()@;
    lemma_components_join(root, job.path@);
    lemma_trimmed(join_text(root, job.path@));
    if said_by_child(job.abs_path@, children@, k) is Some {
        lemma_own_file(job.ignore_stack@, job.abs_path@, children@, k);
    }
    if forall|i: int| #[trigger] said_by_child(job.abs_path@, children@, i) is None {
        lemma_no_own_file(job.ignore_stack@, job.abs_path@, children@);
    }
}

/// The directories whose ignore files are known are told, in the order of their paths, each as it is
/// written.
pub proof fn law_known_directories_are_told(l: &LocalSnapshot, r: Vec<Arc<Path>>, dir: Seq<Seq<char>>)
    requires
        call_ensures(LocalSnapshot::ignore_parents, (l,), r),
    ensures
        l.ignores().contains_key(dir) <==> is_among(dir, r@),
        forall|i: int, j: int|
            #![trigger r@[i], r@[j]]
            0 <= i < j < r@.len() ==> names_lt(r@[i].comps(), r@[j].comps()),
        forall|i: int|
            #![trigger r@[i]]
            0 <= i < r@.len() ==> l.ignores().contains_key(r@[i].comps()) && components(
                l.ignores()[r@[i].comps()].text,
            ) == r@[i].comps(),
{
    assert(is_among(dir, r@) == l.ignores().contains_key(dir));
    assert forall|i: int| #![trigger r@[i]] 0 <= i < r@.len() implies l.ignores().contains_key(
        r@[i].comps(),
    ) && components(l.ignores()[r@[i].comps()].text) == r@[i].comps() by {
        assert(is_among(r@[i].comps(), r@));
        lemma_trimmed(r@[i]@);
    }
}

} // verus!
