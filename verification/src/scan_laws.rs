//! What a scan finds: the entries of a snapshot are what the file system holds.
use crate::entry::{Entry, EntryKind, Metadata};
use crate::entry_laws::lemma_populated_path;
use crate::gitignore::Verdicts;
use crate::ignore_stack::IgnoreRules;
use crate::local_snapshot::{is_dir_populated, is_populated, same_but_id, LocalSnapshot};
use crate::path::{is_child_of, is_file_name, nested_in};
use crate::path_lemmas::{lemma_child_comps, lemma_nested_transitive};
use crate::scanner::{
    are_child_entries, are_child_jobs, found, is_child_entry, is_child_job, is_root_job,
    is_root_marked, is_to_read, well_listed, DirChild, ScanJob,
};
use crate::snapshot::{entries_by_path, ByPath};
use crate::traversal::lemma_components_empty;
use crate::update::lemma_entries_by_path;
use vstd::prelude::*;

verus! {

/// What a file system says of the paths of a worktree, relative to its root.
pub type FsTree = Map<Seq<Seq<char>>, Metadata>;

/// Whether a path is the root, or lies in a directory under a name that can stand there.
pub open spec fn is_in_dir(tree: FsTree, p: Seq<Seq<char>>) -> bool {
    p.len() > 0 ==> {
        &&& is_file_name(p.last())
        &&& tree.contains_key(p.drop_last())
        &&& tree[p.drop_last()].is_dir
    }
}

/// Whether every path but the root lies in a directory, under a name that can stand there.
pub open spec fn is_fs_tree(tree: FsTree) -> bool {
    forall|p: Seq<Seq<char>>|
        #![trigger is_in_dir(tree, p)]
        tree.contains_key(p) ==> is_in_dir(tree, p)
}

/// Whether the children of a directory are listed as the file system has them.
pub open spec fn lists(tree: FsTree, dir: Seq<Seq<char>>, children: Seq<DirChild>) -> bool {
    &&& well_listed(children)
    &&& forall|i: int|
        #![trigger children[i]]
        0 <= i < children.len() && children[i].metadata is Some ==> tree.contains_key(
            dir.push(children[i].name@),
        ) && tree[dir.push(children[i].name@)] == children[i].metadata->0
    &&& forall|n: Seq<char>| #[trigger]
        tree.contains_key(dir.push(n)) ==> exists|i: int|
            #![trigger children[i]]
            0 <= i < children.len() && children[i].name@ == n && children[i].metadata is Some
    &&& are_named_apart(children)
}

/// Whether no two children have one name.
pub open spec fn are_named_apart(children: Seq<DirChild>) -> bool {
    forall|i: int, j: int|
        #![trigger children[i], children[j]]
        0 <= i < j < children.len() ==> children[i].name@ != children[j].name@
}

/// The inodes of a path and of those above it.
pub open spec fn inodes_to(tree: FsTree, p: Seq<Seq<char>>) -> Set<u64> {
    Set::new(
        |n: u64|
            exists|k: int|
                #![trigger p.take(k)]
                0 <= k <= p.len() && tree[p.take(k)].inode == n,
    )
}

/// Whether a scan enters a directory: neither it nor a directory above it is one of those that
/// it lies in, as a link can make it.
pub open spec fn is_entered(tree: FsTree, p: Seq<Seq<char>>) -> bool {
    forall|k: int|
        #![trigger p.take(k)]
        1 <= k <= p.len() ==> !inodes_to(tree, p.take(k).drop_last()).contains(
            tree[p.take(k)].inode,
        )
}

/// Whether a scan comes to a path.
pub open spec fn is_reachable(tree: FsTree, p: Seq<Seq<char>>) -> bool {
    tree.contains_key(p) && (p.len() == 0 || is_entered(tree, p.drop_last()))
}

/// Whether an entry tells what the file system says. The time of a directory may be an older one:
/// it changes with what lies in the directory, and no event tells of that.
pub open spec fn tells(e: Entry, m: Metadata) -> bool {
    &&& e.is_file_entry() == !m.is_dir
    &&& e.inode == m.inode
    &&& !m.is_dir ==> e.mtime == m.mtime
    &&& e.is_symlink == m.is_symlink
}

/// Whether a file system says the same of a path at two times, but for the time of a directory.
pub open spec fn is_unchanged(old_m: Metadata, m: Metadata) -> bool {
    &&& old_m.is_dir == m.is_dir
    &&& old_m.inode == m.inode
    &&& !m.is_dir ==> old_m.mtime == m.mtime
    &&& old_m.is_symlink == m.is_symlink
}

/// Whether a path lies in a directory, and is not the directory itself.
pub open spec fn lies_in(p: Seq<Seq<char>>, dir: Seq<Seq<char>>) -> bool {
    nested_in(p, dir) && p != dir
}

/// Whether a job is for a directory that is there and that a scan enters, but that nothing is
/// known of yet.
pub open spec fn is_pending(paths: ByPath, tree: FsTree, job: ScanJob) -> bool {
    let dir = job.path.comps();
    &&& paths.contains_key(dir)
    &&& paths[dir].kind is PendingDir
    &&& is_entered(tree, dir)
    &&& job.ancestor_inodes@ == inodes_to(tree, dir)
    &&& forall|p: Seq<Seq<char>>| #[trigger] paths.contains_key(p) ==> !lies_in(p, dir)
}

/// Whether a path lies in a directory that is still to be read.
pub open spec fn is_awaited(jobs: Seq<ScanJob>, p: Seq<Seq<char>>) -> bool {
    exists|j: int| #![trigger jobs[j]] 0 <= j < jobs.len() && lies_in(p, jobs[j].path.comps())
}

/// Whether entries agree with a file system but for the directories that are still to be read:
/// everything that is there is something that a scan comes to, and everything that a scan comes to
/// is there or lies in such a directory.
pub open spec fn agrees(paths: ByPath, tree: FsTree, jobs: Seq<ScanJob>) -> bool {
    &&& forall|p: Seq<Seq<char>>| #[trigger]
        paths.contains_key(p) ==> is_reachable(tree, p) && tells(paths[p], tree[p])
    &&& forall|p: Seq<Seq<char>>|
        #![trigger is_reachable(tree, p)]
        is_reachable(tree, p) ==> paths.contains_key(p) || is_awaited(jobs, p)
    &&& forall|j: int|
        #![trigger jobs[j]]
        0 <= j < jobs.len() ==> is_pending(paths, tree, jobs[j])
    &&& forall|i: int, j: int|
        #![trigger jobs[i], jobs[j]]
        0 <= i < j < jobs.len() ==> jobs[i].path.comps() != jobs[j].path.comps()
}

/// Once no directory is left to be read, the entries are those of the paths that a scan comes to,
/// and each tells what the file system says.
pub proof fn law_scan_finds_all(paths: ByPath, tree: FsTree, p: Seq<Seq<char>>)
    requires
        agrees(paths, tree, Seq::empty()),
    ensures
        paths.contains_key(p) <==> is_reachable(tree, p),
        paths.contains_key(p) ==> tells(paths[p], tree[p]),
{
    if is_reachable(tree, p) {
        assert(!is_awaited(Seq::empty(), p));
    }
}

/// What lies in a directory lies in a child of it, or is one.
pub proof fn lemma_lies_in_child(p: Seq<Seq<char>>, dir: Seq<Seq<char>>)
    requires
        lies_in(p, dir),
    ensures
        p.len() > dir.len(),
        p.take(dir.len() as int) == dir,
        p.take((dir.len() + 1) as int) == dir.push(p[dir.len() as int]),
        nested_in(p, p.take((dir.len() + 1) as int)),
        p.len() == dir.len() + 1 ==> p == p.take((dir.len() + 1) as int),
{
    let n = dir.len() as int;
    assert(dir =~= p.subrange(0, n));
    if p.len() == n {
        assert(p =~= dir);
    }
    assert(p.take(n) =~= dir);
    assert(p.take(n + 1) =~= dir.push(p[n]));
    assert(p.take(n + 1) =~= p.subrange(0, n + 1));
    if p.len() == n + 1 {
        assert(p =~= p.take(n + 1));
    }
}

/// What lies above a path of a file system is there, and a directory.
pub proof fn lemma_above(tree: FsTree, p: Seq<Seq<char>>, k: int)
    requires
        is_fs_tree(tree),
        tree.contains_key(p),
        0 <= k <= p.len(),
    ensures
        tree.contains_key(p.take(k)),
        k < p.len() ==> tree[p.take(k)].is_dir,
    decreases p.len() - k,
{
    if k == p.len() {
        assert(p.take(k) =~= p);
    } else {
        lemma_above(tree, p, k + 1);
        assert(is_in_dir(tree, p.take(k + 1)));
        assert(p.take(k + 1).drop_last() =~= p.take(k));
    }
}

/// What lies above an entered directory is entered.
pub proof fn lemma_entered_above(tree: FsTree, p: Seq<Seq<char>>, n: int)
    requires
        is_entered(tree, p),
        0 <= n <= p.len(),
    ensures
        is_entered(tree, p.take(n)),
{
    let q = p.take(n);
    assert forall|k: int| #![trigger q.take(k)] 1 <= k <= q.len() implies !inodes_to(
        tree,
        q.take(k).drop_last(),
    ).contains(tree[q.take(k)].inode) by {
        assert(q.take(k) =~= p.take(k));
    }
}

/// A directory in an entered one is entered where it is none of those that it lies in.
pub proof fn lemma_entered_child(tree: FsTree, dir: Seq<Seq<char>>, n: Seq<char>)
    requires
        is_entered(tree, dir),
        !inodes_to(tree, dir).contains(tree[dir.push(n)].inode),
    ensures
        is_entered(tree, dir.push(n)),
{
    let q = dir.push(n);
    assert forall|k: int| #![trigger q.take(k)] 1 <= k <= q.len() implies !inodes_to(
        tree,
        q.take(k).drop_last(),
    ).contains(tree[q.take(k)].inode) by {
        if k == q.len() {
            assert(q.take(k) =~= q);
            assert(q.drop_last() =~= dir);
        } else {
            assert(q.take(k) =~= dir.take(k));
        }
    }
}

/// The inodes of a child and of those above it.
pub proof fn lemma_inodes_to_child(tree: FsTree, dir: Seq<Seq<char>>, n: Seq<char>)
    ensures
        inodes_to(tree, dir.push(n)) == inodes_to(tree, dir).insert(tree[dir.push(n)].inode),
{
    let c = dir.push(n);
    assert forall|x: u64| inodes_to(tree, c).contains(x) <==> inodes_to(tree, dir).insert(
        tree[c].inode,
    ).contains(x) by {
        if inodes_to(tree, c).contains(x) {
            let k = choose|k: int|
                #![trigger c.take(k)]
                0 <= k <= c.len() && tree[c.take(k)].inode == x;
            if k == c.len() {
                assert(c.take(k) =~= c);
            } else {
                assert(c.take(k) =~= dir.take(k));
            }
        }
        if inodes_to(tree, dir).contains(x) {
            let k = choose|k: int|
                #![trigger dir.take(k)]
                0 <= k <= dir.len() && tree[dir.take(k)].inode == x;
            assert(c.take(k) =~= dir.take(k));
        }
        if x == tree[c].inode {
            assert(c.take(c.len() as int) =~= c);
        }
    }
    assert(inodes_to(tree, c) =~= inodes_to(tree, dir).insert(tree[c].inode));
}

/// What is left of children that are named apart is.
pub proof fn lemma_filter_apart(cs: Seq<DirChild>, keep: spec_fn(DirChild) -> bool)
    requires
        are_named_apart(cs),
    ensures
        are_named_apart(cs.filter(keep)),
        forall|i: int|
            #![trigger cs.filter(keep)[i]]
            0 <= i < cs.filter(keep).len() ==> keep(cs.filter(keep)[i]) && cs.contains(
                cs.filter(keep)[i],
            ),
        forall|c: DirChild|
            #![trigger cs.contains(c)]
            cs.contains(c) && keep(c) ==> cs.filter(keep).contains(c),
    decreases cs.len(),
{
    reveal(Seq::filter);
    if cs.len() > 0 {
        let t = cs.drop_last();
        assert(are_named_apart(t)) by {
            assert forall|i: int, j: int| #![trigger t[i], t[j]] 0 <= i < j < t.len() implies t[i].name@
                != t[j].name@ by {
                assert(t[i] == cs[i] && t[j] == cs[j]);
            }
        }
        lemma_filter_apart(t, keep);
        let f = t.filter(keep);
        let g = cs.filter(keep);
        assert forall|i: int| #![trigger g[i]] 0 <= i < g.len() implies keep(g[i]) && cs.contains(
            g[i],
        ) by {
            if i < f.len() {
                assert(g[i] == f[i]);
                let k = choose|k: int| 0 <= k < t.len() && t[k] == f[i];
                assert(cs[k] == f[i]);
            } else {
                assert(cs[cs.len() - 1] == cs.last());
            }
        }
        assert forall|i: int, j: int| #![trigger g[i], g[j]] 0 <= i < j < g.len() implies g[i].name@
            != g[j].name@ by {
            if j < f.len() {
                assert(g[i] == f[i] && g[j] == f[j]);
            } else {
                assert(g[i] == f[i]);
                let k = choose|k: int| 0 <= k < t.len() && t[k] == f[i];
                assert(cs[k] == f[i]);
                assert(cs[cs.len() - 1] == g[j]);
            }
        }
        assert forall|c: DirChild| #![trigger cs.contains(c)] cs.contains(c) && keep(c) implies g.contains(
            c,
        ) by {
            let k = choose|k: int| 0 <= k < cs.len() && cs[k] == c;
            if k < t.len() {
                assert(t[k] == c);
                assert(t.contains(c));
                let i = choose|i: int| 0 <= i < f.len() && f[i] == c;
                assert(g[i] == c);
            } else {
                assert(g[g.len() - 1] == c);
            }
        }
    }
}

/// The children of a directory that was read, as entries.
pub proof fn lemma_child_paths(
    tree: FsTree,
    job: ScanJob,
    rules: IgnoreRules,
    children: Seq<DirChild>,
    root: Seq<char>,
    id: usize,
    es: Seq<Entry>,
    rs: Seq<Entry>,
    p: Seq<Seq<char>>,
)
    requires
        lists(tree, job.path.comps(), children),
        are_child_entries(es, job, rules, found(children), root, id),
        rs.len() == es.len(),
        forall|i: int| #![trigger rs[i]] 0 <= i < rs.len() ==> same_but_id(rs[i], es[i]),
    ensures
        entries_by_path(rs).contains_key(p) <==> p.len() == job.path.comps().len() + 1
            && p.drop_last() == job.path.comps() && tree.contains_key(p),
        entries_by_path(rs).contains_key(p) ==> {
            let e = entries_by_path(rs)[p];
            &&& e.comps() == p
            &&& tells(e, tree[p])
            &&& tree[p].is_dir ==> e.kind is PendingDir
        },
{
    let dir = job.path.comps();
    let seen = |c: DirChild| c.metadata is Some;
    let cs = found(children);
    lemma_filter_apart(children, seen);
    lemma_entries_by_path(rs, p);
    assert forall|i: int| #![trigger rs[i]] 0 <= i < rs.len() implies {
        let q = dir.push(cs[i].name@);
        &&& rs[i].comps() == q
        &&& tree.contains_key(q)
        &&& tells(rs[i], tree[q])
        &&& tree[q].is_dir ==> rs[i].kind is PendingDir
    } by {
        assert(same_but_id(rs[i], es[i]));
        assert(is_child_entry(es[i], job, rules, cs[i], root));
        assert(seen(cs[i]));
        let k = choose|k: int| 0 <= k < children.len() && children[k] == cs[i];
        assert(is_file_name(children[k].name@));
        lemma_child_comps(job.path@, cs[i].name@);
    }
    if entries_by_path(rs).contains_key(p) {
        let i = choose|i: int|
            #![trigger rs[i]]
            0 <= i < rs.len() && rs[i].comps() == p && entries_by_path(rs)[p] == rs[i];
        assert(dir.push(cs[i].name@).drop_last() =~= dir);
    }
    if p.len() == dir.len() + 1 && p.drop_last() == dir && tree.contains_key(p) {
        assert(p =~= dir.push(p.last()));
        let k = choose|k: int|
            #![trigger children[k]]
            0 <= k < children.len() && children[k].name@ == p.last()
                && children[k].metadata is Some;
        assert(children.contains(children[k]) && seen(children[k]));
        let i = choose|i: int| 0 <= i < cs.len() && cs[i] == children[k];
        assert(rs[i].comps() == p);
    }
}

/// Whether entries are others and what the file system has in a directory.
spec fn is_read_into(paths: ByPath, np: ByPath, tree: FsTree, dir: Seq<Seq<char>>) -> bool {
    &&& paths.contains_key(dir)
    &&& tells(np[dir], tree[dir])
    &&& forall|p: Seq<Seq<char>>| #[trigger]
        np.contains_key(p) <==> paths.contains_key(p) || (is_child_of(p, dir)
            && tree.contains_key(p))
    &&& forall|p: Seq<Seq<char>>| #[trigger]
        np.contains_key(p) && is_child_of(p, dir) && tree.contains_key(p) ==> tells(
            np[p],
            tree[p],
        ) && (tree[p].is_dir ==> np[p].kind is PendingDir)
    &&& forall|p: Seq<Seq<char>>| #[trigger]
        np.contains_key(p) && !is_child_of(p, dir) && p != dir ==> np[p] == paths[p]
}

proof fn lemma_read_into(
    tree: FsTree,
    before: LocalSnapshot,
    job: ScanJob,
    rules: IgnoreRules,
    children: Seq<DirChild>,
    root: Seq<char>,
    id: usize,
    es: Seq<Entry>,
    rs: Seq<Entry>,
    after: LocalSnapshot,
)
    requires
        lists(tree, job.path.comps(), children),
        are_child_entries(es, job, rules, found(children), root, id),
        before.paths_map().contains_key(job.path.comps()),
        before.paths_map()[job.path.comps()].kind is PendingDir,
        tells(before.paths_map()[job.path.comps()], tree[job.path.comps()]),
        is_populated(before, job.path.comps(), es, rs, after),
    ensures
        is_read_into(before.paths_map(), after.paths_map(), tree, job.path.comps()),
{
    let paths = before.paths_map();
    let np = after.paths_map();
    let dir = job.path.comps();
    let news = entries_by_path(rs);
    assert forall|i: int| #![trigger rs[i]] 0 <= i < rs.len() implies same_but_id(rs[i], es[i]) by {
    }
    assert forall|p: Seq<Seq<char>>| {
        &&& #[trigger] np.contains_key(p) <==> paths.contains_key(p) || (is_child_of(p, dir)
            && tree.contains_key(p))
        &&& np.contains_key(p) && is_child_of(p, dir) && tree.contains_key(p) ==> tells(
            np[p],
            tree[p],
        ) && (tree[p].is_dir ==> np[p].kind is PendingDir)
        &&& np.contains_key(p) && !is_child_of(p, dir) && p != dir ==> np[p] == paths[p]
    } by {
        lemma_populated_path(before, dir, es, rs, p);
        lemma_child_paths(tree, job, rules, children, root, id, es, rs, p);
    }
    lemma_populated_path(before, dir, es, rs, dir);
    lemma_child_paths(tree, job, rules, children, root, id, es, rs, dir);
    assert(!news.contains_key(dir));
    assert(np[dir] == (Entry { kind: EntryKind::Dir, ..paths[dir] }));
}

/// A directory that is still to be read stays so when another one is read.
proof fn lemma_left_pending(
    paths: ByPath,
    np: ByPath,
    tree: FsTree,
    dir: Seq<Seq<char>>,
    job: ScanJob,
)
    requires
        is_read_into(paths, np, tree, dir),
        forall|p: Seq<Seq<char>>| #[trigger] paths.contains_key(p) ==> !lies_in(p, dir),
        is_pending(paths, tree, job),
        job.path.comps() != dir,
    ensures
        is_pending(np, tree, job),
        !lies_in(job.path.comps(), dir),
{
    let d = job.path.comps();
    assert(!lies_in(d, dir));
    if is_child_of(d, dir) {
        assert(d.drop_last() =~= d.subrange(0, dir.len() as int));
    }
    assert(np.contains_key(d));
    assert forall|p: Seq<Seq<char>>| #[trigger] np.contains_key(p) implies !lies_in(p, d) by {
        if lies_in(p, d) && !paths.contains_key(p) {
            assert(p.drop_last() == dir);
            lemma_lies_in_child(p, d);
            assert(nested_in(dir, d)) by {
                assert(p.take(d.len() as int) =~= dir.subrange(0, d.len() as int));
            }
            assert(lies_in(dir, d));
        }
    }
}

/// A child of a directory that was read is to be read next.
proof fn lemma_new_pending(
    paths: ByPath,
    np: ByPath,
    tree: FsTree,
    job: ScanJob,
    rules: IgnoreRules,
    c: DirChild,
    new_job: ScanJob,
)
    requires
        is_read_into(paths, np, tree, job.path.comps()),
        is_pending(paths, tree, job),
        is_file_name(c.name@),
        is_to_read(c, job.ancestor_inodes@),
        is_child_job(new_job, job, rules, c),
        tree.contains_key(job.path.comps().push(c.name@)),
        tree[job.path.comps().push(c.name@)] == c.metadata->0,
    ensures
        is_pending(np, tree, new_job),
        new_job.path.comps() == job.path.comps().push(c.name@),
        lies_in(new_job.path.comps(), job.path.comps()),
{
    let dir = job.path.comps();
    lemma_child_comps(job.path@, c.name@);
    let d = new_job.path.comps();
    assert(d == dir.push(c.name@));
    assert(d.drop_last() =~= dir);
    assert(is_child_of(d, dir));
    assert(np.contains_key(d));
    lemma_entered_child(tree, dir, c.name@);
    lemma_inodes_to_child(tree, dir, c.name@);
    assert(nested_in(d, dir)) by {
        assert(dir =~= d.subrange(0, dir.len() as int));
    }
    assert forall|p: Seq<Seq<char>>| #[trigger] np.contains_key(p) implies !lies_in(p, d) by {
        if lies_in(p, d) {
            lemma_lies_in_child(p, d);
            lemma_nested_transitive(p, d, dir);
            assert(lies_in(p, dir));
        }
    }
}

/// Reading a directory that is still to be read keeps entries in agreement with the file system:
/// its children are there then, and those that are directories are to be read in its place.
pub proof fn law_scan_step(
    tree: FsTree,
    before: LocalSnapshot,
    jobs: Seq<ScanJob>,
    k: int,
    rules: IgnoreRules,
    children: Seq<DirChild>,
    root: Seq<char>,
    id: usize,
    es: Seq<Entry>,
    ignore: Option<Verdicts>,
    repo: Option<u64>,
    new_jobs: Seq<ScanJob>,
    after: LocalSnapshot,
)
    requires
        is_fs_tree(tree),
        agrees(before.paths_map(), tree, jobs),
        0 <= k < jobs.len(),
        lists(tree, jobs[k].path.comps(), children),
        are_child_entries(es, jobs[k], rules, found(children), root, id),
        is_dir_populated(before, jobs[k].path, es, ignore, repo, after),
        are_child_jobs(
            new_jobs,
            jobs[k],
            rules,
            children.filter(|c: DirChild| is_to_read(c, jobs[k].ancestor_inodes@)),
        ),
    ensures
        agrees(after.paths_map(), tree, jobs.remove(k) + new_jobs),
{
    let paths = before.paths_map();
    let np = after.paths_map();
    let job = jobs[k];
    let dir = job.path.comps();
    assert(is_pending(paths, tree, job));
    assert(paths.contains_key(dir));
    let rs = choose|rs: Seq<Entry>| #[trigger] is_populated(before, dir, es, rs, after);
    lemma_read_into(tree, before, job, rules, children, root, id, es, rs, after);
    lemma_jobs_apart(paths, np, tree, jobs, k, rules, children, new_jobs);
    assert forall|p: Seq<Seq<char>>| #[trigger] np.contains_key(p) implies is_reachable(tree, p)
        && tells(np[p], tree[p]) by {
        if paths.contains_key(p) {
            assert(is_reachable(tree, p) && tells(paths[p], tree[p]));
        }
    }
    lemma_step_reaches(paths, np, tree, jobs, k, rules, children, new_jobs);
}

/// Everything that a scan comes to is there or awaited once a directory was read.
#[verifier::rlimit(40)]
proof fn lemma_step_reaches(
    paths: ByPath,
    np: ByPath,
    tree: FsTree,
    jobs: Seq<ScanJob>,
    k: int,
    rules: IgnoreRules,
    children: Seq<DirChild>,
    new_jobs: Seq<ScanJob>,
)
    requires
        is_fs_tree(tree),
        agrees(paths, tree, jobs),
        0 <= k < jobs.len(),
        lists(tree, jobs[k].path.comps(), children),
        is_read_into(paths, np, tree, jobs[k].path.comps()),
        are_child_jobs(
            new_jobs,
            jobs[k],
            rules,
            children.filter(|c: DirChild| is_to_read(c, jobs[k].ancestor_inodes@)),
        ),
    ensures
        forall|p: Seq<Seq<char>>|
            #![trigger is_reachable(tree, p)]
            is_reachable(tree, p) ==> np.contains_key(p) || is_awaited(
                jobs.remove(k) + new_jobs,
                p,
            ),
{
    let job = jobs[k];
    let dir = job.path.comps();
    let left = jobs.remove(k);
    let all = left + new_jobs;
    assert(is_pending(paths, tree, job));
    assert forall|p: Seq<Seq<char>>|
        #![trigger is_reachable(tree, p)]
        is_reachable(tree, p) implies np.contains_key(p) || is_awaited(all, p) by {
        if !paths.contains_key(p) {
            assert(is_awaited(jobs, p));
            let j = choose|j: int|
                #![trigger jobs[j]]
                0 <= j < jobs.len() && lies_in(p, jobs[j].path.comps());
            if j < k {
                assert(all[j] == jobs[j]);
            } else if j > k {
                assert(all[j - 1] == jobs[j]);
            } else {
                lemma_step_covers(tree, job, rules, children, new_jobs, p);
                lemma_lies_in_child(p, dir);
                if p.len() == dir.len() + 1 {
                    assert(p.drop_last() =~= dir);
                    assert(is_child_of(p, dir));
                    assert(np.contains_key(p));
                } else {
                    let i = choose|i: int|
                        #![trigger new_jobs[i]]
                        0 <= i < new_jobs.len() && lies_in(p, new_jobs[i].path.comps());
                    assert(all[left.len() + i] == new_jobs[i]);
                }
            }
        }
    }
}

/// What lies deeper in a directory that was read lies in one of those that are to be read next.
proof fn lemma_step_covers(
    tree: FsTree,
    job: ScanJob,
    rules: IgnoreRules,
    children: Seq<DirChild>,
    new_jobs: Seq<ScanJob>,
    p: Seq<Seq<char>>,
)
    requires
        is_fs_tree(tree),
        lists(tree, job.path.comps(), children),
        is_entered(tree, job.path.comps()) ==> job.ancestor_inodes@ == inodes_to(
            tree,
            job.path.comps(),
        ),
        are_child_jobs(
            new_jobs,
            job,
            rules,
            children.filter(|c: DirChild| is_to_read(c, job.ancestor_inodes@)),
        ),
        is_reachable(tree, p),
        lies_in(p, job.path.comps()),
    ensures
        p.len() > job.path.comps().len() + 1 ==> is_awaited(new_jobs, p),
{
    let dir = job.path.comps();
    let n = dir.len() as int;
    let ancestors = job.ancestor_inodes@;
    let reads = |c: DirChild| is_to_read(c, ancestors);
    let cs = children.filter(reads);
    lemma_lies_in_child(p, dir);
    if p.len() > n + 1 {
        let c = p.take(n + 1);
        let up = p.drop_last();
        lemma_above(tree, p, n + 1);
        assert(up.take(n + 1) =~= c);
        assert(up.take(n) =~= dir);
        lemma_entered_above(tree, up, n);
        assert(is_entered(tree, dir));
        assert(c.drop_last() =~= dir);
        assert(!inodes_to(tree, up.take(n + 1).drop_last()).contains(
            tree[up.take(n + 1)].inode,
        ));
        assert(tree.contains_key(dir.push(p[n])));
        let i = choose|i: int|
            #![trigger children[i]]
            0 <= i < children.len() && children[i].name@ == p[n] && children[i].metadata is Some;
        lemma_filter_apart(children, reads);
        assert(children.contains(children[i]) && reads(children[i]));
        let j = choose|j: int| 0 <= j < cs.len() && cs[j] == children[i];
        assert(is_child_job(new_jobs[j], job, rules, cs[j]));
        assert(is_file_name(children[i].name@));
        lemma_child_comps(job.path@, children[i].name@);
        assert(new_jobs[j].path.comps() == c);
        assert(c.len() < p.len());
        assert(lies_in(p, new_jobs[j].path.comps()));
    }
}

/// The directories that are to be read are there, nothing is known of them yet, and none is
/// listed twice.
#[verifier::rlimit(40)]
proof fn lemma_jobs_apart(
    paths: ByPath,
    np: ByPath,
    tree: FsTree,
    jobs: Seq<ScanJob>,
    k: int,
    rules: IgnoreRules,
    children: Seq<DirChild>,
    new_jobs: Seq<ScanJob>,
)
    requires
        agrees(paths, tree, jobs),
        0 <= k < jobs.len(),
        lists(tree, jobs[k].path.comps(), children),
        is_read_into(paths, np, tree, jobs[k].path.comps()),
        are_child_jobs(
            new_jobs,
            jobs[k],
            rules,
            children.filter(|c: DirChild| is_to_read(c, jobs[k].ancestor_inodes@)),
        ),
    ensures
        ({
            let all = jobs.remove(k) + new_jobs;
            &&& forall|j: int|
                #![trigger all[j]]
                0 <= j < all.len() ==> is_pending(np, tree, all[j])
            &&& forall|i: int, j: int|
                #![trigger all[i], all[j]]
                0 <= i < j < all.len() ==> all[i].path.comps() != all[j].path.comps()
        }),
{
    let job = jobs[k];
    let dir = job.path.comps();
    let ancestors = job.ancestor_inodes@;
    let reads = |c: DirChild| is_to_read(c, ancestors);
    let cs = children.filter(reads);
    let left = jobs.remove(k);
    let all = left + new_jobs;
    assert(is_pending(paths, tree, job));
    lemma_filter_apart(children, reads);
    assert forall|j: int| #![trigger left[j]] 0 <= j < left.len() implies is_pending(
        np,
        tree,
        left[j],
    ) && !lies_in(left[j].path.comps(), dir) by {
        let o = if j < k {
            j
        } else {
            j + 1
        };
        assert(left[j] == jobs[o]);
        assert(jobs[o].path.comps() != dir) by {
            if o < k {
                assert(jobs[o].path.comps() != jobs[k].path.comps());
            } else {
                assert(jobs[k].path.comps() != jobs[o].path.comps());
            }
        }
        lemma_left_pending(paths, np, tree, dir, jobs[o]);
    }
    assert forall|j: int| #![trigger new_jobs[j]] 0 <= j < new_jobs.len() implies is_pending(
        np,
        tree,
        new_jobs[j],
    ) && new_jobs[j].path.comps() == dir.push(cs[j].name@) && lies_in(
        new_jobs[j].path.comps(),
        dir,
    ) by {
        assert(is_child_job(new_jobs[j], job, rules, cs[j]));
        assert(reads(cs[j]));
        let x = choose|x: int| 0 <= x < children.len() && children[x] == cs[j];
        assert(is_file_name(children[x].name@));
        lemma_new_pending(paths, np, tree, job, rules, cs[j], new_jobs[j]);
    }
    assert forall|j: int| #![trigger all[j]] 0 <= j < all.len() implies is_pending(np, tree, all[j]) by {
        if j < left.len() {
            assert(all[j] == left[j]);
        } else {
            assert(all[j] == new_jobs[j - left.len()]);
        }
    }
    assert forall|i: int, j: int| #![trigger all[i], all[j]] 0 <= i < j < all.len() implies all[i].path.comps()
        != all[j].path.comps() by {
        if j < left.len() {
            let a = if i < k {
                i
            } else {
                i + 1
            };
            let b = if j < k {
                j
            } else {
                j + 1
            };
            assert(all[i] == jobs[a] && all[j] == jobs[b]);
        } else if i < left.len() {
            assert(all[i] == left[i]);
            assert(all[j] == new_jobs[j - left.len()]);
        } else {
            let a = i - left.len();
            let b = j - left.len();
            assert(all[i] == new_jobs[a] && all[j] == new_jobs[b]);
            assert(cs[a].name@ != cs[b].name@);
            if dir.push(cs[a].name@) == dir.push(cs[b].name@) {
                assert(dir.push(cs[a].name@).last() == dir.push(cs[b].name@).last());
            }
        }
    }
}

/// A first scan begins in agreement with the file system: only the root is there, and it is still
/// to be read where it is a directory.
pub proof fn law_scan_begins(
    tree: FsTree,
    before: LocalSnapshot,
    job: Option<ScanJob>,
    after: LocalSnapshot,
)
    requires
        is_fs_tree(tree),
        before.paths_map() == ByPath::empty().insert(
            Seq::empty(),
            before.paths_map()[Seq::empty()],
        ),
        tree.contains_key(Seq::empty()),
        tells(before.paths_map()[Seq::empty()], tree[Seq::empty()]),
        !(before.paths_map()[Seq::empty()].kind is Dir),
        is_root_marked(before, after),
        job is Some <==> tree[Seq::empty()].is_dir,
        job matches Some(job) ==> is_root_job(job, after, tree[Seq::empty()].inode),
    ensures
        agrees(
            after.paths_map(),
            tree,
            match job {
                Some(job) => seq![job],
                None => Seq::empty(),
            },
        ),
{
    let top = Seq::<Seq<char>>::empty();
    let paths = before.paths_map();
    let np = after.paths_map();
    let jobs = match job {
        Some(job) => seq![job],
        None => Seq::empty(),
    };
    assert(paths.contains_key(top));
    assert(np.dom() =~= paths.dom());
    assert(np.contains_key(top));
    lemma_components_empty();
    assert forall|p: Seq<Seq<char>>| #[trigger] np.contains_key(p) implies p == top by {
        assert(paths.contains_key(p));
    }
    assert(tells(np[top], tree[top]));
    assert(tree[top].is_dir ==> np[top].kind is PendingDir);
    assert forall|p: Seq<Seq<char>>|
        #![trigger is_reachable(tree, p)]
        is_reachable(tree, p) implies np.contains_key(p) || is_awaited(jobs, p) by {
        if p != top {
            if p.len() == 0 {
                assert(p =~= top);
            }
            lemma_above(tree, p, 0);
            assert(p.take(0) =~= top);
            assert(nested_in(p, top)) by {
                assert(top =~= p.subrange(0, 0));
            }
            assert(jobs[0].path.comps() =~= top);
            assert(lies_in(p, jobs[0].path.comps()));
        }
    }
    assert forall|j: int| #![trigger jobs[j]] 0 <= j < jobs.len() implies is_pending(
        np,
        tree,
        jobs[j],
    ) by {
        assert(jobs[j].path.comps() =~= top);
        assert(inodes_to(tree, top) =~= Set::<u64>::empty().insert(tree[top].inode)) by {
            assert(top.take(0) =~= top);
            assert forall|x: u64| inodes_to(tree, top).contains(x) <==> x == tree[top].inode by {
                if inodes_to(tree, top).contains(x) {
                    let k = choose|k: int|
                        #![trigger top.take(k)]
                        0 <= k <= top.len() && tree[top.take(k)].inode == x;
                    assert(top.take(k) =~= top);
                }
            }
        }
    }
}

} // verus!
