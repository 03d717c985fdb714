//! What reading directories comes to, in whatever order they are read and their children are listed.
use crate::entry::Entry;
use crate::entry_laws::lemma_populated_path;
use crate::gitignore::{file_verdicts, Verdicts};
use crate::history_laws::{is_all_read, is_one_read, Taken};
use crate::ignore_stack::{gitignore_name, is_ignored_by, with_layer, IgnoreRules, Layer};
use crate::local_snapshot::{is_populated, same_but_id, with_ignore, IgnoreRule, LocalSnapshot};
use crate::path::{
    components, is_absolute_text, is_child_of, is_file_name, join_text, nested_in, Path,
};
use crate::path_lemmas::{
    lemma_child_comps, lemma_components_join, lemma_nested_transitive, lemma_prefixes_nest,
};
use crate::path_text::trimmed;
use crate::reflect_laws::{
    are_texts_of, is_dir_scanned, is_read_from, lemma_read_verdicts, text_at, FsTexts,
};
use crate::scan_laws::{lemma_child_paths, lemma_filter_apart, lemma_lies_in_child, lies_in, FsTree};
use crate::scanner::{dir_rules, dir_verdicts, is_child_job, is_to_read, DirChild, ScanJob};
use crate::snapshot::{entries_by_path, ByPath};
use crate::status_laws::{lemma_child_status, lemma_dir_rules};
use std::sync::Arc;
use vstd::prelude::*;

verus! {

/// Whether a path leads down from the root of a worktree.
pub open spec fn leads_down(path: Arc<Path>) -> bool {
    &&& !is_absolute_text(path@)
    &&& path.comps().len() > 0 ==> path.comps()[0] != seq!['.']
}

/// The path of a child of a directory leads down where that of the directory does.
proof fn lemma_child_leads_down(dir: Arc<Path>, name: Seq<char>, child: Arc<Path>)
    requires
        leads_down(dir),
        is_file_name(name),
        child@ == join_text(dir@, name),
    ensures
        leads_down(child),
        child.comps() == dir.comps().push(name),
{
    lemma_child_comps(dir@, name);
    if is_absolute_text(name) {
        assert(name.contains(name[0]));
    }
    if dir.comps().len() > 0 {
        assert(child.comps()[0] == dir.comps()[0]);
    } else {
        assert(child.comps()[0] == name);
    }
}

/// What a directory that is to be read comes with: its path and its absolute path as they are
/// written, what applies to it, and the inodes of it and of the directories above it.
pub struct Reading {
    pub path: Seq<char>,
    pub abs: Seq<char>,
    pub rules: IgnoreRules,
    pub ancestors: Set<u64>,
}

/// What a job comes with.
pub open spec fn reading_of(job: ScanJob) -> Reading {
    Reading {
        path: job.path@,
        abs: job.abs_path@,
        rules: job.ignore_stack@,
        ancestors: job.ancestor_inodes@,
    }
}

/// What the ignore file of a directory says, where there is one that can be used.
pub open spec fn verdicts_in(
    texts: FsTexts,
    abs: Seq<char>,
    dir: Seq<Seq<char>>,
) -> Option<Verdicts> {
    match text_at(texts, dir.push(gitignore_name())) {
        Some(t) => file_verdicts(join_text(abs, gitignore_name()), t),
        None => None,
    }
}

/// What applies in a directory that is read.
pub open spec fn rules_read(texts: FsTexts, r: Reading, dir: Seq<Seq<char>>) -> IgnoreRules {
    match verdicts_in(texts, r.abs, dir) {
        Some(verdicts) => with_layer(r.rules, Layer { base: components(r.abs), verdicts }),
        None => r.rules,
    }
}

/// What a child of a directory that is read comes with, where it is to be read in turn.
pub open spec fn child_reading(
    tree: FsTree,
    texts: FsTexts,
    r: Reading,
    dir: Seq<Seq<char>>,
    name: Seq<char>,
) -> Option<Reading> {
    let p = dir.push(name);
    let abs = join_text(r.abs, name);
    let rules = rules_read(texts, r, dir);
    if tree.contains_key(p) && tree[p].is_dir && !r.ancestors.contains(tree[p].inode) {
        Some(
            Reading {
                path: join_text(r.path, name),
                abs,
                rules: if is_ignored_by(rules, abs, true) {
                    IgnoreRules::All
                } else {
                    rules
                },
                ancestors: r.ancestors.insert(tree[p].inode),
            },
        )
    } else {
        None
    }
}

/// What a directory comes with, where it is read for one of some jobs.
pub open spec fn reading_at(
    tree: FsTree,
    texts: FsTexts,
    jobs: Seq<ScanJob>,
    p: Seq<Seq<char>>,
) -> Option<Reading>
    decreases p.len(),
{
    if exists|j: int| #![trigger jobs[j]] 0 <= j < jobs.len() && jobs[j].path.comps() == p {
        let j = choose|j: int| #![trigger jobs[j]] 0 <= j < jobs.len() && jobs[j].path.comps() == p;
        Some(reading_of(jobs[j]))
    } else if p.len() == 0 {
        None
    } else {
        match reading_at(tree, texts, jobs, p.drop_last()) {
            Some(r) => child_reading(tree, texts, r, p.drop_last(), p.last()),
            None => None,
        }
    }
}

/// Whether no job is for a directory that lies in that of another one.
pub open spec fn are_jobs_apart(jobs: Seq<ScanJob>) -> bool {
    forall|i: int, j: int|
        #![trigger jobs[i], jobs[j]]
        0 <= i < jobs.len() && 0 <= j < jobs.len() && i != j ==> !nested_in(
            jobs[i].path.comps(),
            jobs[j].path.comps(),
        )
}

/// Whether a job is for a directory that is there, but that nothing is known of yet.
pub open spec fn is_waiting(paths: ByPath, job: ScanJob) -> bool {
    let dir = job.path.comps();
    &&& paths.contains_key(dir)
    &&& paths[dir].kind is PendingDir
    &&& forall|p: Seq<Seq<char>>| #[trigger] paths.contains_key(p) ==> !lies_in(p, dir)
}

/// Whether a path is that of one of some jobs, or lies below one.
pub open spec fn is_under(jobs: Seq<ScanJob>, d: Seq<Seq<char>>) -> bool {
    exists|j: int| #![trigger jobs[j]] 0 <= j < jobs.len() && nested_in(d, jobs[j].path.comps())
}

/// Whether a directory has been read for some jobs, where others are left.
pub open spec fn is_done(
    tree: FsTree,
    texts: FsTexts,
    jobs: Seq<ScanJob>,
    left: Seq<ScanJob>,
    d: Seq<Seq<char>>,
) -> bool {
    reading_at(tree, texts, jobs, d) is Some && !is_under(left, d)
}

/// Whether a path was found in a directory that has been read.
pub open spec fn is_found(
    tree: FsTree,
    texts: FsTexts,
    jobs: Seq<ScanJob>,
    left: Seq<ScanJob>,
    p: Seq<Seq<char>>,
) -> bool {
    p.len() > 0 && tree.contains_key(p) && is_done(tree, texts, jobs, left, p.drop_last())
}

/// Whether an entry is what was found at a path: it has the inode and the kind that the file system
/// gives, is written as the directory is and then its name, and has the status by what applies in
/// the directory.
pub open spec fn is_row(
    e: Entry,
    tree: FsTree,
    texts: FsTexts,
    jobs: Seq<ScanJob>,
    p: Seq<Seq<char>>,
) -> bool {
    let d = p.drop_last();
    let r = reading_at(tree, texts, jobs, d)->0;
    &&& e.inode == tree[p].inode
    &&& e.is_file_entry() == !tree[p].is_dir
    &&& e.path@ == join_text(r.path, p.last())
    &&& e.is_ignored == is_ignored_by(
        rules_read(texts, r, d),
        join_text(r.abs, p.last()),
        !e.is_file_entry(),
    )
}

/// Whether the paths of two entries are written alike, and they have one inode, one kind and one
/// status.
pub open spec fn same_row(a: Entry, b: Entry) -> bool {
    &&& a.path@ == b.path@
    &&& a.inode == b.inode
    &&& a.is_file_entry() == b.is_file_entry()
    &&& a.is_ignored == b.is_ignored
}

/// Whether the ignore file of a directory was found where the directory was read.
pub open spec fn finds_ignore(
    tree: FsTree,
    texts: FsTexts,
    jobs: Seq<ScanJob>,
    left: Seq<ScanJob>,
    root: Seq<Seq<char>>,
    key: Seq<Seq<char>>,
) -> bool {
    let d = key.skip(root.len() as int);
    &&& nested_in(key, root)
    &&& is_done(tree, texts, jobs, left, d)
    &&& verdicts_in(texts, reading_at(tree, texts, jobs, d)->0.abs, d) is Some
}

/// The ignore file that is known of a directory once directories have been read.
pub open spec fn ignore_found(
    tree: FsTree,
    texts: FsTexts,
    jobs: Seq<ScanJob>,
    left: Seq<ScanJob>,
    first: LocalSnapshot,
    key: Seq<Seq<char>>,
) -> Option<IgnoreRule> {
    let root = components(first.root_text());
    let d = key.skip(root.len() as int);
    if finds_ignore(tree, texts, jobs, left, root, key) {
        Some(
            IgnoreRule {
                text: if first.ignores().contains_key(key) {
                    first.ignores()[key].text
                } else {
                    trimmed(
                        join_text(first.root_text(), reading_at(tree, texts, jobs, d)->0.path),
                    )
                },
                verdicts: verdicts_in(texts, reading_at(tree, texts, jobs, d)->0.abs, d)->0,
                scan_id: first.scan(),
            },
        )
    } else if first.ignores().contains_key(key) {
        Some(first.ignores()[key])
    } else {
        None
    }
}

/// Whether the jobs that are left are those for directories that are there, that nothing is known
/// of yet, and that come with what they come with in whatever order directories are read.
pub open spec fn are_jobs_left(
    tree: FsTree,
    texts: FsTexts,
    jobs: Seq<ScanJob>,
    left: Seq<ScanJob>,
    paths: ByPath,
) -> bool {
    &&& are_jobs_apart(left)
    &&& forall|j: int|
        #![trigger left[j]]
        0 <= j < left.len() ==> {
            &&& is_waiting(paths, left[j])
            &&& leads_down(left[j].path)
            &&& reading_at(tree, texts, jobs, left[j].path.comps()) == Some(reading_of(left[j]))
        }
}

/// Whether a snapshot is what another one becomes where directories are read, but for those that
/// are left.
pub open spec fn is_reading(
    tree: FsTree,
    texts: FsTexts,
    jobs: Seq<ScanJob>,
    first: LocalSnapshot,
    l: LocalSnapshot,
    left: Seq<ScanJob>,
) -> bool {
    &&& l.root_text() == first.root_text()
    &&& l.scan() == first.scan()
    &&& are_jobs_left(tree, texts, jobs, left, l.paths_map())
    &&& forall|p: Seq<Seq<char>>|
        #![trigger l.paths_map().contains_key(p)]
        {
            &&& l.paths_map().contains_key(p) <==> first.paths_map().contains_key(p) || is_found(
                tree,
                texts,
                jobs,
                left,
                p,
            )
            &&& is_found(tree, texts, jobs, left, p) ==> is_row(
                l.paths_map()[p],
                tree,
                texts,
                jobs,
                p,
            )
            &&& first.paths_map().contains_key(p) && !is_found(tree, texts, jobs, left, p)
                ==> same_row(l.paths_map()[p], first.paths_map()[p])
        }
    &&& forall|key: Seq<Seq<char>>|
        #![trigger l.ignores().contains_key(key)]
        {
            let rule = ignore_found(tree, texts, jobs, left, first, key);
            &&& l.ignores().contains_key(key) <==> rule is Some
            &&& rule is Some ==> l.ignores()[key] == rule->0
        }
}

/// A job comes with what it comes with.
proof fn lemma_reading_of_job(tree: FsTree, texts: FsTexts, jobs: Seq<ScanJob>, j: int)
    requires
        are_jobs_apart(jobs),
        0 <= j < jobs.len(),
    ensures
        reading_at(tree, texts, jobs, jobs[j].path.comps()) == Some(reading_of(jobs[j])),
{
    let p = jobs[j].path.comps();
    let i = choose|i: int| #![trigger jobs[i]] 0 <= i < jobs.len() && jobs[i].path.comps() == p;
    assert(nested_in(p, p)) by {
        assert(p =~= p.subrange(0, p.len() as int));
    }
    if i != j {
        assert(!nested_in(jobs[i].path.comps(), jobs[j].path.comps()));
    }
}

/// A directory that is read lies in that of a job.
proof fn lemma_reading_is_under(tree: FsTree, texts: FsTexts, jobs: Seq<ScanJob>, p: Seq<Seq<char>>) -> (j:
    int)
    requires
        reading_at(tree, texts, jobs, p) is Some,
    ensures
        0 <= j < jobs.len(),
        nested_in(p, jobs[j].path.comps()),
        is_under(jobs, p),
    decreases p.len(),
{
    if exists|j: int| #![trigger jobs[j]] 0 <= j < jobs.len() && jobs[j].path.comps() == p {
        let j = choose|j: int| #![trigger jobs[j]] 0 <= j < jobs.len() && jobs[j].path.comps() == p;
        assert(nested_in(p, p)) by {
            assert(p =~= p.subrange(0, p.len() as int));
        }
        j
    } else {
        let d = p.drop_last();
        let j = lemma_reading_is_under(tree, texts, jobs, d);
        assert(nested_in(p, d)) by {
            assert(d =~= p.subrange(0, d.len() as int));
        }
        lemma_nested_transitive(p, d, jobs[j].path.comps());
        j
    }
}

/// Below a directory that is read no job begins.
proof fn lemma_no_job_below(
    tree: FsTree,
    texts: FsTexts,
    jobs: Seq<ScanJob>,
    dir: Seq<Seq<char>>,
    p: Seq<Seq<char>>,
)
    requires
        are_jobs_apart(jobs),
        reading_at(tree, texts, jobs, dir) is Some,
        lies_in(p, dir),
    ensures
        !(exists|j: int| #![trigger jobs[j]] 0 <= j < jobs.len() && jobs[j].path.comps() == p),
{
    if exists|j: int| #![trigger jobs[j]] 0 <= j < jobs.len() && jobs[j].path.comps() == p {
        let j = choose|j: int| #![trigger jobs[j]] 0 <= j < jobs.len() && jobs[j].path.comps() == p;
        let i = lemma_reading_is_under(tree, texts, jobs, dir);
        lemma_nested_transitive(p, dir, jobs[i].path.comps());
        lemma_lies_in_child(p, dir);
        if i != j {
            assert(!nested_in(jobs[j].path.comps(), jobs[i].path.comps()));
        } else {
            assert(nested_in(dir, p));
        }
    }
}

/// What a child of a directory that is read comes with.
proof fn lemma_reading_child(
    tree: FsTree,
    texts: FsTexts,
    jobs: Seq<ScanJob>,
    dir: Seq<Seq<char>>,
    name: Seq<char>,
)
    requires
        are_jobs_apart(jobs),
        reading_at(tree, texts, jobs, dir) is Some,
    ensures
        reading_at(tree, texts, jobs, dir.push(name)) == child_reading(
            tree,
            texts,
            reading_at(tree, texts, jobs, dir)->0,
            dir,
            name,
        ),
{
    let p = dir.push(name);
    assert(lies_in(p, dir)) by {
        assert(dir =~= p.subrange(0, dir.len() as int));
    }
    assert(p.drop_last() =~= dir);
    lemma_no_job_below(tree, texts, jobs, dir, p);
}

/// Where a directory is read that lies in another one that is, those between them are.
proof fn lemma_reading_between(
    tree: FsTree,
    texts: FsTexts,
    jobs: Seq<ScanJob>,
    dir: Seq<Seq<char>>,
    p: Seq<Seq<char>>,
    n: int,
)
    requires
        are_jobs_apart(jobs),
        reading_at(tree, texts, jobs, dir) is Some,
        reading_at(tree, texts, jobs, p) is Some,
        lies_in(p, dir),
        dir.len() < n <= p.len(),
    ensures
        reading_at(tree, texts, jobs, p.take(n)) is Some,
    decreases p.len() - n,
{
    if n == p.len() {
        assert(p.take(n) =~= p);
    } else {
        lemma_reading_between(tree, texts, jobs, dir, p, n + 1);
        let q = p.take(n + 1);
        lemma_lies_in_child(p, dir);
        assert(lies_in(q, dir)) by {
            assert(dir =~= q.subrange(0, dir.len() as int)) by {
                assert(dir =~= p.subrange(0, dir.len() as int));
            }
        }
        lemma_no_job_below(tree, texts, jobs, dir, q);
        assert(q.drop_last() =~= p.take(n));
    }
}

/// Whether jobs are those for the children of a directory that are to be read.
spec fn are_jobs_in(
    tree: FsTree,
    texts: FsTexts,
    r: Reading,
    dir: Seq<Seq<char>>,
    new_jobs: Seq<ScanJob>,
) -> bool {
    &&& forall|i: int|
        #![trigger new_jobs[i]]
        0 <= i < new_jobs.len() ==> {
            let d = new_jobs[i].path.comps();
            &&& d.len() == dir.len() + 1
            &&& d == dir.push(d.last())
            &&& leads_down(new_jobs[i].path)
            &&& child_reading(tree, texts, r, dir, d.last()) == Some(reading_of(new_jobs[i]))
        }
    &&& forall|i: int, j: int|
        #![trigger new_jobs[i], new_jobs[j]]
        0 <= i < j < new_jobs.len() ==> new_jobs[i].path.comps() != new_jobs[j].path.comps()
    &&& forall|name: Seq<char>|
        #![trigger child_reading(tree, texts, r, dir, name)]
        child_reading(tree, texts, r, dir, name) is Some ==> exists|i: int|
            #![trigger new_jobs[i]]
            0 <= i < new_jobs.len() && new_jobs[i].path.comps() == dir.push(name)
}

/// The jobs that come of reading a directory.
proof fn lemma_jobs_in(
    tree: FsTree,
    texts: FsTexts,
    job: ScanJob,
    children: Seq<DirChild>,
    new_jobs: Seq<ScanJob>,
)
    requires
        is_read_from(tree, texts, job.path.comps(), children),
        leads_down(job.path),
        dir_rules(job.ignore_stack@, job.abs_path@, children) == rules_read(
            texts,
            reading_of(job),
            job.path.comps(),
        ),
        crate::scanner::are_child_jobs(
            new_jobs,
            job,
            dir_rules(job.ignore_stack@, job.abs_path@, children),
            children.filter(|c: DirChild| is_to_read(c, job.ancestor_inodes@)),
        ),
    ensures
        are_jobs_in(tree, texts, reading_of(job), job.path.comps(), new_jobs),
{
    let dir = job.path.comps();
    let r = reading_of(job);
    let rules = dir_rules(job.ignore_stack@, job.abs_path@, children);
    let ancestors = job.ancestor_inodes@;
    let reads = |c: DirChild| is_to_read(c, ancestors);
    let cs = children.filter(reads);
    lemma_filter_apart(children, reads);
    assert forall|i: int| #![trigger new_jobs[i]] 0 <= i < new_jobs.len() implies {
        let d = new_jobs[i].path.comps();
        &&& d == dir.push(cs[i].name@)
        &&& d.last() == cs[i].name@
        &&& leads_down(new_jobs[i].path)
        &&& child_reading(tree, texts, r, dir, d.last()) == Some(reading_of(new_jobs[i]))
    } by {
        assert(is_child_job(new_jobs[i], job, rules, cs[i]));
        assert(reads(cs[i]));
        let x = choose|x: int| 0 <= x < children.len() && children[x] == cs[i];
        assert(is_file_name(children[x].name@));
        lemma_child_leads_down(job.path, cs[i].name@, new_jobs[i].path);
        assert(tree[dir.push(cs[i].name@)] == cs[i].metadata->0);
    }
    assert forall|i: int, j: int|
        #![trigger new_jobs[i], new_jobs[j]]
        0 <= i < j < new_jobs.len() implies new_jobs[i].path.comps() != new_jobs[j].path.comps() by {
        assert(cs[i].name@ != cs[j].name@);
        assert(new_jobs[i].path.comps().last() == cs[i].name@);
        assert(new_jobs[j].path.comps().last() == cs[j].name@);
    }
    assert forall|name: Seq<char>|
        #![trigger child_reading(tree, texts, r, dir, name)]
        child_reading(tree, texts, r, dir, name) is Some implies exists|i: int|
        #![trigger new_jobs[i]]
        0 <= i < new_jobs.len() && new_jobs[i].path.comps() == dir.push(name) by {
        assert(tree.contains_key(dir.push(name)));
        let x = choose|x: int|
            #![trigger children[x]]
            0 <= x < children.len() && children[x].name@ == name && children[x].metadata is Some;
        assert(children.contains(children[x]) && reads(children[x]));
        let i = choose|i: int| 0 <= i < cs.len() && cs[i] == children[x];
        assert(new_jobs[i].path.comps() == dir.push(name));
    }
}

/// Reading one more directory makes it one that has been read, and no other.
proof fn lemma_one_more_done(
    tree: FsTree,
    texts: FsTexts,
    jobs: Seq<ScanJob>,
    left: Seq<ScanJob>,
    k: int,
    new_jobs: Seq<ScanJob>,
    d: Seq<Seq<char>>,
)
    requires
        are_jobs_apart(jobs),
        are_jobs_apart(left),
        0 <= k < left.len(),
        reading_at(tree, texts, jobs, left[k].path.comps()) == Some(reading_of(left[k])),
        are_jobs_in(tree, texts, reading_of(left[k]), left[k].path.comps(), new_jobs),
    ensures
        is_done(tree, texts, jobs, left.remove(k) + new_jobs, d) <==> is_done(
            tree,
            texts,
            jobs,
            left,
            d,
        ) || d == left[k].path.comps(),
{
    let dir = left[k].path.comps();
    let r = reading_of(left[k]);
    let others = left.remove(k);
    let all = others + new_jobs;
    assert(nested_in(dir, dir)) by {
        assert(dir =~= dir.subrange(0, dir.len() as int));
    }
    if d == dir {
        if is_under(all, d) {
            let j = choose|j: int| #![trigger all[j]] 0 <= j < all.len() && nested_in(d, all[j].path.comps());
            if j < others.len() {
                let o = if j < k {
                    j
                } else {
                    j + 1
                };
                assert(all[j] == left[o]);
                assert(!nested_in(left[k].path.comps(), left[o].path.comps()));
            } else {
                assert(all[j] == new_jobs[j - others.len()]);
            }
        }
    } else {
        if is_under(all, d) {
            let j = choose|j: int| #![trigger all[j]] 0 <= j < all.len() && nested_in(d, all[j].path.comps());
            if j < others.len() {
                let o = if j < k {
                    j
                } else {
                    j + 1
                };
                assert(all[j] == left[o]);
                assert(is_under(left, d));
            } else {
                let c = new_jobs[j - others.len()].path.comps();
                assert(all[j] == new_jobs[j - others.len()]);
                assert(nested_in(c, dir)) by {
                    assert(dir =~= c.subrange(0, dir.len() as int));
                }
                lemma_nested_transitive(d, c, dir);
                assert(is_under(left, d));
            }
        }
        if is_under(left, d) && reading_at(tree, texts, jobs, d) is Some {
            let j = choose|j: int| #![trigger left[j]] 0 <= j < left.len() && nested_in(d, left[j].path.comps());
            if j < k {
                assert(all[j] == left[j]);
            } else if j > k {
                assert(all[j - 1] == left[j]);
            } else {
                let n = dir.len() as int;
                assert(lies_in(d, dir));
                lemma_lies_in_child(d, dir);
                lemma_reading_between(tree, texts, jobs, dir, d, n + 1);
                lemma_reading_child(tree, texts, jobs, dir, d[n]);
                assert(child_reading(tree, texts, r, dir, d[n]) is Some);
                let i = choose|i: int|
                    #![trigger new_jobs[i]]
                    0 <= i < new_jobs.len() && new_jobs[i].path.comps() == dir.push(d[n]);
                assert(all[others.len() + i] == new_jobs[i]);
            }
            assert(is_under(all, d));
        }
    }
}

/// Whether entries are others and what was found in a directory.
spec fn is_read_in(
    paths: ByPath,
    np: ByPath,
    tree: FsTree,
    texts: FsTexts,
    r: Reading,
    dir: Seq<Seq<char>>,
) -> bool {
    &&& forall|p: Seq<Seq<char>>| #[trigger]
        np.contains_key(p) <==> paths.contains_key(p) || (is_child_of(p, dir)
            && tree.contains_key(p))
    &&& forall|p: Seq<Seq<char>>| #[trigger]
        np.contains_key(p) && is_child_of(p, dir) && tree.contains_key(p) ==> {
            &&& np[p].inode == tree[p].inode
            &&& np[p].is_file_entry() == !tree[p].is_dir
            &&& np[p].path@ == join_text(r.path, p.last())
            &&& tree[p].is_dir ==> np[p].kind is PendingDir
            &&& np[p].is_ignored == is_ignored_by(
                rules_read(texts, r, dir),
                join_text(r.abs, p.last()),
                !np[p].is_file_entry(),
            )
        }
    &&& forall|p: Seq<Seq<char>>| #[trigger]
        np.contains_key(p) && !(is_child_of(p, dir) && tree.contains_key(p)) ==> {
            &&& same_row(np[p], paths[p])
            &&& p != dir ==> np[p] == paths[p]
        }
}

/// What reading a directory does to the entries.
proof fn lemma_read_in(
    tree: FsTree,
    texts: FsTexts,
    before: LocalSnapshot,
    left: Seq<ScanJob>,
    k: int,
    children: Seq<DirChild>,
    id: usize,
    es: Seq<Entry>,
    repo: Option<u64>,
    new_jobs: Seq<ScanJob>,
    after: LocalSnapshot,
)
    requires
        0 <= k < left.len(),
        is_waiting(before.paths_map(), left[k]),
        is_read_from(tree, texts, left[k].path.comps(), children),
        is_dir_scanned(before, left, k, children, id, es, repo, new_jobs, after),
        dir_rules(left[k].ignore_stack@, left[k].abs_path@, children) == rules_read(
            texts,
            reading_of(left[k]),
            left[k].path.comps(),
        ),
    ensures
        is_read_in(
            before.paths_map(),
            after.paths_map(),
            tree,
            texts,
            reading_of(left[k]),
            left[k].path.comps(),
        ),
{
    let job = left[k];
    let dir = job.path.comps();
    let r = reading_of(job);
    let paths = before.paths_map();
    let np = after.paths_map();
    let chars = before.snap().root_chars();
    let rules = dir_rules(job.ignore_stack@, job.abs_path@, children);
    let rs = choose|rs: Seq<Entry>| #[trigger] is_populated(before, dir, es, rs, after);
    assert forall|i: int| #![trigger rs[i]] 0 <= i < rs.len() implies same_but_id(rs[i], es[i]) by {
    }
    assert forall|p: Seq<Seq<char>>| {
        &&& #[trigger] np.contains_key(p) <==> paths.contains_key(p) || (is_child_of(p, dir)
            && tree.contains_key(p))
        &&& np.contains_key(p) && is_child_of(p, dir) && tree.contains_key(p) ==> {
            &&& np[p].inode == tree[p].inode
            &&& np[p].is_file_entry() == !tree[p].is_dir
            &&& np[p].path@ == join_text(r.path, p.last())
            &&& tree[p].is_dir ==> np[p].kind is PendingDir
            &&& np[p].is_ignored == is_ignored_by(
                rules_read(texts, r, dir),
                join_text(r.abs, p.last()),
                !np[p].is_file_entry(),
            )
        }
        &&& np.contains_key(p) && !(is_child_of(p, dir) && tree.contains_key(p)) ==> {
            &&& same_row(np[p], paths[p])
            &&& p != dir ==> np[p] == paths[p]
        }
    } by {
        lemma_populated_path(before, dir, es, rs, p);
        lemma_child_paths(tree, job, rules, children, chars, id, es, rs, p);
        if entries_by_path(rs).contains_key(p) {
            let i = choose|i: int|
                #![trigger rs[i]]
                0 <= i < rs.len() && rs[i].comps() == p && np[p] == rs[i];
            lemma_child_status(tree, job, rules, children, chars, id, es, i);
            assert(same_but_id(rs[i], es[i]));
        }
    }
}

/// Reading one of the directories that are left.
#[verifier::rlimit(50)]
proof fn lemma_reading_step(
    tree: FsTree,
    texts: FsTexts,
    jobs: Seq<ScanJob>,
    first: LocalSnapshot,
    before: LocalSnapshot,
    left: Seq<ScanJob>,
    k: int,
    children: Seq<DirChild>,
    id: usize,
    es: Seq<Entry>,
    repo: Option<u64>,
    new_jobs: Seq<ScanJob>,
    after: LocalSnapshot,
)
    requires
        are_texts_of(tree, texts),
        are_jobs_apart(jobs),
        is_reading(tree, texts, jobs, first, before, left),
        0 <= k < left.len(),
        is_read_from(tree, texts, left[k].path.comps(), children),
        is_dir_scanned(before, left, k, children, id, es, repo, new_jobs, after),
    ensures
        is_reading(tree, texts, jobs, first, after, left.remove(k) + new_jobs),
{
    let job = left[k];
    let dir = job.path.comps();
    let abs = job.abs_path@;
    let r = reading_of(job);
    let all = left.remove(k) + new_jobs;
    let paths = before.paths_map();
    let np = after.paths_map();
    assert(is_waiting(paths, job));
    assert(leads_down(job.path));
    assert(reading_at(tree, texts, jobs, dir) == Some(r));
    lemma_read_verdicts(tree, texts, abs, dir, children);
    assert(dir_verdicts(abs, children) == verdicts_in(texts, abs, dir));
    lemma_dir_rules(job.ignore_stack@, abs, children);
    lemma_jobs_in(tree, texts, job, children, new_jobs);
    lemma_read_in(tree, texts, before, left, k, children, id, es, repo, new_jobs, after);
    lemma_jobs_stay_left(tree, texts, jobs, left, k, new_jobs, paths, np);
    assert forall|p: Seq<Seq<char>>|
        #![trigger np.contains_key(p)]
        {
            &&& np.contains_key(p) <==> first.paths_map().contains_key(p) || is_found(
                tree,
                texts,
                jobs,
                all,
                p,
            )
            &&& is_found(tree, texts, jobs, all, p) ==> is_row(np[p], tree, texts, jobs, p)
            &&& first.paths_map().contains_key(p) && !is_found(tree, texts, jobs, all, p)
                ==> same_row(np[p], first.paths_map()[p])
        } by {
        assert(paths.contains_key(p) <==> first.paths_map().contains_key(p) || is_found(
            tree,
            texts,
            jobs,
            left,
            p,
        ));
        if p.len() > 0 {
            lemma_one_more_done(tree, texts, jobs, left, k, new_jobs, p.drop_last());
            if is_child_of(p, dir) {
                assert(nested_in(p, dir)) by {
                    assert(dir =~= p.subrange(0, dir.len() as int));
                }
                assert(lies_in(p, dir));
                assert(!paths.contains_key(p));
            } else {
                assert(p.drop_last() != dir);
            }
        }
        let was = is_found(tree, texts, jobs, left, p);
        assert(is_found(tree, texts, jobs, all, p) <==> was || (is_child_of(p, dir)
            && tree.contains_key(p)));
        assert(is_child_of(p, dir) ==> !was);
        assert(np.contains_key(p) <==> first.paths_map().contains_key(p) || is_found(
            tree,
            texts,
            jobs,
            all,
            p,
        ));
        if was {
            assert(same_row(np[p], paths[p]));
            assert(is_row(paths[p], tree, texts, jobs, p));
            assert(is_row(np[p], tree, texts, jobs, p));
        } else if is_child_of(p, dir) && tree.contains_key(p) {
            assert(is_row(np[p], tree, texts, jobs, p));
        } else if first.paths_map().contains_key(p) {
            assert(same_row(np[p], paths[p]));
        }
    }
    lemma_ignores_found(tree, texts, jobs, first, before, left, k, new_jobs, after);
    assert(after.root_text() == first.root_text());
    assert(after.scan() == first.scan());
    assert(are_jobs_left(tree, texts, jobs, all, np));
    assert(forall|key: Seq<Seq<char>>|
        #![trigger after.ignores().contains_key(key)]
        {
            let rule = ignore_found(tree, texts, jobs, all, first, key);
            &&& after.ignores().contains_key(key) <==> rule is Some
            &&& rule is Some ==> after.ignores()[key] == rule->0
        });
}

/// The ignore files that are known once one more directory is read.
proof fn lemma_ignores_found(
    tree: FsTree,
    texts: FsTexts,
    jobs: Seq<ScanJob>,
    first: LocalSnapshot,
    before: LocalSnapshot,
    left: Seq<ScanJob>,
    k: int,
    new_jobs: Seq<ScanJob>,
    after: LocalSnapshot,
)
    requires
        are_jobs_apart(jobs),
        is_reading(tree, texts, jobs, first, before, left),
        0 <= k < left.len(),
        are_jobs_in(tree, texts, reading_of(left[k]), left[k].path.comps(), new_jobs),
        after.ignores() == match verdicts_in(
            texts,
            left[k].abs_path@,
            left[k].path.comps(),
        ) {
            Some(verdicts) => with_ignore(
                before.ignores(),
                join_text(before.root_text(), left[k].path@),
                verdicts,
                before.scan(),
            ),
            None => before.ignores(),
        },
    ensures
        forall|key: Seq<Seq<char>>|
            #![trigger after.ignores().contains_key(key)]
            {
                let rule = ignore_found(
                    tree,
                    texts,
                    jobs,
                    left.remove(k) + new_jobs,
                    first,
                    key,
                );
                &&& after.ignores().contains_key(key) <==> rule is Some
                &&& rule is Some ==> after.ignores()[key] == rule->0
            },
{
    let job = left[k];
    let dir = job.path.comps();
    let all = left.remove(k) + new_jobs;
    let root = components(first.root_text());
    assert(is_waiting(before.paths_map(), left[k]));
    lemma_components_join(before.root_text(), job.path@);
    assert forall|key: Seq<Seq<char>>|
        #![trigger after.ignores().contains_key(key)]
        {
            let rule = ignore_found(tree, texts, jobs, all, first, key);
            &&& after.ignores().contains_key(key) <==> rule is Some
            &&& rule is Some ==> after.ignores()[key] == rule->0
        } by {
        let d = key.skip(root.len() as int);
        let rule = ignore_found(tree, texts, jobs, left, first, key);
        assert(before.ignores().contains_key(key) <==> rule is Some);
        lemma_one_more_done(tree, texts, jobs, left, k, new_jobs, d);
        if nested_in(key, root) {
            assert(key =~= root + d) by {
                assert(root =~= key.subrange(0, root.len() as int));
            }
            if d != dir {
                assert(key != root + dir) by {
                    if key == root + dir {
                        assert(d =~= dir);
                    }
                }
            }
        } else {
            assert(key != root + dir) by {
                if key == root + dir {
                    assert(root =~= key.subrange(0, root.len() as int));
                }
            }
        }
    }
}

/// The jobs that are left once one more directory is read.
#[verifier::rlimit(60)]
#[verifier::spinoff_prover]
proof fn lemma_jobs_stay_left(
    tree: FsTree,
    texts: FsTexts,
    jobs: Seq<ScanJob>,
    left: Seq<ScanJob>,
    k: int,
    new_jobs: Seq<ScanJob>,
    paths: ByPath,
    np: ByPath,
)
    requires
        are_jobs_apart(jobs),
        are_jobs_left(tree, texts, jobs, left, paths),
        0 <= k < left.len(),
        are_jobs_in(tree, texts, reading_of(left[k]), left[k].path.comps(), new_jobs),
        is_read_in(paths, np, tree, texts, reading_of(left[k]), left[k].path.comps()),
    ensures
        are_jobs_left(tree, texts, jobs, left.remove(k) + new_jobs, np),
{
    let dir = left[k].path.comps();
    let r = reading_of(left[k]);
    let others = left.remove(k);
    let all = others + new_jobs;
    assert(is_waiting(paths, left[k]));
    assert forall|j: int| #![trigger others[j]] 0 <= j < others.len() implies {
        let q = others[j].path.comps();
        &&& is_waiting(np, others[j])
        &&& leads_down(others[j].path)
        &&& reading_at(tree, texts, jobs, q) == Some(reading_of(others[j]))
        &&& !nested_in(q, dir)
        &&& !nested_in(dir, q)
    } by {
        let o = if j < k {
            j
        } else {
            j + 1
        };
        assert(others[j] == left[o]);
        let q = left[o].path.comps();
        assert(!nested_in(left[o].path.comps(), left[k].path.comps()));
        assert(!nested_in(left[k].path.comps(), left[o].path.comps()));
        assert(is_waiting(paths, left[o]));
        if is_child_of(q, dir) {
            assert(dir =~= q.subrange(0, dir.len() as int));
        }
        assert(np.contains_key(q));
        assert forall|p: Seq<Seq<char>>| #[trigger] np.contains_key(p) implies !lies_in(p, q) by {
            if lies_in(p, q) {
                assert(!paths.contains_key(p));
                lemma_lies_in_child(p, q);
                assert(nested_in(dir, q)) by {
                    assert(p.take(q.len() as int) =~= dir.subrange(0, q.len() as int));
                }
            }
        }
    }
    assert forall|j: int| #![trigger new_jobs[j]] 0 <= j < new_jobs.len() implies {
        let q = new_jobs[j].path.comps();
        &&& is_waiting(np, new_jobs[j])
        &&& leads_down(new_jobs[j].path)
        &&& reading_at(tree, texts, jobs, q) == Some(reading_of(new_jobs[j]))
        &&& nested_in(q, dir)
        &&& q.len() == dir.len() + 1
    } by {
        let q = new_jobs[j].path.comps();
        lemma_reading_child(tree, texts, jobs, dir, q.last());
        assert(q.drop_last() =~= dir);
        assert(nested_in(q, dir)) by {
            assert(dir =~= q.subrange(0, dir.len() as int));
        }
        assert(is_child_of(q, dir));
        assert(np.contains_key(q));
        assert forall|p: Seq<Seq<char>>| #[trigger] np.contains_key(p) implies !lies_in(p, q) by {
            if lies_in(p, q) {
                lemma_lies_in_child(p, q);
                lemma_nested_transitive(p, q, dir);
                assert(lies_in(p, dir));
            }
        }
    }
    assert forall|j: int| #![trigger all[j]] 0 <= j < all.len() implies {
        &&& is_waiting(np, all[j])
        &&& leads_down(all[j].path)
        &&& reading_at(tree, texts, jobs, all[j].path.comps()) == Some(reading_of(all[j]))
    } by {
        if j < others.len() {
            assert(all[j] == others[j]);
        } else {
            assert(all[j] == new_jobs[j - others.len()]);
        }
    }
    assert forall|i: int, j: int|
        #![trigger all[i], all[j]]
        0 <= i < all.len() && 0 <= j < all.len() && i != j implies !nested_in(
        all[i].path.comps(),
        all[j].path.comps(),
    ) by {
        let p = all[i].path.comps();
        let q = all[j].path.comps();
        if i < others.len() {
            assert(all[i] == others[i]);
            if j < others.len() {
                let a = if i < k {
                    i
                } else {
                    i + 1
                };
                let b = if j < k {
                    j
                } else {
                    j + 1
                };
                assert(all[i] == left[a] && all[j] == left[b]);
            } else {
                assert(all[j] == new_jobs[j - others.len()]);
                if nested_in(p, q) {
                    lemma_nested_transitive(p, q, dir);
                }
            }
        } else {
            assert(all[i] == new_jobs[i - others.len()]);
            if j < others.len() {
                assert(all[j] == others[j]);
                if nested_in(p, q) {
                    if q.len() <= dir.len() {
                        lemma_prefixes_nest(p, dir, q);
                    } else {
                        lemma_prefixes_nest(p, q, dir);
                    }
                }
            } else {
                let a = i - others.len();
                let b = j - others.len();
                assert(all[j] == new_jobs[b]);
                if a < b {
                    assert(new_jobs[a].path.comps() != new_jobs[b].path.comps());
                } else {
                    assert(new_jobs[b].path.comps() != new_jobs[a].path.comps());
                }
                if nested_in(p, q) {
                    assert(p =~= q) by {
                        assert(p.subrange(0, q.len() as int) =~= p);
                    }
                }
            }
        }
    }
}

/// Reading directories, until none is left.
pub proof fn lemma_all_reading(
    tree: FsTree,
    texts: FsTexts,
    states: Seq<LocalSnapshot>,
    queues: Seq<Seq<ScanJob>>,
    taken: Seq<Taken>,
    n: int,
)
    requires
        are_texts_of(tree, texts),
        is_all_read(tree, texts, states, queues, taken),
        are_jobs_ready(states[0].paths_map(), queues[0]),
        0 <= n < states.len(),
    ensures
        is_reading(tree, texts, queues[0], states[0], states[n], queues[n]),
    decreases n,
{
    let jobs = queues[0];
    let first = states[0];
    if n == 0 {
        assert forall|j: int| #![trigger jobs[j]] 0 <= j < jobs.len() implies reading_at(
            tree,
            texts,
            jobs,
            jobs[j].path.comps(),
        ) == Some(reading_of(jobs[j])) by {
            lemma_reading_of_job(tree, texts, jobs, j);
        }
        assert forall|d: Seq<Seq<char>>| !#[trigger] is_done(tree, texts, jobs, jobs, d) by {
            if reading_at(tree, texts, jobs, d) is Some {
                let j = lemma_reading_is_under(tree, texts, jobs, d);
            }
        }
    } else {
        let i = n - 1;
        lemma_all_reading(tree, texts, states, queues, taken, i);
        assert(is_one_read(
            tree,
            texts,
            states[i],
            queues[i],
            taken[i],
            states[i + 1],
            queues[i + 1],
        ));
        let id: usize = taken[i].0;
        let (k, children, es, repo, new_jobs) = choose|
            k: int,
            children: Seq<DirChild>,
            es: Seq<Entry>,
            repo: Option<u64>,
            new_jobs: Seq<ScanJob>,
        |
            {
                &&& #[trigger] is_dir_scanned(
                    states[i],
                    queues[i],
                    k,
                    children,
                    id,
                    es,
                    repo,
                    new_jobs,
                    states[i + 1],
                )
                &&& es.len() == taken[i].1
                &&& is_read_from(tree, texts, queues[i][k].path.comps(), children)
                &&& queues[i + 1] == queues[i].remove(k) + new_jobs
            };
        lemma_reading_step(
            tree,
            texts,
            jobs,
            first,
            states[i],
            queues[i],
            k,
            children,
            id,
            es,
            repo,
            new_jobs,
            states[n],
        );
    }
}

/// Whether jobs are for directories that are there, that lie apart, and that nothing is known of
/// yet.
pub open spec fn are_jobs_ready(paths: ByPath, jobs: Seq<ScanJob>) -> bool {
    &&& are_jobs_apart(jobs)
    &&& forall|j: int|
        #![trigger jobs[j]]
        0 <= j < jobs.len() ==> is_waiting(paths, jobs[j]) && leads_down(jobs[j].path)
}

/// Whether two snapshots show the same: they are of one worktree and in one scan, have entries with
/// the same inodes, kinds and statuses for the same paths, written alike, and know the same ignore
/// files.
pub open spec fn shows_same(a: LocalSnapshot, b: LocalSnapshot) -> bool {
    &&& a.root_text() == b.root_text()
    &&& a.scan() == b.scan()
    &&& a.ignores() == b.ignores()
    &&& forall|p: Seq<Seq<char>>|
        #![trigger a.paths_map().contains_key(p)]
        #![trigger b.paths_map().contains_key(p)]
        {
            &&& a.paths_map().contains_key(p) <==> b.paths_map().contains_key(p)
            &&& a.paths_map().contains_key(p) ==> same_row(a.paths_map()[p], b.paths_map()[p])
        }
}

/// Whether jobs are for the same directories and come with the same.
pub open spec fn are_jobs_same(a: Seq<ScanJob>, b: Seq<ScanJob>) -> bool {
    &&& a.len() == b.len()
    &&& forall|j: int|
        #![trigger a[j]]
        #![trigger b[j]]
        0 <= j < a.len() ==> {
            &&& a[j].path.comps() == b[j].path.comps()
            &&& reading_of(a[j]) == reading_of(b[j])
        }
}

/// Jobs that come with the same have directories read with the same.
proof fn lemma_same_reading(
    tree: FsTree,
    texts: FsTexts,
    a: Seq<ScanJob>,
    b: Seq<ScanJob>,
    p: Seq<Seq<char>>,
)
    requires
        are_jobs_apart(a),
        are_jobs_apart(b),
        are_jobs_same(a, b),
    ensures
        reading_at(tree, texts, a, p) == reading_at(tree, texts, b, p),
    decreases p.len(),
{
    if exists|j: int| #![trigger a[j]] 0 <= j < a.len() && a[j].path.comps() == p {
        let j = choose|j: int| #![trigger a[j]] 0 <= j < a.len() && a[j].path.comps() == p;
        lemma_reading_of_job(tree, texts, a, j);
        lemma_reading_of_job(tree, texts, b, j);
    } else {
        assert(!(exists|j: int| #![trigger b[j]] 0 <= j < b.len() && b[j].path.comps() == p)) by {
            if exists|j: int| #![trigger b[j]] 0 <= j < b.len() && b[j].path.comps() == p {
                let j = choose|j: int| #![trigger b[j]] 0 <= j < b.len() && b[j].path.comps() == p;
                assert(a[j].path.comps() == p);
            }
        }
        if p.len() > 0 {
            lemma_same_reading(tree, texts, a, b, p.drop_last());
        }
    }
}

/// It does not matter in which order directories are read, nor in which order their children are
/// listed: where two snapshots show the same, and the same directories are read until none is left,
/// those that come of it show the same.
pub proof fn law_reading_order_is_free(
    tree: FsTree,
    texts: FsTexts,
    states_a: Seq<LocalSnapshot>,
    queues_a: Seq<Seq<ScanJob>>,
    taken_a: Seq<Taken>,
    states_b: Seq<LocalSnapshot>,
    queues_b: Seq<Seq<ScanJob>>,
    taken_b: Seq<Taken>,
)
    requires
        are_texts_of(tree, texts),
        is_all_read(tree, texts, states_a, queues_a, taken_a),
        is_all_read(tree, texts, states_b, queues_b, taken_b),
        shows_same(states_a[0], states_b[0]),
        are_jobs_same(queues_a[0], queues_b[0]),
        are_jobs_ready(states_a[0].paths_map(), queues_a[0]),
        are_jobs_ready(states_b[0].paths_map(), queues_b[0]),
    ensures
        shows_same(states_a.last(), states_b.last()),
{
    let m = states_a.len() - 1;
    let n = states_b.len() - 1;
    let a = states_a[m];
    let b = states_b[n];
    let ja = queues_a[0];
    let jb = queues_b[0];
    let none = Seq::<ScanJob>::empty();
    lemma_all_reading(tree, texts, states_a, queues_a, taken_a, m);
    lemma_all_reading(tree, texts, states_b, queues_b, taken_b, n);
    assert(queues_a[m] == none);
    assert(queues_b[n] == none);
    assert forall|d: Seq<Seq<char>>|
        #![trigger is_done(tree, texts, ja, none, d)]
        #![trigger is_done(tree, texts, jb, none, d)]
        is_done(tree, texts, ja, none, d) == is_done(tree, texts, jb, none, d) && reading_at(
            tree,
            texts,
            ja,
            d,
        ) == reading_at(tree, texts, jb, d) by {
        lemma_same_reading(tree, texts, ja, jb, d);
    }
    assert forall|p: Seq<Seq<char>>|
        #![trigger a.paths_map().contains_key(p)]
        #![trigger b.paths_map().contains_key(p)]
        {
            &&& a.paths_map().contains_key(p) <==> b.paths_map().contains_key(p)
            &&& a.paths_map().contains_key(p) ==> same_row(a.paths_map()[p], b.paths_map()[p])
        } by {
        assert(states_a[0].paths_map().contains_key(p) <==> states_b[0].paths_map().contains_key(p));
        assert(is_done(tree, texts, ja, none, p.drop_last()) == is_done(
            tree,
            texts,
            jb,
            none,
            p.drop_last(),
        ));
        assert(a.paths_map().contains_key(p) <==> states_a[0].paths_map().contains_key(p)
            || is_found(tree, texts, ja, none, p));
        assert(b.paths_map().contains_key(p) <==> states_b[0].paths_map().contains_key(p)
            || is_found(tree, texts, jb, none, p));
    }
    assert(a.ignores() =~= b.ignores()) by {
        assert forall|key: Seq<Seq<char>>|
            #![trigger a.ignores().contains_key(key)]
            #![trigger b.ignores().contains_key(key)]
            {
                &&& a.ignores().contains_key(key) <==> b.ignores().contains_key(key)
                &&& a.ignores().contains_key(key) ==> a.ignores()[key] == b.ignores()[key]
            } by {
            let d = key.skip(components(a.root_text()).len() as int);
            assert(is_done(tree, texts, ja, none, d) == is_done(tree, texts, jb, none, d));
            assert(a.ignores().contains_key(key) <==> ignore_found(
                tree,
                texts,
                ja,
                none,
                states_a[0],
                key,
            ) is Some);
            assert(b.ignores().contains_key(key) <==> ignore_found(
                tree,
                texts,
                jb,
                none,
                states_b[0],
                key,
            ) is Some);
        }
    }
}

} // verus!
