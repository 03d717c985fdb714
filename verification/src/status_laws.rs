//! What a first scan finds out about ignored paths: whether an entry is ignored is what all the
//! ignore files say that were found.
use crate::entry::Entry;
use crate::gitignore::Verdicts;
use crate::ignore_laws::{
    is_at, is_plain, is_relative, is_right, lemma_place, lemma_place_child, lemma_plain_child, lemma_rules_child,
    lemma_rules_trimmed, place,
};
use crate::ignore_stack::{
    gitignore_name, is_ignored_by, lemma_git_names, with_layer, IgnoreRules, Layer,
};
use crate::local_snapshot::{
    is_dir_populated, is_populated, path_ignored, rules_above, rules_for, same_but_id,
    with_ignore, IgnoreRule, Ignores, LocalSnapshot,
};
use crate::path::{
    components, is_file_name, join_text, nested_in, render, root_length, Path,
};
use crate::path_lemmas::{lemma_child_comps, lemma_nested_transitive};
use crate::path_text::lemma_first_written;
use crate::scan_laws::{
    agrees, is_pending, lemma_child_paths, lemma_filter_apart, lies_in, lists, FsTree,
};
use crate::scanner::{
    are_child_entries, are_child_jobs, dir_rules, dir_verdicts, found, ignores_above,
    is_child_entry, is_child_job, is_root_job, is_root_marked, is_to_read, DirChild, ScanJob,
};
use crate::snapshot::{entries_by_path, ByPath};
use crate::traversal::lemma_components_empty;
use crate::update::lemma_entries_by_path;
use std::sync::Arc;
use vstd::prelude::*;

verus! {

/// Whether a path is relative and plainly written: names that can stand in directories, with one
/// slash between two of them.
pub open spec fn is_relative_path(path: Arc<Path>) -> bool {
    &&& is_plain(path.comps())
    &&& path@ == render(path.comps())
}

/// Whether the path of an entry is plainly written is settled by the path.
pub proof fn lemma_relative_entry(e: Entry)
    ensures
        is_relative(e) == is_relative_path(e.path),
{
    reveal(is_relative);
}

/// Whether a directory that is to be read comes with the ignore files that apply to it, and no
/// ignore file in it is known yet.
pub open spec fn is_rightly_stacked(ignores: Ignores, root: Seq<char>, job: ScanJob) -> bool {
    let abs = place(root, job.path.comps());
    &&& is_relative_path(job.path)
    &&& is_at(root, job.path.comps(), job.abs_path@)
    &&& job.ignore_stack@ == if path_ignored(ignores, abs, true) {
        IgnoreRules::All
    } else {
        rules_for(ignores, abs)
    }
    &&& forall|dir: Seq<Seq<char>>| #[trigger] ignores.contains_key(dir) ==> !nested_in(
        dir,
        components(root) + job.path.comps(),
    )
}

/// Whether every entry has names that can stand in directories, and the status that the ignore files
/// give it.
pub open spec fn are_right(paths: ByPath, ignores: Ignores, root: Seq<char>) -> bool {
    forall|p: Seq<Seq<char>>| #[trigger]
        paths.contains_key(p) ==> is_right(paths, ignores, root, p)
}

/// An ignore file changes nothing for what does not lie in its directory.
proof fn lemma_rules_elsewhere(
    ignores: Ignores,
    dir: Seq<Seq<char>>,
    rule: IgnoreRule,
    path: Seq<char>,
    n: int,
)
    requires
        0 <= n <= components(path).len(),
        !lies_in(components(path), dir),
    ensures
        rules_above(ignores.insert(dir, rule), path, n) == rules_above(ignores, path, n),
    decreases n,
{
    let c = components(path);
    if n > root_length(c) {
        lemma_rules_elsewhere(ignores, dir, rule, path, n - 1);
        lemma_first_written(path, n - 1);
        if c.take(n - 1) == dir {
            assert(c.subrange(0, n - 1) =~= c.take(n - 1));
            assert(dir.len() < c.len());
        }
    }
}

/// What applies in a directory that was read: its ignore file, where it has one that can be used,
/// comes on top of what applies to it.
pub proof fn lemma_dir_rules(before: IgnoreRules, dir: Seq<char>, children: Seq<DirChild>)
    requires
        forall|i: int, j: int|
            #![trigger children[i], children[j]]
            0 <= i < j < children.len() ==> children[i].name@ != children[j].name@,
    ensures
        dir_rules(before, dir, children) == match dir_verdicts(dir, children) {
            Some(verdicts) => with_layer(before, Layer { base: components(dir), verdicts }),
            None => before,
        },
        dir_verdicts(dir, children) is Some ==> exists|i: int|
            #![trigger children[i]]
            0 <= i < children.len() && children[i].name@ == gitignore_name(),
    decreases children.len(),
{
    if children.len() > 0 {
        let t = children.drop_last();
        assert forall|i: int, j: int|
            #![trigger t[i], t[j]]
            0 <= i < j < t.len() implies t[i].name@ != t[j].name@ by {
            assert(t[i] == children[i] && t[j] == children[j]);
        }
        lemma_dir_rules(before, dir, t);
        let last = children.len() - 1;
        assert(children[last] == children.last());
        if dir_verdicts(dir, t) is Some {
            let i = choose|i: int|
                #![trigger t[i]]
                0 <= i < t.len() && t[i].name@ == gitignore_name();
            assert(children[i] == t[i]);
            assert(children[i].name@ != children[last].name@);
        }
    }
}

/// What lies at a relative path in the worktree.
pub proof fn lemma_abs_of_relative(root: Seq<char>, path: Arc<Path>)
    requires
        is_relative_path(path),
    ensures
        join_text(root, path@) == place(root, path.comps()),
        components(place(root, path.comps())) == components(root) + path.comps(),
{
    lemma_place(root, path.comps());
}

/// The path of a child of a directory is relative.
pub proof fn lemma_child_relative(dir: Arc<Path>, name: Seq<char>, child: Arc<Path>)
    requires
        is_relative_path(dir),
        is_file_name(name),
        child@ == join_text(dir@, name),
    ensures
        is_relative_path(child),
        child.comps() == dir.comps().push(name),
{
    lemma_child_comps(dir@, name);
    lemma_plain_child(dir.comps(), name);
}

/// Whether ignore files are others, and the one of a directory where it has one.
spec fn are_ignores_with(
    before: Ignores,
    dir: Seq<char>,
    verdicts: Option<Verdicts>,
    scan_id: usize,
    after: Ignores,
) -> bool {
    after == match verdicts {
        Some(verdicts) => with_ignore(before, dir, verdicts, scan_id),
        None => before,
    }
}

/// What the ignore file of a directory leaves as it was.
proof fn lemma_right_elsewhere(
    before: Ignores,
    dir: Seq<char>,
    verdicts: Option<Verdicts>,
    scan_id: usize,
    after: Ignores,
    path: Seq<char>,
)
    requires
        are_ignores_with(before, dir, verdicts, scan_id, after),
        !lies_in(components(path), components(dir)),
    ensures
        rules_for(after, path) == rules_for(before, path),
{
    if verdicts is Some {
        let key = components(dir);
        lemma_rules_elsewhere(before, key, after[key], path, components(path).len() as int);
    }
}

/// What applies to the children of a directory once it was read.
proof fn lemma_right_below(
    before: Ignores,
    root: Seq<char>,
    job: ScanJob,
    children: Seq<DirChild>,
    scan_id: usize,
    after: Ignores,
    name: Seq<char>,
)
    requires
        components(root).len() > 0,
        is_file_name(name),
        is_rightly_stacked(before, root, job),
        forall|i: int, j: int|
            #![trigger children[i], children[j]]
            0 <= i < j < children.len() ==> children[i].name@ != children[j].name@,
        are_ignores_with(
            before,
            place(root, job.path.comps()),
            dir_verdicts(job.abs_path@, children),
            scan_id,
            after,
        ),
    ensures
        is_plain(job.path.comps().push(name)),
        place(root, job.path.comps().push(name)) == join_text(job.abs_path@, name),
        rules_for(after, place(root, job.path.comps().push(name))) == dir_rules(
            job.ignore_stack@,
            job.abs_path@,
            children,
        ),
{
    let p = job.path.comps();
    let t = job.abs_path@;
    let abs = place(root, p);
    let key = components(root) + p;
    let verdicts = dir_verdicts(t, children);
    lemma_plain_child(p, name);
    lemma_place(root, p);
    lemma_place_child(root, p, t, name);
    lemma_place_child(root, p, abs, name);
    lemma_dir_rules(job.ignore_stack@, t, children);
    lemma_rules_child(after, abs, name);
    lemma_right_elsewhere(before, abs, verdicts, scan_id, after, abs);
    assert(nested_in(key, key)) by {
        assert(key =~= key.subrange(0, key.len() as int));
    }
    assert(!before.contains_key(key));
}

/// Reading a directory keeps the statuses of entries right, and those of its children are right
/// too: whether an entry is ignored is what the ignore files say that are known from the root of
/// the file system down to the entry. The directories that are to be read next come with the
/// ignore files that apply to them.
#[verifier::rlimit(40)]
pub proof fn law_scan_finds_statuses(
    tree: FsTree,
    before: LocalSnapshot,
    jobs: Seq<ScanJob>,
    k: int,
    children: Seq<DirChild>,
    chars: Seq<char>,
    id: usize,
    es: Seq<Entry>,
    repo: Option<u64>,
    new_jobs: Seq<ScanJob>,
    after: LocalSnapshot,
)
    requires
        before.snap().root_path().comps().len() > 0,
        agrees(before.paths_map(), tree, jobs),
        are_right(before.paths_map(), before.ignores(), before.root_text()),
        forall|j: int|
            #![trigger jobs[j]]
            0 <= j < jobs.len() ==> is_rightly_stacked(
                before.ignores(),
                before.root_text(),
                jobs[j],
            ),
        0 <= k < jobs.len(),
        lists(tree, jobs[k].path.comps(), children),
        ({
            let dir = jobs[k].abs_path@;
            let rules = dir_rules(jobs[k].ignore_stack@, dir, children);
            &&& are_child_entries(es, jobs[k], rules, found(children), chars, id)
            &&& is_dir_populated(
                before,
                jobs[k].path,
                es,
                dir_verdicts(dir, children),
                repo,
                after,
            )
            &&& are_child_jobs(
                new_jobs,
                jobs[k],
                rules,
                children.filter(|c: DirChild| is_to_read(c, jobs[k].ancestor_inodes@)),
            )
        }),
    ensures
        are_right(after.paths_map(), after.ignores(), before.root_text()),
        forall|j: int|
            #![trigger (jobs.remove(k) + new_jobs)[j]]
            0 <= j < (jobs.remove(k) + new_jobs).len() ==> is_rightly_stacked(
                after.ignores(),
                before.root_text(),
                (jobs.remove(k) + new_jobs)[j],
            ),
{
    let root = before.root_text();
    let top = components(root);
    let paths = before.paths_map();
    let np = after.paths_map();
    let job = jobs[k];
    let dir = job.path.comps();
    let t = job.abs_path@;
    let abs = place(root, dir);
    let rules = dir_rules(job.ignore_stack@, t, children);
    let verdicts = dir_verdicts(t, children);
    assert(is_pending(paths, tree, job));
    assert(is_rightly_stacked(before.ignores(), root, job));
    lemma_abs_of_relative(before.root_text(), job.path);
    assert(are_ignores_with(before.ignores(), abs, verdicts, before.scan(), after.ignores()));
    let rs = choose|rs: Seq<Entry>| #[trigger] is_populated(before, dir, es, rs, after);
    assert forall|i: int| #![trigger rs[i]] 0 <= i < rs.len() implies same_but_id(rs[i], es[i]) by {
    }
    assert forall|p: Seq<Seq<char>>| #[trigger] np.contains_key(p) implies is_right(
        np,
        after.ignores(),
        root,
        p,
    ) by {
        crate::entry_laws::lemma_populated_path(before, dir, es, rs, p);
        lemma_child_paths(tree, job, rules, children, chars, id, es, rs, p);
        lemma_entries_by_path(rs, p);
        if entries_by_path(rs).contains_key(p) {
            let i = choose|i: int|
                #![trigger rs[i]]
                0 <= i < rs.len() && rs[i].comps() == p && np[p] == rs[i];
            lemma_child_status(tree, job, rules, children, chars, id, es, i);
            assert(p =~= dir.push(p.last()));
            lemma_right_below(
                before.ignores(),
                root,
                job,
                children,
                before.scan(),
                after.ignores(),
                p.last(),
            );
        } else {
            assert(paths.contains_key(p));
            assert(is_right(paths, before.ignores(), root, p));
            lemma_apart_from_root(top, p, dir);
            lemma_place(root, p);
            lemma_right_elsewhere(
                before.ignores(),
                abs,
                verdicts,
                before.scan(),
                after.ignores(),
                place(root, p),
            );
            assert(np[p].is_ignored == paths[p].is_ignored);
            assert(np[p].is_file_entry() == paths[p].is_file_entry());
        }
    }
    let left = jobs.remove(k);
    let all = left + new_jobs;
    assert forall|j: int| #![trigger all[j]] 0 <= j < all.len() implies is_rightly_stacked(
        after.ignores(),
        root,
        all[j],
    ) by {
        if j < left.len() {
            let o = if j < k {
                j
            } else {
                j + 1
            };
            assert(all[j] == jobs[o]);
            assert(is_pending(paths, tree, jobs[o]));
            assert(jobs[o].path.comps() != dir) by {
                if o < k {
                    assert(jobs[o].path.comps() != jobs[k].path.comps());
                } else {
                    assert(jobs[k].path.comps() != jobs[o].path.comps());
                }
            }
            lemma_left_stacked(
                before.ignores(),
                root,
                job,
                verdicts,
                before.scan(),
                after.ignores(),
                jobs[o],
            );
        } else {
            let i = j - left.len();
            assert(all[j] == new_jobs[i]);
            lemma_new_stacked(
                tree,
                before.ignores(),
                root,
                job,
                children,
                before.scan(),
                after.ignores(),
                new_jobs,
                i,
            );
        }
    }
}

/// What does not lie in a directory does not do so when seen from above the root.
pub proof fn lemma_apart_from_root(root: Seq<Seq<char>>, p: Seq<Seq<char>>, dir: Seq<Seq<char>>)
    ensures
        lies_in(root + p, root + dir) <==> lies_in(p, dir),
        nested_in(root + p, root + dir) <==> nested_in(p, dir),
{
    let n = root.len() as int;
    if nested_in(root + p, root + dir) {
        assert(dir =~= p.subrange(0, dir.len() as int)) by {
            assert forall|i: int| 0 <= i < dir.len() implies dir[i] == p[i] by {
                assert((root + dir)[n + i] == (root + p).subrange(0, n + dir.len())[n + i]);
            }
        }
    }
    if nested_in(p, dir) {
        assert(root + dir =~= (root + p).subrange(0, n + dir.len())) by {
            assert forall|i: int| 0 <= i < n + dir.len() implies (root + dir)[i] == (root
                + p).subrange(0, n + dir.len())[i] by {
                if i >= n {
                    assert(p.subrange(0, dir.len() as int)[i - n] == dir[i - n]);
                }
            }
        }
    }
    if root + p == root + dir {
        assert(p =~= dir) by {
            assert(p.len() == dir.len());
            assert forall|i: int| 0 <= i < p.len() implies p[i] == dir[i] by {
                assert((root + p)[n + i] == (root + dir)[n + i]);
            }
        }
    }
}

/// The status of a child of a directory.
pub proof fn lemma_child_status(
    tree: FsTree,
    job: ScanJob,
    rules: IgnoreRules,
    children: Seq<DirChild>,
    chars: Seq<char>,
    id: usize,
    es: Seq<Entry>,
    i: int,
)
    requires
        lists(tree, job.path.comps(), children),
        are_child_entries(es, job, rules, found(children), chars, id),
        0 <= i < es.len(),
    ensures
        es[i].comps().len() == job.path.comps().len() + 1,
        is_file_name(es[i].comps().last()),
        es[i].path@ == join_text(job.path@, es[i].comps().last()),
        es[i].is_ignored == is_ignored_by(
            rules,
            join_text(job.abs_path@, es[i].comps().last()),
            !es[i].is_file_entry(),
        ),
{
    let seen = |c: DirChild| c.metadata is Some;
    let cs = found(children);
    lemma_filter_apart(children, seen);
    assert(is_child_entry(es[i], job, rules, cs[i], chars));
    assert(seen(cs[i]));
    let x = choose|x: int| 0 <= x < children.len() && children[x] == cs[i];
    assert(is_file_name(children[x].name@));
    lemma_child_comps(job.path@, cs[i].name@);
    assert(es[i].comps() == job.path.comps().push(cs[i].name@));
}

/// The job of another directory stays right.
proof fn lemma_left_stacked(
    before: Ignores,
    root: Seq<char>,
    job: ScanJob,
    verdicts: Option<Verdicts>,
    scan_id: usize,
    after: Ignores,
    other: ScanJob,
)
    requires
        is_rightly_stacked(before, root, job),
        is_rightly_stacked(before, root, other),
        are_ignores_with(before, place(root, job.path.comps()), verdicts, scan_id, after),
        other.path.comps() != job.path.comps(),
        !lies_in(other.path.comps(), job.path.comps()),
        !lies_in(job.path.comps(), other.path.comps()),
    ensures
        is_rightly_stacked(after, root, other),
{
    let p = other.path.comps();
    let dir = job.path.comps();
    let top = components(root);
    lemma_place(root, p);
    lemma_place(root, dir);
    lemma_apart_from_root(top, p, dir);
    lemma_apart_from_root(top, dir, p);
    lemma_right_elsewhere(before, place(root, dir), verdicts, scan_id, after, place(root, p));
}

/// The job of a child of a directory that was read is right.
proof fn lemma_new_stacked(
    tree: FsTree,
    before: Ignores,
    root: Seq<char>,
    job: ScanJob,
    children: Seq<DirChild>,
    scan_id: usize,
    after: Ignores,
    new_jobs: Seq<ScanJob>,
    i: int,
)
    requires
        components(root).len() > 0,
        lists(tree, job.path.comps(), children),
        is_rightly_stacked(before, root, job),
        are_ignores_with(
            before,
            place(root, job.path.comps()),
            dir_verdicts(job.abs_path@, children),
            scan_id,
            after,
        ),
        are_child_jobs(
            new_jobs,
            job,
            dir_rules(job.ignore_stack@, job.abs_path@, children),
            children.filter(|c: DirChild| is_to_read(c, job.ancestor_inodes@)),
        ),
        0 <= i < new_jobs.len(),
    ensures
        is_rightly_stacked(after, root, new_jobs[i]),
{
    let ancestors = job.ancestor_inodes@;
    let reads = |c: DirChild| is_to_read(c, ancestors);
    let cs = children.filter(reads);
    let rules = dir_rules(job.ignore_stack@, job.abs_path@, children);
    let new_job = new_jobs[i];
    lemma_filter_apart(children, reads);
    assert(is_child_job(new_job, job, rules, cs[i]));
    let x = choose|x: int| 0 <= x < children.len() && children[x] == cs[i];
    assert(is_file_name(children[x].name@));
    let name = cs[i].name@;
    lemma_child_relative(job.path, name, new_job.path);
    lemma_right_below(before, root, job, children, scan_id, after, name);
    lemma_place(root, job.path.comps());
    let abs = components(root) + job.path.comps();
    let child = components(root) + new_job.path.comps();
    assert(child =~= abs.push(name));
    assert forall|d: Seq<Seq<char>>| #[trigger] after.contains_key(d) implies !nested_in(d, child) by {
        if nested_in(d, child) {
            assert(nested_in(child, abs)) by {
                assert(abs =~= child.subrange(0, abs.len() as int));
            }
            lemma_nested_transitive(d, child, abs);
            if before.contains_key(d) {
                assert(!nested_in(d, abs));
            } else {
                assert(d == abs);
            }
        }
    }
}

/// A first scan begins with the right status of the root, where the root is a directory: it is
/// ignored where the ignore files above it say so.
pub proof fn law_scan_begins_right(
    before: LocalSnapshot,
    above: Seq<Option<String>>,
    inode: u64,
    job: ScanJob,
    after: LocalSnapshot,
)
    requires
        before.paths_map() == ByPath::empty().insert(
            Seq::empty(),
            before.paths_map()[Seq::empty()],
        ),
        !before.paths_map()[Seq::empty()].is_file_entry(),
        !before.paths_map()[Seq::empty()].is_ignored,
        before.ignores() == Ignores::empty(),
        after.snap().root_path() == before.snap().root_path(),
        above.len() <= before.snap().root_path().comps().len(),
        after.ignores() == ignores_above(
            before.ignores(),
            before.root_text(),
            above,
            above.len() as int,
        ),
        is_root_marked(before, after),
        is_root_job(job, after, inode),
    ensures
        are_right(after.paths_map(), after.ignores(), after.root_text()),
        is_rightly_stacked(after.ignores(), after.root_text(), job),
{
    let top = Seq::<Seq<char>>::empty();
    let root = after.root_text();
    let c = components(root);
    let np = after.paths_map();
    lemma_components_empty();
    assert(c + top =~= c);
    lemma_git_names();
    lemma_place_child(root, top, root, gitignore_name());
    lemma_rules_trimmed(after.ignores(), root, place(root, top), true);
    assert(job.path.comps() =~= top);
    assert(before.paths_map().contains_key(top));
    assert(np.dom() =~= before.paths_map().dom());
    assert forall|p: Seq<Seq<char>>| #[trigger] np.contains_key(p) implies is_right(
        np,
        after.ignores(),
        root,
        p,
    ) by {
        assert(before.paths_map().contains_key(p));
        assert(p == top);
    }
    assert forall|dir: Seq<Seq<char>>| #[trigger]
        after.ignores().contains_key(dir) implies !nested_in(dir, c + top) by {
        lemma_above_root(before.ignores(), root, above, above.len() as int, dir);
    }
}

/// The ignore files that are read before the first scan lie above the root.
proof fn lemma_above_root(
    ignores: Ignores,
    root: Seq<char>,
    above: Seq<Option<String>>,
    n: int,
    dir: Seq<Seq<char>>,
)
    requires
        0 <= n <= components(root).len(),
        !ignores.contains_key(dir),
        ignores_above(ignores, root, above, n).contains_key(dir),
    ensures
        dir.len() < components(root).len(),
    decreases n,
{
    if n > 0 {
        if ignores_above(ignores, root, above, n - 1).contains_key(dir) {
            lemma_above_root(ignores, root, above, n - 1, dir);
        } else {
            lemma_first_written(root, components(root).len() - n);
        }
    }
}

} // verus!
