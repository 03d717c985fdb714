//! The scan of a worktree: how the directories of the file system, and what the file system says
//! of changed paths, become entries of a snapshot.
//!
//! Nothing here touches the file system. A caller lists a directory or asks for the metadata of a
//! path, and hands over what it found.
use crate::char_bag::CharBag;
use crate::entry::{is_entry_for, Entry, Metadata};
use crate::gitignore::{build_gitignore, file_verdicts, gitignore_verdicts, Verdicts};
use crate::ids::nth_number;
use crate::ignore_stack::{
    gitignore_name, is_ignored_by, lemma_git_names, with_layer, IgnoreRules, IgnoreStack, Layer,
};
use crate::inodes::InodeSet;
use crate::local_snapshot::{
    is_dir_populated, is_put_in, path_ignored, rules_for, with_ignore, Ignores, LocalSnapshot,
};
use crate::path::{are_ancestors, components, is_file_name, join_text, root_length, Path};
use crate::path_text::text_of_first;
use crate::path_lemmas::lemma_child_comps;
use crate::snapshot::kept_of;
use crate::sum_tree::lemma_filter_step;
use crate::text::same_text;
use ignore::gitignore::Gitignore;
use std::sync::Arc;
use vstd::prelude::*;

verus! {

/// A directory that has to be read.
pub struct ScanJob {
    pub abs_path: Arc<Path>,
    pub path: Arc<Path>,
    /// The ignore files that apply in the directory, but for its own.
    pub ignore_stack: IgnoreStack,
    /// The inodes of the directory and of those above it.
    pub ancestor_inodes: InodeSet,
}

/// What was found under a name in a directory.
pub struct DirChild {
    pub name: String,
    /// What the file system says of it: nothing where it is gone or cannot be looked at.
    pub metadata: Option<Metadata>,
    /// The text of an ignore file that can be read.
    pub contents: Option<String>,
}

/// What reading a directory gives.
pub struct DirScan {
    pub entries: Vec<Entry>,
    pub jobs: Vec<ScanJob>,
    pub ignore: Option<Arc<Gitignore>>,
}

/// The children of a directory that the file system says something of.
pub open spec fn found(children: Seq<DirChild>) -> Seq<DirChild> {
    children.filter(|c: DirChild| c.metadata is Some)
}

/// What a child of a directory says of paths, where it is an ignore file that can be used.
pub open spec fn child_verdicts(dir: Seq<char>, c: DirChild) -> Option<Verdicts> {
    if c.metadata is Some && c.name@ == gitignore_name() && c.contents is Some {
        file_verdicts(join_text(dir, c.name@), c.contents->0@)
    } else {
        None
    }
}

/// What applies in a directory with the given children.
pub open spec fn dir_rules(
    before: IgnoreRules,
    dir: Seq<char>,
    children: Seq<DirChild>,
) -> IgnoreRules
    decreases children.len(),
{
    if children.len() == 0 {
        before
    } else {
        let rules = dir_rules(before, dir, children.drop_last());
        match child_verdicts(dir, children.last()) {
            Some(verdicts) => with_layer(rules, Layer { base: components(dir), verdicts }),
            None => rules,
        }
    }
}

/// What the ignore file of a directory with the given children says, the last one where there
/// are several.
pub open spec fn dir_verdicts(dir: Seq<char>, children: Seq<DirChild>) -> Option<Verdicts>
    decreases children.len(),
{
    if children.len() == 0 {
        None
    } else {
        match child_verdicts(dir, children.last()) {
            Some(verdicts) => Some(verdicts),
            None => dir_verdicts(dir, children.drop_last()),
        }
    }
}

/// Whether every child has a name that can stand in a directory.
pub open spec fn well_listed(children: Seq<DirChild>) -> bool {
    forall|i: int| #![trigger children[i]] 0 <= i < children.len() ==> is_file_name(children[i].name@)
}

/// Whether an entry is that of a child of a directory.
pub open spec fn is_child_entry(
    e: Entry,
    job: ScanJob,
    rules: IgnoreRules,
    c: DirChild,
    root: Seq<char>,
) -> bool {
    &&& is_entry_for(e, join_text(job.path@, c.name@), c.metadata->0, root)
    &&& e.is_ignored == is_ignored_by(
        rules,
        join_text(job.abs_path@, c.name@),
        c.metadata->0.is_dir,
    )
}

/// Whether a child of a directory is to be read in turn: it is a directory, and none of those
/// above it.
pub open spec fn is_to_read(c: DirChild, ancestors: Set<u64>) -> bool {
    c.metadata is Some && c.metadata->0.is_dir && !ancestors.contains(c.metadata->0.inode)
}

/// Whether a job is that for a child of a directory.
pub open spec fn is_child_job(j: ScanJob, job: ScanJob, rules: IgnoreRules, c: DirChild) -> bool {
    &&& j.abs_path@ == join_text(job.abs_path@, c.name@)
    &&& j.abs_path.comps() == job.abs_path.comps().push(c.name@)
    &&& j.path@ == join_text(job.path@, c.name@)
    &&& j.ignore_stack@ == if is_ignored_by(rules, j.abs_path@, true) {
        IgnoreRules::All
    } else {
        rules
    }
    &&& j.ancestor_inodes@ == job.ancestor_inodes@.insert(c.metadata->0.inode)
    &&& !job.ancestor_inodes@.contains(c.metadata->0.inode)
}

/// Whether entries are those of the children of a directory, with identifiers from a counter.
pub open spec fn are_child_entries(
    es: Seq<Entry>,
    job: ScanJob,
    rules: IgnoreRules,
    cs: Seq<DirChild>,
    root: Seq<char>,
    first_id: usize,
) -> bool {
    &&& es.len() == cs.len()
    &&& forall|i: int|
        #![trigger es[i]]
        0 <= i < es.len() ==> is_child_entry(es[i], job, rules, cs[i], root) && es[i].id@
            == nth_number(first_id, i as nat)
}

/// Whether jobs are those for the children of a directory.
pub open spec fn are_child_jobs(
    js: Seq<ScanJob>,
    job: ScanJob,
    rules: IgnoreRules,
    cs: Seq<DirChild>,
) -> bool {
    &&& js.len() == cs.len()
    &&& forall|i: int|
        #![trigger js[i]]
        0 <= i < js.len() ==> is_child_job(js[i], job, rules, cs[i])
}

/// The ignore files that apply in a directory with the given children, and its own.
fn read_ignores(job: &ScanJob, children: &Vec<DirChild>) -> (r: (
    IgnoreStack,
    Option<Arc<Gitignore>>,
))
    requires
        well_listed(children@),
    ensures
        r.0@ == dir_rules(job.ignore_stack@, job.abs_path@, children@),
        match r.1 {
            Some(g) => dir_verdicts(job.abs_path@, children@) == Some(
                gitignore_verdicts(*g),
            ),
            None => dir_verdicts(job.abs_path@, children@) is None,
        },
{
    let ghost dir = job.abs_path@;
    let ghost cs = children@;
    let mut ignore_stack = job.ignore_stack.clone();
    let mut new_ignore: Option<Arc<Gitignore>> = None;
    let mut i: usize = 0;
    assert(cs.take(0) =~= Seq::empty());
    while i < children.len()
        invariant
            i <= children.len(),
            cs == children@,
            dir == job.abs_path@,
            well_listed(cs),
            ignore_stack@ == dir_rules(job.ignore_stack@, dir, cs.take(i as int)),
            match new_ignore {
                Some(g) => dir_verdicts(dir, cs.take(i as int)) == Some(gitignore_verdicts(*g)),
                None => dir_verdicts(dir, cs.take(i as int)) is None,
            },
        decreases children.len() - i,
    {
        let child = &children[i];
        proof {
            assert(cs.take(i + 1).drop_last() =~= cs.take(i as int));
            assert(cs.take(i + 1).last() == cs[i as int]);
            reveal_strlit(".gitignore");
            assert(".gitignore"@ =~= gitignore_name());
            lemma_child_comps(job.abs_path@, child.name@);
        }
        if child.metadata.is_some() && same_text(child.name.as_str(), ".gitignore") {
            match &child.contents {
                Some(contents) => {
                    let name = Path::new(child.name.as_str());
                    let abs_path = job.abs_path.join(&name);
                    match build_gitignore(&abs_path, contents.as_str()) {
                        Ok(ignore) => {
                            let ignore = Arc::new(ignore);
                            ignore_stack = ignore_stack.append(
                                job.abs_path.clone(),
                                ignore.clone(),
                            );
                            new_ignore = Some(ignore);
                        },
                        Err(_) => {},
                    }
                },
                None => {},
            }
        }
        i = i + 1;
    }
    assert(cs.take(cs.len() as int) =~= cs);
    (ignore_stack, new_ignore)
}

/// Turns the children of a directory into entries, and into jobs for the directories among them
/// that are not above it. The ignore file of the directory counts for all of its children,
/// wherever it stands among them.
pub fn scan_dir(
    root_char_bag: &CharBag,
    next_entry_id: &mut usize,
    job: &ScanJob,
    children: Vec<DirChild>,
) -> (r: DirScan)
    requires
        well_listed(children@),
    ensures
        ({
            let rules = dir_rules(job.ignore_stack@, job.abs_path@, children@);
            let ancestors = job.ancestor_inodes@;
            &&& are_child_entries(
                r.entries@,
                *job,
                rules,
                found(children@),
                root_char_bag@,
                *old(next_entry_id),
            )
            &&& are_child_jobs(
                r.jobs@,
                *job,
                rules,
                children@.filter(|c: DirChild| is_to_read(c, ancestors)),
            )
        }),
        match r.ignore {
            Some(g) => dir_verdicts(job.abs_path@, children@) == Some(
                gitignore_verdicts(*g),
            ),
            None => dir_verdicts(job.abs_path@, children@) is None,
        },
        *final(next_entry_id) == nth_number(*old(next_entry_id), found(children@).len()),
{
    let (ignore_stack, ignore) = read_ignores(job, &children);
    let ghost rules = ignore_stack@;
    let ghost cs = children@;
    let ghost ancestors = job.ancestor_inodes@;
    let ghost seen = |c: DirChild| c.metadata is Some;
    let ghost reads = |c: DirChild| is_to_read(c, ancestors);
    let ghost first_id = *next_entry_id;
    let ghost root = root_char_bag@;
    let mut entries: Vec<Entry> = Vec::new();
    let mut jobs: Vec<ScanJob> = Vec::new();
    let mut i: usize = 0;
    proof {
        reveal(Seq::filter);
        assert(cs.take(0) =~= Seq::empty());
    }
    while i < children.len()
        invariant
            i <= children.len(),
            cs == children@,
            well_listed(cs),
            rules == ignore_stack@,
            root == root_char_bag@,
            ancestors == job.ancestor_inodes@,
            seen == (|c: DirChild| c.metadata is Some),
            reads == (|c: DirChild| is_to_read(c, ancestors)),
            are_child_entries(
                entries@,
                *job,
                rules,
                cs.take(i as int).filter(seen),
                root,
                first_id,
            ),
            are_child_jobs(jobs@, *job, rules, cs.take(i as int).filter(reads)),
            *next_entry_id == nth_number(first_id, entries@.len()),
        decreases children.len() - i,
    {
        let child = &children[i];
        proof {
            lemma_filter_step(cs, i as int, seen);
            lemma_filter_step(cs, i as int, reads);
            lemma_child_comps(job.abs_path@, child.name@);
        }
        let ghost es = entries@;
        let ghost js = jobs@;
        let ghost seen_before = cs.take(i as int).filter(seen);
        let ghost reads_before = cs.take(i as int).filter(reads);
        match child.metadata {
            Some(metadata) => {
                let name = Path::new(child.name.as_str());
                let child_abs_path = Arc::new(job.abs_path.join(&name));
                let child_path = Arc::new(job.path.join(&name));
                let mut entry = Entry::new(
                    child_path.clone(),
                    &metadata,
                    next_entry_id,
                    root_char_bag,
                );
                let is_dir: bool = entry.is_dir();
                entry.is_ignored = ignore_stack.is_abs_path_ignored(&child_abs_path, is_dir);
                if is_dir && !job.ancestor_inodes.contains(&entry.inode) {
                    let mut ancestor_inodes = job.ancestor_inodes.clone();
                    ancestor_inodes.insert(entry.inode);
                    let child_stack = if entry.is_ignored {
                        IgnoreStack::all()
                    } else {
                        ignore_stack.clone()
                    };
                    jobs.push(
                        ScanJob {
                            abs_path: child_abs_path,
                            path: child_path,
                            ignore_stack: child_stack,
                            ancestor_inodes,
                        },
                    );
                }
                entries.push(entry);
            },
            None => {},
        }
        proof {
            let seen_after = cs.take(i + 1).filter(seen);
            let reads_after = cs.take(i + 1).filter(reads);
            assert forall|k: int| #![trigger entries@[k]] 0 <= k < entries@.len() implies is_child_entry(
                entries@[k],
                *job,
                rules,
                seen_after[k],
                root,
            ) && entries@[k].id@ == nth_number(first_id, k as nat) by {
                if k < es.len() {
                    assert(entries@[k] == es[k]);
                    assert(seen_after[k] == seen_before[k]);
                }
            }
            assert forall|k: int| #![trigger jobs@[k]] 0 <= k < jobs@.len() implies is_child_job(
                jobs@[k],
                *job,
                rules,
                reads_after[k],
            ) by {
                if k < js.len() {
                    assert(jobs@[k] == js[k]);
                    assert(reads_after[k] == reads_before[k]);
                }
            }
        }
        i = i + 1;
    }
    assert(cs.take(cs.len() as int) =~= cs);
    DirScan { entries, jobs, ignore }
}

/// The ignore files of a worktree once those of the `n` nearest directories above its root are
/// read. `above` holds their texts, that of the nearest directory first; nothing where there is
/// none.
pub open spec fn ignores_above(
    ignores: Ignores,
    root: Seq<char>,
    above: Seq<Option<String>>,
    n: int,
) -> Ignores
    decreases n,
{
    if n <= 0 {
        ignores
    } else {
        let before = ignores_above(ignores, root, above, n - 1);
        let dir = text_of_first(root, components(root).len() - n);
        match above[n - 1] {
            Some(contents) => match file_verdicts(join_text(dir, gitignore_name()), contents@) {
                Some(verdicts) => with_ignore(before, dir, verdicts, 0),
                None => before,
            },
            None => before,
        }
    }
}

/// Whether a job is that for the root of a worktree.
pub open spec fn is_root_job(job: ScanJob, snapshot: LocalSnapshot, inode: u64) -> bool {
    let root = snapshot.root_text();
    &&& job.abs_path == snapshot.snap().root_path()
    &&& job.path@ == Seq::<char>::empty()
    &&& job.ignore_stack@ == if path_ignored(snapshot.ignores(), root, true) {
        IgnoreRules::All
    } else {
        rules_for(snapshot.ignores(), root)
    }
    &&& job.ancestor_inodes@ == Set::<u64>::empty().insert(inode)
}

/// What becomes of the entries where the first scan finds whether the root is ignored.
pub open spec fn is_root_marked(before: LocalSnapshot, after: LocalSnapshot) -> bool {
    let top = Seq::<Seq<char>>::empty();
    let root = after.root_text();
    let paths = before.paths_map();
    if path_ignored(after.ignores(), root, true) && paths.contains_key(top) {
        let e = paths[top];
        let r = after.paths_map()[top];
        &&& is_put_in(before.removed(), paths, Entry { is_ignored: true, ..e }, r)
        &&& after.paths_map() == paths.insert(top, r)
        &&& after.ids_map() == before.ids_map().insert(r.id@, kept_of(r, after.scan()))
        &&& after.removed() == before.removed().remove(e.inode)
    } else {
        &&& after.paths_map() == paths
        &&& after.ids_map() == before.ids_map()
        &&& after.removed() == before.removed()
    }
}

impl LocalSnapshot {
    /// The paths of the ignore files that may lie above the root of the worktree, that of the
    /// nearest directory first.
    pub fn ignore_files_above(&self) -> (r: Vec<Path>)
        ensures
            ({
                let root = self.root_text();
                let n = components(root).len();
                &&& r@.len() == n - root_length(components(root))
                &&& forall|i: int|
                    #![trigger r@[i]]
                    0 <= i < r@.len() ==> r@[i]@ == join_text(
                        text_of_first(root, n - 1 - i),
                        gitignore_name(),
                    )
            }),
    {
        let ghost root = self.root_text();
        let ghost n = components(root).len();
        let ancestors = self.snapshot.abs_path.ancestors();
        let name = Path::new(".gitignore");
        proof {
            reveal_strlit(".gitignore");
            assert(".gitignore"@ =~= gitignore_name());
        }
        let mut r: Vec<Path> = Vec::new();
        let mut i: usize = 0;
        while i < ancestors.len()
            invariant
                i <= ancestors.len(),
                r@.len() == i,
                n == components(root).len(),
                are_ancestors(ancestors@, root),
                name@ == gitignore_name(),
                forall|k: int|
                    #![trigger r@[k]]
                    0 <= k < i ==> r@[k]@ == join_text(
                        text_of_first(root, n - 1 - k),
                        gitignore_name(),
                    ),
            decreases ancestors.len() - i,
        {
            r.push(ancestors[i].join(&name));
            i = i + 1;
        }
        r
    }

    /// Begins the first scan. `above` holds the texts of the ignore files above the root. Gives
    /// the job for the root where it is a directory.
    pub fn begin_scan(&mut self, above: &Vec<Option<String>>) -> (r: Option<ScanJob>)
        requires
            old(self).wf(),
            old(self).scan() < usize::MAX,
            above@.len() == old(self).snap().root_path().comps().len() - root_length(
                old(self).snap().root_path().comps(),
            ),
        ensures
            final(self).wf(),
            final(self).snap().same_tree(old(self).snap()),
            final(self).scan() == old(self).scan() + 1,
            final(self).snap().completed_scan() == old(self).snap().completed_scan(),
            final(self).repos() == old(self).repos(),
            final(self).ignores() == ignores_above(
                old(self).ignores(),
                old(self).root_text(),
                above@,
                above@.len() as int,
            ),
            is_root_marked(*old(self), *final(self)),
            r is Some <==> old(self).paths_map().contains_key(Seq::empty()) && !old(
                self,
            ).paths_map()[Seq::empty()].is_file_entry(),
            r matches Some(job) ==> is_root_job(
                job,
                *final(self),
                old(self).paths_map()[Seq::empty()].inode,
            ),
    {
        let ghost root = self.root_text();
        self.snapshot.scan_started();
        let root_inode: Option<u64> = match self.snapshot.root_entry() {
            Some(entry) => Some(entry.inode),
            None => None,
        };
        let is_dir: bool = match self.snapshot.root_entry() {
            Some(entry) => entry.is_dir(),
            None => false,
        };
        let root_abs_path = self.snapshot.abs_path.clone();
        let ancestors = root_abs_path.ancestors();
        let name = Path::new(".gitignore");
        proof {
            reveal_strlit(".gitignore");
            assert(".gitignore"@ =~= gitignore_name());
            lemma_git_names();
        }
        let ghost started = *self;
        let mut i: usize = 0;
        while i < ancestors.len()
            invariant
                i <= ancestors.len(),
                ancestors.len() == above.len(),
                are_ancestors(ancestors@, root),
                name@ == gitignore_name(),
                self.wf(),
                self.snap() == started.snap(),
                self.repos() == started.repos(),
                self.removed() == started.removed(),
                self.ignores() == ignores_above(started.ignores(), root, above@, i as int),
            decreases ancestors.len() - i,
        {
            assert(ancestors@[i as int]@ == text_of_first(root, components(root).len() - 1 - i));
            match &above[i] {
                Some(contents) => {
                    let abs_path = ancestors[i].join(&name);
                    match build_gitignore(&abs_path, contents.as_str()) {
                        Ok(ignore) => {
                            self.insert_ignore(ancestors[i].clone(), Arc::new(ignore), 0);
                        },
                        Err(_) => {},
                    }
                },
                None => {},
            }
            i = i + 1;
        }
        let ignore_stack = self.ignore_stack_for_abs_path(&root_abs_path, true);
        let ghost marked = path_ignored(self.ignores(), root, true);
        if ignore_stack.is_all() {
            let found: Option<Entry> = match self.snapshot.root_entry() {
                Some(entry) => Some(entry.clone()),
                None => None,
            };
            match found {
                Some(mut root_entry) => {
                    root_entry.is_ignored = true;
                    let _ = self.insert_entry(root_entry, None);
                },
                None => {},
            }
        }
        if is_dir {
            proof {
                reveal_strlit("");
            }
            let path = Path::new("");
            assert(path@ =~= Seq::<char>::empty());
            let mut ancestor_inodes = InodeSet::default();
            match root_inode {
                Some(inode) => {
                    ancestor_inodes.insert(inode);
                },
                None => {},
            }
            Some(
                ScanJob {
                    abs_path: root_abs_path,
                    path: Arc::new(path),
                    ignore_stack,
                    ancestor_inodes,
                },
            )
        } else {
            None
        }
    }

    /// Puts in what was found in a directory and gives the jobs for the directories in it. `repo`
    /// is the repository that was opened where the directory is the `.git` directory of a new
    /// one.
    pub fn scan_dir(
        &mut self,
        next_entry_id: &mut usize,
        job: &ScanJob,
        children: Vec<DirChild>,
        repo: Option<u64>,
    ) -> (r: Vec<ScanJob>)
        requires
            old(self).wf(),
            well_listed(children@),
            old(self).paths_map().contains_key(job.path.comps()) ==> old(
                self,
            ).paths_map()[job.path.comps()].kind is PendingDir,
        ensures
            final(self).wf(),
            ({
                let dir = job.abs_path@;
                let rules = dir_rules(job.ignore_stack@, dir, children@);
                let ancestors = job.ancestor_inodes@;
                &&& exists|es: Seq<Entry>|
                    {
                        &&& #[trigger] are_child_entries(
                            es,
                            *job,
                            rules,
                            found(children@),
                            old(self).snap().root_chars(),
                            *old(next_entry_id),
                        )
                        &&& is_dir_populated(
                            *old(self),
                            job.path,
                            es,
                            dir_verdicts(dir, children@),
                            repo,
                            *final(self),
                        )
                    }
                &&& are_child_jobs(
                    r@,
                    *job,
                    rules,
                    children@.filter(|c: DirChild| is_to_read(c, ancestors)),
                )
            }),
            *final(next_entry_id) == nth_number(*old(next_entry_id), found(children@).len()),
    {
        let scan = scan_dir(&self.snapshot.root_char_bag, next_entry_id, job, children);
        let ghost es = scan.entries@;
        self.populate_dir(job.path.clone(), scan.entries, scan.ignore, repo);
        proof {
            assert(are_child_entries(
                es,
                *job,
                dir_rules(job.ignore_stack@, job.abs_path@, children@),
                found(children@),
                old(self).snap().root_chars(),
                *old(next_entry_id),
            ));
        }
        scan.jobs
    }
}

} // verus!
