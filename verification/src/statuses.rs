//! Which entries are ignored, and how that is brought up to date where ignore files changed.
use crate::entry::{Entry, PathEntry};
use crate::ignore_stack::{
    gitignore_name, is_ignored_by, lemma_git_names, IgnoreRules, IgnoreStack,
};
use crate::local_snapshot::{rules_for, rules_in, IgnoreFile, Ignores, LocalSnapshot};
use crate::outermost::{is_among, is_covered, is_flat, outermost, sorted_paths};
use crate::path::{join_text, names_lt, nested_in, Path};
use crate::path_text::trimmed;
use crate::path_lemmas::{
    lemma_child_comps, lemma_names_lt_asymmetric, lemma_names_lt_irreflexive, lemma_nested_is_block,
    lemma_nested_transitive, lemma_prefixes_nest,
};
use crate::snapshot::{listed, ById, ByPath};
use crate::sum_tree::{lemma_item_with, lemma_key_index, sorted};
use crate::traversal::{after_subtree, lemma_after_subtree};
use std::sync::Arc;
use vstd::prelude::*;

verus! {

/// Whether paths are ignored, by their components.
pub type Statuses = Map<Seq<Seq<char>>, bool>;

/// Whether the entries between two places are ignored where the given rules apply to them: an
/// entry is by the rules, and what lies in a directory is by the rules that apply in it. What is
/// known of other entries already is kept.
pub open spec fn restate(
    known: Statuses,
    s: Seq<Entry>,
    ignores: Ignores,
    root: Seq<char>,
    rules: IgnoreRules,
    from: int,
    to: int,
) -> Statuses
    decreases to - from,
{
    if 0 <= from < to <= s.len() {
        let e = s[from];
        let abs = join_text(root, e.path@);
        let end = after_subtree(s, e.comps(), from + 1);
        let here = known.insert(e.comps(), is_ignored_by(rules, abs, !e.is_file_entry()));
        proof {
            lemma_after_subtree(s, e.comps(), from + 1);
        }
        if end <= to {
            let inside = if e.is_file_entry() {
                here
            } else {
                restate(here, s, ignores, root, rules_in(ignores, rules, abs), from + 1, end)
            };
            restate(inside, s, ignores, root, rules, end, to)
        } else {
            here
        }
    } else {
        known
    }
}

/// Entries with new statuses.
pub open spec fn restated(paths: ByPath, statuses: Statuses) -> ByPath {
    Map::new(
        |p: Seq<Seq<char>>| paths.contains_key(p),
        |p: Seq<Seq<char>>|
            if statuses.contains_key(p) {
                Entry { is_ignored: statuses[p], ..paths[p] }
            } else {
                paths[p]
            },
    )
}

/// What is kept of entries by identifier once they have new statuses: an entry whose status
/// changed is noted as changed by the scan.
pub open spec fn restated_ids(ids: ById, paths: ByPath, statuses: Statuses, scan_id: usize) -> ById {
    Map::new(
        |id: usize| ids.contains_key(id),
        |id: usize|
            {
                let p = ids[id].path.comps();
                if statuses.contains_key(p) && paths.contains_key(p) && paths[p].id@ == id
                    && paths[p].is_ignored != statuses[p] {
                    PathEntry { is_ignored: statuses[p], scan_id, ..ids[id] }
                } else {
                    ids[id]
                }
            },
    )
}

/// Statuses are found for entries between the two places only.
pub proof fn lemma_restate_known(
    known: Statuses,
    s: Seq<Entry>,
    ignores: Ignores,
    root: Seq<char>,
    rules: IgnoreRules,
    from: int,
    to: int,
    p: Seq<Seq<char>>,
)
    requires
        forall|j: int| #![trigger s[j]] from <= j < to ==> s[j].comps() != p,
    ensures
        restate(known, s, ignores, root, rules, from, to).contains_key(p) == known.contains_key(p),
        known.contains_key(p) ==> restate(known, s, ignores, root, rules, from, to)[p] == known[p],
    decreases to - from,
{
    if 0 <= from < to <= s.len() {
        let e = s[from];
        let abs = join_text(root, e.path@);
        let end = after_subtree(s, e.comps(), from + 1);
        let here = known.insert(e.comps(), is_ignored_by(rules, abs, !e.is_file_entry()));
        lemma_after_subtree(s, e.comps(), from + 1);
        assert(s[from].comps() != p);
        if end <= to {
            let inner = rules_in(ignores, rules, abs);
            let inside = if e.is_file_entry() {
                here
            } else {
                restate(here, s, ignores, root, inner, from + 1, end)
            };
            if !e.is_file_entry() {
                lemma_restate_known(here, s, ignores, root, inner, from + 1, end, p);
            }
            lemma_restate_known(inside, s, ignores, root, rules, end, to, p);
        }
    }
}

/// One entry gets a new status.
proof fn lemma_restated_insert(
    paths: ByPath,
    ids: ById,
    statuses: Statuses,
    scan_id: usize,
    p: Seq<Seq<char>>,
    status: bool,
)
    requires
        paths.contains_key(p),
        listed(paths, ids),
        !statuses.contains_key(p),
        forall|q: Seq<Seq<char>>| #[trigger] paths.contains_key(q) ==> paths[q].comps() == q,
    ensures
        ({
            let e = paths[p];
            let after = statuses.insert(p, status);
            if e.is_ignored == status {
                &&& restated(paths, after) == restated(paths, statuses)
                &&& restated_ids(ids, paths, after, scan_id) == restated_ids(
                    ids,
                    paths,
                    statuses,
                    scan_id,
                )
            } else {
                &&& restated(paths, after) == restated(paths, statuses).insert(
                    p,
                    Entry { is_ignored: status, ..e },
                )
                &&& restated_ids(ids, paths, after, scan_id) == restated_ids(
                    ids,
                    paths,
                    statuses,
                    scan_id,
                ).insert(e.id@, PathEntry { is_ignored: status, scan_id, ..ids[e.id@] })
            }
        }),
{
    let e = paths[p];
    let after = statuses.insert(p, status);
    assert(speaks_of_here(ids, e));
    let a = restated_ids(ids, paths, after, scan_id);
    let b = restated_ids(ids, paths, statuses, scan_id);
    assert forall|id: usize| #[trigger] ids.contains_key(id) && id != e.id@ implies a[id] == b[id] by {
        let q = ids[id].path.comps();
        if q == p {
            assert(paths[p].id@ == e.id@);
        }
    }
    if e.is_ignored == status {
        assert(restated(paths, after) =~= restated(paths, statuses));
        assert(a =~= b);
    } else {
        assert(restated(paths, after) =~= restated(paths, statuses).insert(
            p,
            Entry { is_ignored: status, ..e },
        ));
        assert(a =~= b.insert(e.id@, PathEntry { is_ignored: status, scan_id, ..ids[e.id@] }));
    }
}

/// Whether an entry is found by its identifier, at its path.
spec fn speaks_of_here(ids: ById, e: Entry) -> bool {
    ids.contains_key(e.id@) && ids[e.id@].path.comps() == e.comps()
}

/// Entries at two places have two paths.
pub proof fn lemma_distinct(s: Seq<Entry>, i: int, j: int)
    requires
        sorted(s),
        0 <= i < s.len(),
        0 <= j < s.len(),
        i != j,
    ensures
        s[i].comps() != s[j].comps(),
{
    lemma_names_lt_irreflexive(s[i].comps());
    if i < j {
        assert(names_lt(s[i].comps(), s[j].comps()));
    } else {
        assert(names_lt(s[j].comps(), s[i].comps()));
    }
}

/// Whether what lies in a path, but for the path itself, stands between two places.
pub open spec fn is_inside(s: Seq<Entry>, base: Seq<Seq<char>>, from: int, to: int) -> bool {
    &&& 0 <= from <= to <= s.len()
    &&& forall|j: int| #![trigger s[j]] 0 <= j < from ==> s[j].comps() == base || names_lt(
        s[j].comps(),
        base,
    )
    &&& forall|j: int| #![trigger s[j]] from <= j < s.len() ==> names_lt(base, s[j].comps())
    &&& forall|j: int|
        #![trigger s[j]]
        from <= j < s.len() ==> (nested_in(s[j].comps(), base) <==> j < to)
}

/// Where what lies in an entry stands.
pub proof fn lemma_inside_entry(s: Seq<Entry>, i: int)
    requires
        sorted(s),
        0 <= i < s.len(),
    ensures
        is_inside(s, s[i].comps(), i + 1, after_subtree(s, s[i].comps(), i + 1)),
        after_subtree(s, s[i].comps(), i) == after_subtree(s, s[i].comps(), i + 1),
{
    let base = s[i].comps();
    let to = after_subtree(s, base, i + 1);
    assert(nested_in(base, base)) by {
        assert(base =~= base.subrange(0, base.len() as int));
    }
    lemma_after_subtree(s, base, i + 1);
    assert forall|j: int| #![trigger s[j]] i + 1 <= j < s.len() implies (nested_in(
        s[j].comps(),
        base,
    ) <==> j < to) by {
        if j >= to && nested_in(s[j].comps(), base) {
            assert(names_lt(base, s[to].comps()));
            if j > to {
                lemma_nested_is_block(base, s[to].comps(), s[j].comps());
            }
        }
    }
}

/// The places between which what lies in a path stands are settled.
proof fn lemma_inside_unique(s: Seq<Entry>, base: Seq<Seq<char>>, from: int, to: int, i: int)
    requires
        is_inside(s, base, from, to),
        0 <= i <= s.len(),
        forall|j: int| #![trigger s[j]] 0 <= j < i ==> names_lt(s[j].comps(), base) || s[j].comps()
            == base,
        forall|j: int| #![trigger s[j]] i <= j < s.len() ==> names_lt(base, s[j].comps()),
    ensures
        i == from,
{
    if i < from {
        lemma_names_lt_asymmetric(base, s[i].comps());
    } else if from < i {
        lemma_names_lt_asymmetric(base, s[from].comps());
    }
}

/// What lies in an entry ends before what lies around it does.
pub proof fn lemma_inside_ends(s: Seq<Entry>, base: Seq<Seq<char>>, from: int, to: int, i: int)
    requires
        sorted(s),
        is_inside(s, base, from, to),
        from <= i < to,
    ensures
        i < after_subtree(s, s[i].comps(), i + 1) <= to,
{
    let end = after_subtree(s, s[i].comps(), i + 1);
    lemma_inside_entry(s, i);
    if end > to {
        assert(nested_in(s[to].comps(), s[i].comps()));
        lemma_nested_transitive(s[to].comps(), s[i].comps(), base);
    }
}

impl LocalSnapshot {
    /// Brings up to date whether what lies in a directory is ignored. The entries are those of
    /// `copy`, and the ignore files that apply in the directory, its own included, are given.
    fn update_ignore_status(
        &mut self,
        copy: &LocalSnapshot,
        path: &Arc<Path>,
        ignore_stack: &IgnoreStack,
        Ghost(known): Ghost<Statuses>,
        Ghost(from): Ghost<int>,
        Ghost(to): Ghost<int>,
    )
        requires
            copy.wf(),
            old(self).wf(),
            listed(copy.paths_map(), copy.ids_map()),
            old(self).same_scan(*copy),
            old(self).paths_map() == restated(copy.paths_map(), known),
            old(self).ids_map() == restated_ids(
                copy.ids_map(),
                copy.paths_map(),
                known,
                copy.scan(),
            ),
            is_inside(copy.snap().list(), path.comps(), from, to),
            forall|j: int|
                #![trigger copy.snap().list()[j]]
                from <= j < to ==> !known.contains_key(copy.snap().list()[j].comps()),
        ensures
            final(self).wf(),
            final(self).same_scan(*copy),
            final(self).ignores() == old(self).ignores(),
            final(self).repos() == old(self).repos(),
            final(self).removed() == old(self).removed(),
            ({
                let after = restate(
                    known,
                    copy.snap().list(),
                    copy.ignores(),
                    copy.root_text(),
                    ignore_stack@,
                    from,
                    to,
                );
                &&& final(self).paths_map() == restated(copy.paths_map(), after)
                &&& final(self).ids_map() == restated_ids(
                    copy.ids_map(),
                    copy.paths_map(),
                    after,
                    copy.scan(),
                )
            }),
        decreases to - from,
    {
        let ghost s = copy.snap().list();
        let ghost paths = copy.paths_map();
        let ghost ids = copy.ids_map();
        let ghost root = copy.root_text();
        let ghost ignores = copy.ignores();
        let ghost rules = ignore_stack@;
        let ghost scan_id = copy.scan();
        let ghost mut now = known;
        let mut children = copy.snapshot.child_entries(path);
        proof {
            lemma_inside_unique(s, path.comps(), from, to, children.index());
            crate::update::lemma_keyed(s);
        }
        loop
            invariant
                copy.wf(),
                self.wf(),
                sorted(s),
                s == copy.snap().list(),
                paths == copy.paths_map(),
                ids == copy.ids_map(),
                root == copy.root_text(),
                ignores == copy.ignores(),
                rules == ignore_stack@,
                scan_id == copy.scan(),
                listed(paths, ids),
                crate::update::keyed(paths),
                self.same_scan(*copy),
                self.ignores() == old(self).ignores(),
                self.repos() == old(self).repos(),
                self.removed() == old(self).removed(),
                children.wf(),
                children.items() == s,
                children.parent() == path.comps(),
                is_inside(s, path.comps(), from, to),
                from <= children.index() <= to,
                self.paths_map() == restated(paths, now),
                self.ids_map() == restated_ids(ids, paths, now, scan_id),
                restate(known, s, ignores, root, rules, from, to) == restate(
                    now,
                    s,
                    ignores,
                    root,
                    rules,
                    children.index(),
                    to,
                ),
                forall|j: int|
                    #![trigger s[j]]
                    children.index() <= j < to ==> !now.contains_key(s[j].comps()),
            ensures
                children.index() == to,
            decreases to - children.index(),
        {
            let ghost i = children.index();
            match children.next() {
                None => {
                    break;
                },
                Some(entry) => {
                    let ghost p = entry.comps();
                    let ghost end = after_subtree(s, p, i + 1);
                    proof {
                        lemma_inside_entry(s, i);
                        lemma_inside_ends(s, path.comps(), from, to, i);
                        lemma_item_with(s, i);
                        assert forall|j: int| #![trigger s[j]] i < j < to implies s[j].comps() != p by {
                            lemma_distinct(s, i, j);
                        }
                    }
                    let abs_path = Arc::new(copy.snapshot.abs_path.join(&entry.path));
                    let is_dir: bool = entry.is_dir();
                    let is_ignored: bool = ignore_stack.is_abs_path_ignored(&abs_path, is_dir);
                    let ghost here = now.insert(p, is_ignored);
                    proof {
                        lemma_restated_insert(paths, ids, now, scan_id, p, is_ignored);
                    }
                    if is_ignored != entry.is_ignored {
                        match copy.snapshot.entries_by_id.get(&entry.id) {
                            Some(found) => {
                                let mut kept = found.clone();
                                kept.scan_id = copy.snapshot.scan_id;
                                kept.is_ignored = is_ignored;
                                let mut changed = entry.clone();
                                changed.is_ignored = is_ignored;
                                proof {
                                    let k = lemma_key_index(copy.snap().id_list(), entry.id@);
                                    assert(kept.id@ == entry.id@);
                                }
                                let _ = self.snapshot.entries_by_id.insert_or_replace(kept);
                                let _ = self.snapshot.entries_by_path.insert_or_replace(changed);
                            },
                            None => {
                                assert(ids.contains_key(paths[p].id@));
                            },
                        }
                    }
                    assert(self.paths_map() == restated(paths, here));
                    assert(self.ids_map() == restated_ids(ids, paths, here, scan_id));
                    if is_dir {
                        let mut child_stack = if is_ignored {
                            IgnoreStack::all()
                        } else {
                            ignore_stack.clone()
                        };
                        match copy.ignores_by_parent_abs_path.get(&abs_path) {
                            Some(file) => {
                                child_stack = child_stack.append(
                                    abs_path.clone(),
                                    file.ignore.clone(),
                                );
                            },
                            None => {},
                        }
                        assert(child_stack@ == rules_in(ignores, rules, abs_path@));
                        self.update_ignore_status(
                            copy,
                            &entry.path,
                            &child_stack,
                            Ghost(here),
                            Ghost(i + 1),
                            Ghost(end),
                        );
                        proof {
                            let inner = rules_in(ignores, rules, abs_path@);
                            now = restate(here, s, ignores, root, inner, i + 1, end);
                            assert forall|j: int| #![trigger s[j]] end <= j < to implies !now.contains_key(
                                s[j].comps(),
                            ) by {
                                assert forall|k: int| #![trigger s[k]] i + 1 <= k < end implies s[k].comps()
                                    != s[j].comps() by {
                                    lemma_distinct(s, k, j);
                                }
                                lemma_restate_known(
                                    here,
                                    s,
                                    ignores,
                                    root,
                                    inner,
                                    i + 1,
                                    end,
                                    s[j].comps(),
                                );
                            }
                        }
                    } else {
                        proof {
                            now = here;
                        }
                    }
                },
            }
        }
        assert(restate(now, s, ignores, root, rules, to, to) == now);
    }
}

/// The path of a directory of the worktree, relative to its root.
pub open spec fn relative(snapshot: LocalSnapshot, dir: Seq<Seq<char>>) -> Seq<Seq<char>> {
    dir.skip(snapshot.snap().root_path().comps().len() as int)
}

/// Whether the ignore file of a directory of the worktree was changed by the current scan.
pub open spec fn is_changed_dir(snapshot: LocalSnapshot, dir: Seq<Seq<char>>) -> bool {
    &&& snapshot.ignores().contains_key(dir)
    &&& nested_in(dir, snapshot.snap().root_path().comps())
    &&& snapshot.ignores()[dir].scan_id == snapshot.scan()
    &&& snapshot.paths_map().contains_key(relative(snapshot, dir))
}

/// Whether the ignore file of a directory of the worktree is gone.
pub open spec fn is_stale_dir(snapshot: LocalSnapshot, dir: Seq<Seq<char>>) -> bool {
    &&& snapshot.ignores().contains_key(dir)
    &&& nested_in(dir, snapshot.snap().root_path().comps())
    &&& !snapshot.paths_map().contains_key(relative(snapshot, dir).push(gitignore_name()))
}

/// The ignore files that are not gone.
pub open spec fn fresh_ignores(snapshot: LocalSnapshot) -> Ignores {
    snapshot.ignores().remove_keys(Set::new(|dir: Seq<Seq<char>>| is_stale_dir(snapshot, dir)))
}

/// Whether paths are the outermost directories whose ignore files were changed by the current
/// scan, written as they are known.
pub open spec fn are_changed_dirs(snapshot: LocalSnapshot, dirs: Seq<Arc<Path>>) -> bool {
    &&& sorted_paths(dirs)
    &&& is_flat(dirs)
    &&& forall|i: int|
        #![trigger dirs[i]]
        0 <= i < dirs.len() ==> {
            &&& is_changed_dir(snapshot, dirs[i].comps())
            &&& snapshot.ignores()[dirs[i].comps()].text == trimmed(dirs[i]@)
        }
    &&& forall|dir: Seq<Seq<char>>| #[trigger]
        is_changed_dir(snapshot, dir) ==> is_covered(dir, dirs)
}

/// The place of the entry with a path.
pub open spec fn place_of(s: Seq<Entry>, p: Seq<Seq<char>>) -> int {
    choose|i: int| #![trigger s[i]] 0 <= i < s.len() && s[i].comps() == p
}

/// Whether what lies in the first `n` of some directories is ignored.
pub open spec fn dir_statuses(
    snapshot: LocalSnapshot,
    ignores: Ignores,
    dirs: Seq<Arc<Path>>,
    n: int,
) -> Statuses
    decreases n,
{
    if n <= 0 {
        Map::empty()
    } else {
        let s = snapshot.snap().list();
        let dir = dirs[n - 1].comps();
        let rel = relative(snapshot, dir);
        let from = place_of(s, rel) + 1;
        restate(
            dir_statuses(snapshot, ignores, dirs, n - 1),
            s,
            ignores,
            snapshot.root_text(),
            rules_in(ignores, rules_for(ignores, dirs[n - 1]@), dirs[n - 1]@),
            from,
            after_subtree(s, rel, from),
        )
    }
}

/// Two paths below one base are nested as what is left of them is.
pub proof fn lemma_nested_skip(a: Seq<Seq<char>>, b: Seq<Seq<char>>, base: Seq<Seq<char>>)
    requires
        nested_in(a, base),
        nested_in(b, base),
    ensures
        nested_in(a.skip(base.len() as int), b.skip(base.len() as int)) <==> nested_in(a, b),
{
    let n = base.len() as int;
    let x = a.skip(n);
    let y = b.skip(n);
    if nested_in(a, b) {
        assert(y =~= x.subrange(0, y.len() as int)) by {
            assert forall|i: int| 0 <= i < y.len() implies y[i] == x.subrange(0, y.len() as int)[i] by {
                assert(b[i + n] == a.subrange(0, b.len() as int)[i + n]);
            }
        }
    }
    if nested_in(x, y) {
        assert(b =~= a.subrange(0, b.len() as int)) by {
            assert forall|i: int| 0 <= i < b.len() implies b[i] == a.subrange(0, b.len() as int)[i] by {
                if i < n {
                    assert(base[i] == a.subrange(0, n)[i]);
                    assert(base[i] == b.subrange(0, n)[i]);
                } else {
                    assert(y[i - n] == x.subrange(0, y.len() as int)[i - n]);
                }
            }
        }
    }
}

impl LocalSnapshot {
    /// The directories whose ignore files were changed by the current scan, and those whose
    /// ignore files are gone.
    fn changed_and_stale(&self) -> (r: (Vec<Arc<Path>>, Vec<Arc<Path>>))
        requires
            self.wf(),
        ensures
            forall|dir: Seq<Seq<char>>|
                #![trigger is_among(dir, r.0@)]
                is_among(dir, r.0@) <==> is_changed_dir(*self, dir),
            forall|i: int|
                #![trigger r.0@[i]]
                0 <= i < r.0@.len() ==> self.ignores()[r.0@[i].comps()].text == trimmed(r.0@[i]@),
            forall|dir: Seq<Seq<char>>|
                #![trigger is_among(dir, r.1@)]
                is_among(dir, r.1@) <==> is_stale_dir(*self, dir),
    {
        let ghost s = self.ignores_by_parent_abs_path@;
        let name = Path::new(".gitignore");
        proof {
            reveal_strlit(".gitignore");
            assert(".gitignore"@ =~= gitignore_name());
            lemma_git_names();
        }
        let mut changed: Vec<Arc<Path>> = Vec::new();
        let mut stale: Vec<Arc<Path>> = Vec::new();
        let mut i: usize = 0;
        while i < self.ignores_by_parent_abs_path.len()
            invariant
                i <= s.len(),
                s == self.ignores_by_parent_abs_path@,
                self.wf(),
                name@ == gitignore_name(),
                crate::path::is_file_name(gitignore_name()),
                forall|dir: Seq<Seq<char>>|
                    #![trigger is_among(dir, changed@)]
                    is_among(dir, changed@) <==> is_changed_dir(*self, dir) && in_first(s, i as int, dir),
                forall|k: int|
                    #![trigger changed@[k]]
                    0 <= k < changed@.len() ==> self.ignores()[changed@[k].comps()].text == trimmed(
                        changed@[k]@,
                    ),
                forall|dir: Seq<Seq<char>>|
                    #![trigger is_among(dir, stale@)]
                    is_among(dir, stale@) <==> is_stale_dir(*self, dir) && in_first(s, i as int, dir),
            decreases s.len() - i,
        {
            let file = self.ignores_by_parent_abs_path.item(i);
            let ghost changed_before = changed@;
            let ghost stale_before = stale@;
            let ghost here = file.parent_abs_path.comps();
            proof {
                lemma_item_with(s, i as int);
                assert(self.ignores().contains_key(here));
                assert(self.ignores()[here] == file.rule());
            }
            match file.parent_abs_path.strip_prefix(&self.snapshot.abs_path) {
                Some(parent_path) => {
                    if file.scan_id == self.snapshot.scan_id && self.snapshot.entry_for_path(
                        &parent_path,
                    ).is_some() {
                        changed.push(file.parent_abs_path.clone());
                    }
                    let ignore_path = parent_path.join(&name);
                    proof {
                        lemma_child_comps(parent_path@, gitignore_name());
                    }
                    if self.snapshot.entry_for_path(&ignore_path).is_none() {
                        stale.push(file.parent_abs_path.clone());
                    }
                },
                None => {},
            }
            proof {
                assert forall|dir: Seq<Seq<char>>|
                    #![trigger is_among(dir, changed@)]
                    is_among(dir, changed@) <==> is_changed_dir(*self, dir) && in_first(
                        s,
                        i + 1,
                        dir,
                    ) by {
                    lemma_among_step(changed_before, changed@, here, dir);
                    lemma_in_first(s, i as int, dir);
                    assert(is_among(dir, changed_before) <==> is_changed_dir(*self, dir)
                        && in_first(s, i as int, dir));
                }
                assert forall|dir: Seq<Seq<char>>|
                    #![trigger is_among(dir, stale@)]
                    is_among(dir, stale@) <==> is_stale_dir(*self, dir) && in_first(s, i + 1, dir) by {
                    lemma_among_step(stale_before, stale@, here, dir);
                    lemma_in_first(s, i as int, dir);
                    assert(is_among(dir, stale_before) <==> is_stale_dir(*self, dir) && in_first(
                        s,
                        i as int,
                        dir,
                    ));
                }
            }
            i = i + 1;
        }
        proof {
            assert forall|dir: Seq<Seq<char>>| self.ignores().contains_key(dir) implies #[trigger] in_first(
                s,
                s.len() as int,
                dir,
            ) by {
                let k = lemma_key_index(s, dir);
                assert(s[k].parent_abs_path.comps() == dir);
            }
        }
        (changed, stale)
    }

    /// Forgets the ignore files that are gone, and brings up to date which of the entries are
    /// ignored that lie in directories whose ignore files were changed by the current scan.
    pub fn update_ignore_statuses(&mut self)
        requires
            old(self).wf(),
            listed(old(self).paths_map(), old(self).ids_map()),
        ensures
            final(self).wf(),
            final(self).same_scan(*old(self)),
            final(self).repos() == old(self).repos(),
            final(self).removed() == old(self).removed(),
            final(self).ignores() == fresh_ignores(*old(self)),
            exists|dirs: Seq<Arc<Path>>| #[trigger]
                are_changed_dirs(*old(self), dirs) && {
                    let statuses = dir_statuses(
                        *old(self),
                        fresh_ignores(*old(self)),
                        dirs,
                        dirs.len() as int,
                    );
                    &&& final(self).paths_map() == restated(old(self).paths_map(), statuses)
                    &&& final(self).ids_map() == restated_ids(
                        old(self).ids_map(),
                        old(self).paths_map(),
                        statuses,
                        old(self).scan(),
                    )
                },
    {
        let (changed, stale) = self.changed_and_stale();
        let ghost all = changed@;
        let ghost begun = *self;
        let dirs = outermost(changed);
        proof {
            assert forall|dir: Seq<Seq<char>>| #[trigger] is_changed_dir(begun, dir) implies is_covered(
                dir,
                dirs@,
            ) by {
                assert(is_among(dir, all));
                let k = choose|k: int| #![trigger all[k]] 0 <= k < all.len() && all[k].comps() == dir;
                assert(is_covered(all[k].comps(), dirs@));
            }
            assert forall|i: int| #![trigger dirs@[i]] 0 <= i < dirs@.len() implies is_changed_dir(
                begun,
                dirs@[i].comps(),
            ) && begun.ignores()[dirs@[i].comps()].text == trimmed(dirs@[i]@) by {
                let k = choose|k: int| 0 <= k < all.len() && all[k] == dirs@[i];
                assert(is_among(all[k].comps(), all));
            }
            assert(are_changed_dirs(begun, dirs@));
        }
        self.forget_ignores(&stale);
        proof {
            assert(self.ignores() =~= fresh_ignores(begun)) by {
                assert forall|dir: Seq<Seq<char>>| #[trigger] self.ignores().contains_key(dir)
                    <==> fresh_ignores(begun).contains_key(dir) by {
                    assert(first_comps(stale@, stale@.len() as int).contains(dir) <==> is_among(
                        dir,
                        stale@,
                    ));
                }
            }
        }
        let copy = self.clone();
        self.update_dirs(&copy, &dirs);
        proof {
            let n = dirs@.len() as int;
            lemma_dir_statuses_same(begun, copy, fresh_ignores(begun), dirs@, n);
            assert(are_changed_dirs(*old(self), dirs@));
        }
    }

    /// Forgets the ignore files of some directories.
    fn forget_ignores(&mut self, dirs: &Vec<Arc<Path>>)
        requires
            old(self).wf(),
        ensures
            final(self).wf(),
            final(self).snap() == old(self).snap(),
            final(self).repos() == old(self).repos(),
            final(self).removed() == old(self).removed(),
            final(self).ignores() == old(self).ignores().remove_keys(
                first_comps(dirs@, dirs@.len() as int),
            ),
    {
        let ghost begun = *self;
        let mut i: usize = 0;
        assert(self.ignores() =~= begun.ignores().remove_keys(first_comps(dirs@, 0)));
        while i < dirs.len()
            invariant
                i <= dirs.len(),
                self.wf(),
                self.snap() == begun.snap(),
                self.repos() == begun.repos(),
                self.removed() == begun.removed(),
                self.ignores() == begun.ignores().remove_keys(first_comps(dirs@, i as int)),
            decreases dirs.len() - i,
        {
            let ghost before = self.ignores();
            let _ = self.ignores_by_parent_abs_path.remove(&dirs[i]);
            proof {
                assert(self.ignores() =~= before.remove(dirs@[i as int].comps()));
                lemma_first_comps(dirs@, i as int);
                assert(self.ignores() =~= begun.ignores().remove_keys(first_comps(dirs@, i + 1)));
            }
            i = i + 1;
        }
    }

    /// Brings up to date whether what lies in some directories is ignored. The entries and the
    /// ignore files are those of `copy`.
    fn update_dirs(&mut self, copy: &LocalSnapshot, dirs: &Vec<Arc<Path>>)
        requires
            copy.wf(),
            old(self).wf(),
            listed(copy.paths_map(), copy.ids_map()),
            old(self).same_as(*copy),
            are_dirs_apart(*copy, dirs@),
        ensures
            final(self).wf(),
            final(self).same_scan(*copy),
            final(self).ignores() == old(self).ignores(),
            final(self).repos() == old(self).repos(),
            final(self).removed() == old(self).removed(),
            ({
                let statuses = dir_statuses(*copy, copy.ignores(), dirs@, dirs@.len() as int);
                &&& final(self).paths_map() == restated(copy.paths_map(), statuses)
                &&& final(self).ids_map() == restated_ids(
                    copy.ids_map(),
                    copy.paths_map(),
                    statuses,
                    copy.scan(),
                )
            }),
    {
        let ghost begun = *copy;
        let ghost s = begun.snap().list();
        let ghost ignores = begun.ignores();
        let ghost paths = begun.paths_map();
        let ghost ids = begun.ids_map();
        let ghost root = begun.snap().root_path().comps();
        assert(restated(paths, Map::empty()) =~= paths);
        assert(restated_ids(ids, paths, Map::empty(), begun.scan()) =~= ids);
        let mut n: usize = 0;
        while n < dirs.len()
            invariant
                n <= dirs.len(),
                copy.wf(),
                self.wf(),
                begun == *copy,
                ignores == begun.ignores(),
                s == begun.snap().list(),
                paths == begun.paths_map(),
                ids == begun.ids_map(),
                root == begun.snap().root_path().comps(),
                listed(paths, ids),
                are_dirs_apart(begun, dirs@),
                self.same_scan(*copy),
                self.ignores() == old(self).ignores(),
                self.repos() == old(self).repos(),
                self.removed() == old(self).removed(),
                self.paths_map() == restated(
                    paths,
                    dir_statuses(begun, ignores, dirs@, n as int),
                ),
                self.ids_map() == restated_ids(
                    ids,
                    paths,
                    dir_statuses(begun, ignores, dirs@, n as int),
                    begun.scan(),
                ),
                forall|p: Seq<Seq<char>>|
                    #![trigger dir_statuses(begun, ignores, dirs@, n as int).contains_key(p)]
                    dir_statuses(begun, ignores, dirs@, n as int).contains_key(p)
                        ==> in_first_dirs(begun, dirs@, n as int, p),
            decreases dirs.len() - n,
        {
            let dir = &dirs[n];
            let ghost d = dir.comps();
            let ghost rel = relative(begun, d);
            let ghost known = dir_statuses(begun, ignores, dirs@, n as int);
            assert(nested_in(dirs@[n as int].comps(), root));
            let mut ignore_stack = copy.ignore_stack_for_abs_path(dir, true);
            match copy.ignores_by_parent_abs_path.get(dir) {
                Some(file) => {
                    ignore_stack = ignore_stack.append(dir.clone(), file.ignore.clone());
                },
                None => {},
            }
            assert(ignore_stack@ == rules_in(ignores, rules_for(ignores, dir@), dir@));
            match dir.strip_prefix(&copy.snapshot.abs_path) {
                Some(path) => {
                    let ghost i = place_of(s, rel);
                    let ghost from = i + 1;
                    let ghost to = after_subtree(s, rel, from);
                    proof {
                        let k = lemma_key_index(s, rel);
                        assert(0 <= i < s.len() && s[i].comps() == rel);
                        lemma_inside_entry(s, i);
                        assert forall|j: int| #![trigger s[j]] from <= j < to implies !known.contains_key(
                            s[j].comps(),
                        ) by {
                            let p = s[j].comps();
                            if known.contains_key(p) {
                                assert(in_first_dirs(begun, dirs@, n as int, p));
                                let m = choose|m: int|
                                    #![trigger dirs@[m]]
                                    0 <= m < n && nested_in(
                                        p,
                                        relative(begun, dirs@[m].comps()),
                                    );
                                lemma_apart(begun, dirs@, m, n as int, p);
                            }
                        }
                    }
                    let path = Arc::new(path);
                    self.update_ignore_status(
                        copy,
                        &path,
                        &ignore_stack,
                        Ghost(known),
                        Ghost(from),
                        Ghost(to),
                    );
                    proof {
                        let after = dir_statuses(begun, ignores, dirs@, n + 1);
                        assert forall|p: Seq<Seq<char>>| #[trigger] after.contains_key(p) implies in_first_dirs(
                            begun,
                            dirs@,
                            n + 1,
                            p,
                        ) by {
                            if forall|j: int| #![trigger s[j]] from <= j < to ==> s[j].comps() != p {
                                lemma_restate_known(
                                    known,
                                    s,
                                    ignores,
                                    begun.root_text(),
                                    ignore_stack@,
                                    from,
                                    to,
                                    p,
                                );
                                let m = choose|m: int|
                                    #![trigger dirs@[m]]
                                    0 <= m < n && nested_in(
                                        p,
                                        relative(begun, dirs@[m].comps()),
                                    );
                                assert(0 <= m < n + 1);
                            } else {
                                let j = choose|j: int|
                                    #![trigger s[j]]
                                    from <= j < to && s[j].comps() == p;
                                assert(nested_in(p, relative(begun, dirs@[n as int].comps())));
                            }
                        }
                    }
                },
                None => {},
            }
            n = n + 1;
        }
    }
}

/// Whether paths are directories of the worktree that are there, none below another.
pub open spec fn are_dirs_apart(snapshot: LocalSnapshot, dirs: Seq<Arc<Path>>) -> bool {
    &&& is_flat(dirs)
    &&& forall|i: int| #![trigger dirs[i]] 0 <= i < dirs.len() ==> nested_in(
        dirs[i].comps(),
        snapshot.snap().root_path().comps(),
    ) && snapshot.paths_map().contains_key(relative(snapshot, dirs[i].comps()))
}

/// The statuses of entries are settled by the entries.
proof fn lemma_dir_statuses_same(
    a: LocalSnapshot,
    b: LocalSnapshot,
    ignores: Ignores,
    dirs: Seq<Arc<Path>>,
    n: int,
)
    requires
        a.snap().same_as(b.snap()),
    ensures
        dir_statuses(a, ignores, dirs, n) == dir_statuses(b, ignores, dirs, n),
    decreases n,
{
    if n > 0 {
        lemma_dir_statuses_same(a, b, ignores, dirs, n - 1);
    }
}

/// Which ignore files changed, and what follows, depends on the entries and the ignore files
/// alone.
pub proof fn lemma_changed_dirs_same(a: LocalSnapshot, b: LocalSnapshot, dirs: Seq<Arc<Path>>)
    requires
        a.snap().same_as(b.snap()),
        a.ignores() == b.ignores(),
    ensures
        are_changed_dirs(a, dirs) == are_changed_dirs(b, dirs),
        fresh_ignores(a) == fresh_ignores(b),
        dir_statuses(a, fresh_ignores(a), dirs, dirs.len() as int) == dir_statuses(
            b,
            fresh_ignores(b),
            dirs,
            dirs.len() as int,
        ),
{
    assert forall|dir: Seq<Seq<char>>|
        #![trigger is_changed_dir(a, dir)]
        #![trigger is_changed_dir(b, dir)]
        is_changed_dir(a, dir) == is_changed_dir(b, dir) by {
    }
    assert(fresh_ignores(a) =~= fresh_ignores(b)) by {
        assert forall|dir: Seq<Seq<char>>| #[trigger] is_stale_dir(a, dir) == is_stale_dir(b, dir) by {
        }
    }
    lemma_dir_statuses_same(a, b, fresh_ignores(a), dirs, dirs.len() as int);
}

/// Whether a directory is that of one of the first `n` ignore files.
spec fn in_first(s: Seq<IgnoreFile>, n: int, dir: Seq<Seq<char>>) -> bool {
    exists|i: int| #![trigger s[i]] 0 <= i < n && s[i].parent_abs_path.comps() == dir
}

proof fn lemma_in_first(s: Seq<IgnoreFile>, n: int, dir: Seq<Seq<char>>)
    requires
        0 <= n < s.len(),
    ensures
        in_first(s, n + 1, dir) <==> in_first(s, n, dir) || s[n].parent_abs_path.comps() == dir,
{
    if in_first(s, n + 1, dir) {
        let i = choose|i: int| #![trigger s[i]] 0 <= i < n + 1 && s[i].parent_abs_path.comps() == dir;
        if i < n {
            assert(in_first(s, n, dir));
        }
    }
    if in_first(s, n, dir) {
        let i = choose|i: int| #![trigger s[i]] 0 <= i < n && s[i].parent_abs_path.comps() == dir;
        assert(0 <= i < n + 1);
    }
}

proof fn lemma_among_step(
    before: Seq<Arc<Path>>,
    after: Seq<Arc<Path>>,
    here: Seq<Seq<char>>,
    dir: Seq<Seq<char>>,
)
    requires
        after == before || (after.len() == before.len() + 1 && after.last().comps() == here && forall|
            k: int,
        |
            #![trigger after[k]]
            0 <= k < before.len() ==> after[k] == before[k]),
    ensures
        is_among(dir, after) <==> is_among(dir, before) || (after != before && dir == here),
{
    if is_among(dir, before) {
        let i = choose|i: int| #![trigger before[i]] 0 <= i < before.len() && before[i].comps() == dir;
        assert(after[i] == before[i]);
    }
    if is_among(dir, after) {
        let i = choose|i: int| #![trigger after[i]] 0 <= i < after.len() && after[i].comps() == dir;
        if i < before.len() {
            assert(before[i] == after[i]);
        }
    }
    if after != before {
        assert(after[after.len() - 1].comps() == here);
    }
}

/// The components of the first `n` of some paths.
spec fn first_comps(ps: Seq<Arc<Path>>, n: int) -> Set<Seq<Seq<char>>> {
    Set::new(|p: Seq<Seq<char>>| exists|i: int| #![trigger ps[i]] 0 <= i < n && ps[i].comps() == p)
}

proof fn lemma_first_comps(ps: Seq<Arc<Path>>, n: int)
    requires
        0 <= n < ps.len(),
    ensures
        first_comps(ps, n + 1) == first_comps(ps, n).insert(ps[n].comps()),
{
    let a = first_comps(ps, n);
    let b = first_comps(ps, n + 1);
    assert forall|p: Seq<Seq<char>>| b.contains(p) <==> a.insert(ps[n].comps()).contains(p) by {
        if b.contains(p) {
            let i = choose|i: int| #![trigger ps[i]] 0 <= i < n + 1 && ps[i].comps() == p;
            if i < n {
                assert(a.contains(p));
            }
        }
        if a.contains(p) {
            let i = choose|i: int| #![trigger ps[i]] 0 <= i < n && ps[i].comps() == p;
            assert(0 <= i < n + 1);
        }
        assert(ps[n].comps() == ps[n].comps());
    }
    assert(b =~= a.insert(ps[n].comps()));
}

/// Whether a path lies in one of the first `n` of some directories.
spec fn in_first_dirs(
    snapshot: LocalSnapshot,
    dirs: Seq<Arc<Path>>,
    n: int,
    p: Seq<Seq<char>>,
) -> bool {
    exists|m: int|
        #![trigger dirs[m]]
        0 <= m < n && nested_in(p, relative(snapshot, dirs[m].comps()))
}

/// No path lies in two of the outermost directories.
pub proof fn lemma_apart(
    snapshot: LocalSnapshot,
    dirs: Seq<Arc<Path>>,
    m: int,
    n: int,
    p: Seq<Seq<char>>,
)
    requires
        are_dirs_apart(snapshot, dirs),
        0 <= m < n < dirs.len(),
        nested_in(p, relative(snapshot, dirs[m].comps())),
    ensures
        !nested_in(p, relative(snapshot, dirs[n].comps())),
{
    let root = snapshot.snap().root_path().comps();
    let a = dirs[m].comps();
    let b = dirs[n].comps();
    lemma_nested_skip(a, b, root);
    lemma_nested_skip(b, a, root);
    if nested_in(p, relative(snapshot, b)) {
        if relative(snapshot, a).len() <= relative(snapshot, b).len() {
            lemma_prefixes_nest(p, relative(snapshot, b), relative(snapshot, a));
        } else {
            lemma_prefixes_nest(p, relative(snapshot, a), relative(snapshot, b));
        }
    }
}

} // verus!
