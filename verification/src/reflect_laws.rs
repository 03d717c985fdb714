//! What a snapshot comes to as a whole: it reflects the file system, with the ignore files that the
//! file system holds, after a scan and after every batch of events.
use crate::entry::Entry;
use crate::event_laws::{
    are_apart, are_in_reach, are_told, differ_at, event_path, is_touched, jobs_of,
    law_events_bring_agreement, law_statuses_keep_agreement, lemma_removed_paths,
};
use crate::event_status_laws::{
    agree_at, are_plain, are_right_elsewhere, is_stacked_elsewhere,
    law_events_find_statuses, law_finished_events_settle, law_next_scan_is_settled,
    law_rescan_finds_statuses, law_scan_keeps_ignore_files, lemma_behind_root, lemma_is_read,
    lemma_place_above, lemma_same_rules_at, root_of,
};
use crate::events::{
    are_events_applied, are_events_handled, are_paths_removed, is_event_entry, is_event_handled,
    is_step, text_of, EventOutcome, FsEvent,
};
use crate::gitignore::{file_verdicts, Verdicts};
use crate::ignore_laws::{
    are_written, is_at, is_plain, is_relative, is_right, is_tree, lemma_place, lemma_place_child, place,
};
use crate::ignore_stack::{gitignore_name, lemma_git_names};
use crate::local_snapshot::{
    are_repos_touched, is_dir_populated, is_populated, is_with_entry, same_but_id, with_ignore,
    IgnoreRule, Ignores, LocalSnapshot,
};
use crate::path::{components, is_file_name, join_text, nested_in, Path};
use crate::path_text::{text_behind, trimmed};
use crate::scan_laws::{
    agrees, are_named_apart, is_fs_tree, is_in_dir, is_pending, law_scan_begins,
    law_scan_finds_all, law_scan_step, lemma_entered_above, lemma_filter_apart, lies_in, lists,
    tells, FsTree,
};
use crate::scanner::{
    are_child_entries, are_child_jobs, child_verdicts, dir_rules, dir_verdicts, found,
    ignores_above, is_child_entry, is_root_job, is_root_marked, is_to_read, DirChild, ScanJob,
};
use crate::snapshot::{entries_by_path, ByPath};
use crate::status_laws::{
    are_right, is_relative_path, is_rightly_stacked, law_scan_begins_right,
    law_scan_finds_statuses, lemma_child_relative, lemma_relative_entry,
};
use crate::statuses::{
    are_changed_dirs, dir_statuses, fresh_ignores, is_stale_dir, relative, restated, Statuses,
};
use std::sync::Arc;
use vstd::prelude::*;

verus! {

/// The texts of the ignore files of a worktree that can be read, by their paths from its root.
pub type FsTexts = Map<Seq<Seq<char>>, Seq<char>>;

/// What the ignore files that do not lie in a worktree say, by the directories that hold them.
pub type Outside = Map<Seq<Seq<char>>, Verdicts>;

/// Whether texts are those of files that are there.
pub open spec fn are_texts_of(tree: FsTree, texts: FsTexts) -> bool {
    forall|p: Seq<Seq<char>>| #[trigger]
        texts.contains_key(p) ==> tree.contains_key(p) && !tree[p].is_dir
}

/// What the ignore file of a directory of the worktree says, where there is one that can be used.
pub open spec fn usable(root: Seq<char>, texts: FsTexts, dir: Seq<Seq<char>>) -> Option<Verdicts> {
    let file = dir.push(gitignore_name());
    if texts.contains_key(file) {
        file_verdicts(place(root, file), texts[file])
    } else {
        None
    }
}

/// Whether the ignore files that are known are those of the file system: outside the worktree the
/// given ones, and in it the usable ones that have an entry. Of a directory whose ignore file is
/// there but cannot be used, none is known.
pub open spec fn knows_ignores(
    l: LocalSnapshot,
    tree: FsTree,
    texts: FsTexts,
    outside: Outside,
) -> bool {
    let root = root_of(l);
    let w = l.root_text();
    &&& forall|dir: Seq<Seq<char>>|
        #![trigger l.ignores().contains_key(dir)]
        #![trigger outside.contains_key(dir)]
        !nested_in(dir, root) ==> {
            &&& l.ignores().contains_key(dir) <==> outside.contains_key(dir)
            &&& outside.contains_key(dir) ==> l.ignores()[dir].verdicts == outside[dir]
        }
    &&& forall|d: Seq<Seq<char>>|
        #![trigger usable(w, texts, d)]
        l.paths_map().contains_key(d.push(gitignore_name())) && usable(w, texts, d) is Some ==> {
            &&& l.ignores().contains_key(root + d)
            &&& l.ignores()[root + d].verdicts == usable(w, texts, d)->0
        }
    &&& are_usable(l, tree, texts)
    &&& are_written(l)
    &&& forall|dir: Seq<Seq<char>>| #[trigger]
        l.ignores().contains_key(dir) ==> l.ignores()[dir].scan_id <= l.scan()
}

/// Whether no ignore file is known of a directory whose ignore file is there but cannot be used.
pub open spec fn are_usable(l: LocalSnapshot, tree: FsTree, texts: FsTexts) -> bool {
    forall|d: Seq<Seq<char>>|
        #![trigger usable(l.root_text(), texts, d)]
        l.ignores().contains_key(root_of(l) + d) && tree.contains_key(d.push(gitignore_name()))
            ==> usable(l.root_text(), texts, d) is Some
}

/// Whether the paths of all entries are relative.
pub open spec fn are_relative(paths: ByPath) -> bool {
    forall|p: Seq<Seq<char>>| #[trigger] paths.contains_key(p) ==> is_relative(paths[p])
}

/// Whether a snapshot reflects a file system but for the directories that a first scan has still
/// to read: the entries are what a scan comes to, each with what the file system says of it and
/// with the status that the ignore files give it, and the ignore files are those of the file
/// system.
pub open spec fn is_being_scanned(
    l: LocalSnapshot,
    tree: FsTree,
    texts: FsTexts,
    outside: Outside,
    jobs: Seq<ScanJob>,
) -> bool {
    &&& root_of(l).len() > 0
    &&& agrees(l.paths_map(), tree, jobs)
    &&& are_relative(l.paths_map())
    &&& are_right(l.paths_map(), l.ignores(), l.root_text())
    &&& forall|j: int|
        #![trigger jobs[j]]
        0 <= j < jobs.len() ==> is_rightly_stacked(l.ignores(), l.root_text(), jobs[j])
    &&& knows_ignores(l, tree, texts, outside)
    &&& forall|dir: Seq<Seq<char>>| !#[trigger] is_stale_dir(l, dir)
}

/// Whether a snapshot reflects a file system.
pub open spec fn reflects(l: LocalSnapshot, tree: FsTree, texts: FsTexts, outside: Outside) -> bool {
    is_being_scanned(l, tree, texts, outside, Seq::empty())
}

/// Whether a snapshot reflects a file system while events are brought in: but for the directories
/// that are still to be read, and for the statuses in directories whose ignore files changed.
pub open spec fn is_being_updated(
    l: LocalSnapshot,
    tree: FsTree,
    texts: FsTexts,
    outside: Outside,
    jobs: Seq<ScanJob>,
) -> bool {
    &&& root_of(l).len() > 0
    &&& agrees(l.paths_map(), tree, jobs)
    &&& are_relative(l.paths_map())
    &&& are_right_elsewhere(l)
    &&& forall|j: int|
        #![trigger jobs[j]]
        0 <= j < jobs.len() ==> is_stacked_elsewhere(l, jobs[j])
    &&& knows_ignores(l, tree, texts, outside)
}

/// Whether the children of a directory, and the text of its ignore file, are read as the file
/// system has them.
pub open spec fn is_read_from(
    tree: FsTree,
    texts: FsTexts,
    dir: Seq<Seq<char>>,
    children: Seq<DirChild>,
) -> bool {
    &&& lists(tree, dir, children)
    &&& forall|i: int|
        #![trigger children[i]]
        0 <= i < children.len() && children[i].metadata is Some && children[i].name@
            == gitignore_name() ==> text_of(children[i].contents) == text_at(
            texts,
            dir.push(gitignore_name()),
        )
}

/// The text at a path, where there is one that can be read.
pub open spec fn text_at(texts: FsTexts, p: Seq<Seq<char>>) -> Option<Seq<char>> {
    if texts.contains_key(p) {
        Some(texts[p])
    } else {
        None
    }
}

/// Whether a snapshot, and the directories that are to be read, are what others become where one
/// of the directories is read.
pub open spec fn is_dir_scanned(
    before: LocalSnapshot,
    jobs: Seq<ScanJob>,
    k: int,
    children: Seq<DirChild>,
    id: usize,
    es: Seq<Entry>,
    repo: Option<u64>,
    new_jobs: Seq<ScanJob>,
    after: LocalSnapshot,
) -> bool {
    let dir = jobs[k].abs_path@;
    let rules = dir_rules(jobs[k].ignore_stack@, dir, children);
    let ancestors = jobs[k].ancestor_inodes@;
    &&& 0 <= k < jobs.len()
    &&& are_child_entries(es, jobs[k], rules, found(children), before.snap().root_chars(), id)
    &&& is_dir_populated(before, jobs[k].path, es, dir_verdicts(dir, children), repo, after)
    &&& are_child_jobs(
        new_jobs,
        jobs[k],
        rules,
        children.filter(|c: DirChild| is_to_read(c, ancestors)),
    )
}

/// Paths from one root differ where what is left of them does.
pub proof fn lemma_same_behind(root: Seq<Seq<char>>, a: Seq<Seq<char>>, b: Seq<Seq<char>>)
    ensures
        root + a == root + b <==> a == b,
        nested_in(root + a, root),
{
    let n = root.len() as int;
    if root + a == root + b {
        assert(a =~= b) by {
            assert((root + a).len() == (root + b).len());
            assert forall|i: int| 0 <= i < a.len() implies a[i] == b[i] by {
                assert((root + a)[n + i] == (root + b)[n + i]);
            }
        }
    }
    assert(root =~= (root + a).subrange(0, n));
}

/// What a directory that was read says of paths: what its ignore file says, where it has one.
proof fn lemma_verdicts_of(abs: Seq<char>, children: Seq<DirChild>, i: int)
    requires
        are_named_apart(children),
        0 <= i < children.len(),
        children[i].name@ == gitignore_name(),
    ensures
        dir_verdicts(abs, children) == child_verdicts(abs, children[i]),
    decreases children.len(),
{
    let t = children.drop_last();
    let last = children.len() - 1;
    assert forall|a: int, b: int| #![trigger t[a], t[b]] 0 <= a < b < t.len() implies t[a].name@
        != t[b].name@ by {
        assert(t[a] == children[a] && t[b] == children[b]);
    }
    if i < last {
        assert(children[i].name@ != children[last].name@);
        assert(t[i] == children[i]);
        lemma_verdicts_of(abs, t, i);
    } else {
        assert forall|a: int| #![trigger t[a]] 0 <= a < t.len() implies t[a].name@ != gitignore_name() by {
            assert(t[a] == children[a]);
            assert(children[a].name@ != children[last].name@);
        }
        lemma_no_verdicts(abs, t);
    }
}

/// A directory without an ignore file says nothing.
proof fn lemma_no_verdicts(abs: Seq<char>, children: Seq<DirChild>)
    requires
        forall|a: int|
            #![trigger children[a]]
            0 <= a < children.len() ==> children[a].metadata is None || children[a].name@
                != gitignore_name(),
    ensures
        dir_verdicts(abs, children) is None,
    decreases children.len(),
{
    if children.len() > 0 {
        let t = children.drop_last();
        assert forall|a: int| #![trigger t[a]] 0 <= a < t.len() implies t[a].metadata is None || t[a].name@
            != gitignore_name() by {
            assert(t[a] == children[a]);
        }
        lemma_no_verdicts(abs, t);
        assert(children[children.len() - 1] == children.last());
    }
}

/// What a directory that was read says of paths is what its ignore file says, where there is one
/// that can be read.
pub proof fn lemma_read_verdicts(
    tree: FsTree,
    texts: FsTexts,
    abs: Seq<char>,
    dir: Seq<Seq<char>>,
    children: Seq<DirChild>,
)
    requires
        are_texts_of(tree, texts),
        is_read_from(tree, texts, dir, children),
    ensures
        dir_verdicts(abs, children) == match text_at(texts, dir.push(gitignore_name())) {
            Some(t) => file_verdicts(join_text(abs, gitignore_name()), t),
            None => None,
        },
{
    let file = dir.push(gitignore_name());
    if tree.contains_key(file) {
        let i = choose|i: int|
            #![trigger children[i]]
            0 <= i < children.len() && children[i].name@ == gitignore_name()
                && children[i].metadata is Some;
        lemma_verdicts_of(abs, children, i);
        assert(text_of(children[i].contents) == text_at(texts, file));
    } else {
        assert(!texts.contains_key(file));
        assert forall|a: int|
            #![trigger children[a]]
            0 <= a < children.len() implies children[a].metadata is None || children[a].name@
            != gitignore_name() by {
        }
        lemma_no_verdicts(abs, children);
    }
}

/// What a directory that was read says of paths is what its usable ignore file says.
proof fn lemma_reads_usable(
    tree: FsTree,
    texts: FsTexts,
    root: Seq<char>,
    dir: Seq<Seq<char>>,
    abs: Seq<char>,
    children: Seq<DirChild>,
)
    requires
        are_texts_of(tree, texts),
        is_read_from(tree, texts, dir, children),
        is_plain(dir),
        is_at(root, dir, abs),
    ensures
        dir_verdicts(abs, children) == usable(root, texts, dir),
{
    lemma_git_names();
    lemma_place_child(root, dir, abs, gitignore_name());
    lemma_read_verdicts(tree, texts, abs, dir, children);
}

/// Ignore files stay those of the file system where the one of a directory is read.
proof fn lemma_knows_more(
    before: LocalSnapshot,
    tree: FsTree,
    texts: FsTexts,
    outside: Outside,
    dir: Seq<Seq<char>>,
    t: Seq<char>,
    after: LocalSnapshot,
)
    requires
        knows_ignores(before, tree, texts, outside),
        after.root_text() == before.root_text(),
        after.scan() == before.scan(),
        components(t) == root_of(before) + dir,
        trimmed(t) == trimmed(place(before.root_text(), dir)),
        after.ignores() == match usable(before.root_text(), texts, dir) {
            Some(verdicts) => with_ignore(before.ignores(), t, verdicts, before.scan()),
            None => before.ignores(),
        },
        forall|d: Seq<Seq<char>>| #[trigger]
            after.paths_map().contains_key(d.push(gitignore_name())) && d != dir
                ==> before.paths_map().contains_key(d.push(gitignore_name())),
    ensures
        knows_ignores(after, tree, texts, outside),
{
    let root = root_of(before);
    let w = before.root_text();
    lemma_same_behind(root, dir, dir);
    assert forall|d: Seq<Seq<char>>|
        #![trigger usable(w, texts, d)]
        after.paths_map().contains_key(d.push(gitignore_name())) && usable(
            w,
            texts,
            d,
        ) is Some implies {
        &&& after.ignores().contains_key(root + d)
        &&& after.ignores()[root + d].verdicts == usable(w, texts, d)->0
    } by {
        lemma_same_behind(root, d, dir);
    }
    assert forall|d: Seq<Seq<char>>|
        #![trigger usable(w, texts, d)]
        after.ignores().contains_key(root + d) && tree.contains_key(
            d.push(gitignore_name()),
        ) implies usable(w, texts, d) is Some by {
        lemma_same_behind(root, d, dir);
        if d != dir {
            assert(before.ignores().contains_key(root + d));
        }
    }
    assert forall|d: Seq<Seq<char>>|
        #![trigger after.ignores().contains_key(d)]
        #![trigger outside.contains_key(d)]
        !nested_in(d, root) implies {
        &&& after.ignores().contains_key(d) <==> outside.contains_key(d)
        &&& outside.contains_key(d) ==> after.ignores()[d].verdicts == outside[d]
    } by {
        assert(before.ignores().contains_key(d) <==> outside.contains_key(d));
    }
    assert forall|d: Seq<Seq<char>>| #[trigger]
        after.ignores().contains_key(d) && nested_in(d, root) implies after.ignores()[d].text
        == trimmed(place(w, relative(after, d))) by {
        if !before.ignores().contains_key(d) {
            assert(relative(after, d) =~= dir);
        }
    }
}

/// The ignore files that are known stay those of the file system where a directory is read, and
/// the paths of entries stay relative.
proof fn lemma_scan_knows(
    tree: FsTree,
    texts: FsTexts,
    outside: Outside,
    before: LocalSnapshot,
    jobs: Seq<ScanJob>,
    k: int,
    children: Seq<DirChild>,
    id: usize,
    es: Seq<Entry>,
    repo: Option<u64>,
    new_jobs: Seq<ScanJob>,
    after: LocalSnapshot,
)
    requires
        are_texts_of(tree, texts),
        0 <= k < jobs.len(),
        is_pending(before.paths_map(), tree, jobs[k]),
        is_relative_path(jobs[k].path),
        is_at(before.root_text(), jobs[k].path.comps(), jobs[k].abs_path@),
        are_relative(before.paths_map()),
        knows_ignores(before, tree, texts, outside),
        is_read_from(tree, texts, jobs[k].path.comps(), children),
        is_dir_scanned(before, jobs, k, children, id, es, repo, new_jobs, after),
    ensures
        knows_ignores(after, tree, texts, outside),
        are_relative(after.paths_map()),
        after.root_text() == before.root_text(),
        dir_verdicts(jobs[k].abs_path@, children) == usable(
            before.root_text(),
            texts,
            jobs[k].path.comps(),
        ),
{
    let job = jobs[k];
    let dir = job.path.comps();
    let abs = job.abs_path@;
    let root = before.root_text();
    let chars = before.snap().root_chars();
    let rules = dir_rules(job.ignore_stack@, abs, children);
    lemma_is_read(tree, before, job, rules, children, chars, id, es, repo, after);
    lemma_reads_usable(tree, texts, root, dir, abs, children);
    lemma_place(root, dir);
    assert forall|d: Seq<Seq<char>>| #[trigger]
        after.paths_map().contains_key(d.push(gitignore_name())) && d
            != dir implies before.paths_map().contains_key(d.push(gitignore_name())) by {
        assert(d.push(gitignore_name()).drop_last() =~= d);
    }
    lemma_knows_more(before, tree, texts, outside, dir, place(root, dir), after);
    let rs = choose|rs: Seq<Entry>| #[trigger] is_populated(before, dir, es, rs, after);
    let seen = |c: DirChild| c.metadata is Some;
    lemma_filter_apart(children, seen);
    assert forall|p: Seq<Seq<char>>| #[trigger] after.paths_map().contains_key(p) implies is_relative(
        after.paths_map()[p],
    ) by {
        crate::entry_laws::lemma_populated_path(before, dir, es, rs, p);
        if entries_by_path(rs).contains_key(p) {
            let i = choose|i: int|
                #![trigger rs[i]]
                0 <= i < rs.len() && rs[i].comps() == p && after.paths_map()[p] == rs[i];
            assert(same_but_id(rs[i], es[i]));
            let c = found(children)[i];
            assert(is_child_entry(es[i], job, rules, c, chars));
            let x = choose|x: int| 0 <= x < children.len() && children[x] == c;
            assert(is_file_name(children[x].name@));
            lemma_child_relative(job.path, c.name@, es[i].path);
            lemma_relative_entry(rs[i]);
        } else {
            lemma_relative_entry(before.paths_map()[p]);
            lemma_relative_entry(after.paths_map()[p]);
        }
    }
}

/// Reading a directory in a first scan leaves the snapshot reflecting the file system, but for the
/// directories that are then to be read.
pub proof fn law_first_scan_step(
    tree: FsTree,
    texts: FsTexts,
    outside: Outside,
    before: LocalSnapshot,
    jobs: Seq<ScanJob>,
    k: int,
    children: Seq<DirChild>,
    id: usize,
    es: Seq<Entry>,
    repo: Option<u64>,
    new_jobs: Seq<ScanJob>,
    after: LocalSnapshot,
)
    requires
        is_fs_tree(tree),
        are_texts_of(tree, texts),
        is_being_scanned(before, tree, texts, outside, jobs),
        is_dir_scanned(before, jobs, k, children, id, es, repo, new_jobs, after),
        is_read_from(tree, texts, jobs[k].path.comps(), children),
    ensures
        is_being_scanned(after, tree, texts, outside, jobs.remove(k) + new_jobs),
{
    let chars = before.snap().root_chars();
    let rules = dir_rules(jobs[k].ignore_stack@, jobs[k].abs_path@, children);
    let verdicts = dir_verdicts(jobs[k].abs_path@, children);
    assert(is_rightly_stacked(before.ignores(), before.root_text(), jobs[k]));
    assert(is_pending(before.paths_map(), tree, jobs[k]));
    law_scan_step(
        tree,
        before,
        jobs,
        k,
        rules,
        children,
        chars,
        id,
        es,
        verdicts,
        repo,
        new_jobs,
        after,
    );
    law_scan_finds_statuses(
        tree,
        before,
        jobs,
        k,
        children,
        chars,
        id,
        es,
        repo,
        new_jobs,
        after,
    );
    lemma_scan_knows(
        tree,
        texts,
        outside,
        before,
        jobs,
        k,
        children,
        id,
        es,
        repo,
        new_jobs,
        after,
    );
    assert forall|dir: Seq<Seq<char>>| !#[trigger] is_stale_dir(after, dir) by {
        if is_stale_dir(after, dir) {
            law_scan_keeps_ignore_files(
                tree,
                before,
                jobs[k],
                rules,
                children,
                chars,
                id,
                es,
                repo,
                after,
                dir,
            );
        }
    }
}

/// Reading a directory while events are brought in leaves the snapshot reflecting the file system,
/// but for what is still to be done.
pub proof fn law_update_step(
    tree: FsTree,
    texts: FsTexts,
    outside: Outside,
    before: LocalSnapshot,
    jobs: Seq<ScanJob>,
    k: int,
    children: Seq<DirChild>,
    id: usize,
    es: Seq<Entry>,
    repo: Option<u64>,
    new_jobs: Seq<ScanJob>,
    after: LocalSnapshot,
)
    requires
        is_fs_tree(tree),
        are_texts_of(tree, texts),
        is_being_updated(before, tree, texts, outside, jobs),
        is_dir_scanned(before, jobs, k, children, id, es, repo, new_jobs, after),
        is_read_from(tree, texts, jobs[k].path.comps(), children),
    ensures
        is_being_updated(after, tree, texts, outside, jobs.remove(k) + new_jobs),
{
    let chars = before.snap().root_chars();
    let dir = jobs[k].path.comps();
    let rules = dir_rules(jobs[k].ignore_stack@, jobs[k].abs_path@, children);
    let verdicts = dir_verdicts(jobs[k].abs_path@, children);
    assert(is_stacked_elsewhere(before, jobs[k]));
    assert(is_pending(before.paths_map(), tree, jobs[k]));
    law_scan_step(
        tree,
        before,
        jobs,
        k,
        rules,
        children,
        chars,
        id,
        es,
        verdicts,
        repo,
        new_jobs,
        after,
    );
    lemma_scan_knows(
        tree,
        texts,
        outside,
        before,
        jobs,
        k,
        children,
        id,
        es,
        repo,
        new_jobs,
        after,
    );
    law_rescan_finds_statuses(
        tree,
        before,
        jobs,
        k,
        children,
        chars,
        id,
        es,
        repo,
        new_jobs,
        after,
    );
}

/// What the ignore files above a worktree say, by the directories that hold them. `above` holds
/// their texts, that of the nearest directory first.
pub open spec fn outside_of(root: Seq<char>, above: Seq<Option<String>>) -> Outside {
    ignores_above(Ignores::empty(), root, above, above.len() as int).map_values(
        |r: IgnoreRule| r.verdicts,
    )
}

/// The ignore files that are read before the first scan count as unchanged since ever.
proof fn lemma_above_unchanged(
    root: Seq<char>,
    above: Seq<Option<String>>,
    n: int,
    dir: Seq<Seq<char>>,
)
    requires
        0 <= n,
        ignores_above(Ignores::empty(), root, above, n).contains_key(dir),
    ensures
        ignores_above(Ignores::empty(), root, above, n)[dir].scan_id == 0,
    decreases n,
{
    if n > 0 {
        if ignores_above(Ignores::empty(), root, above, n - 1).contains_key(dir) {
            lemma_above_unchanged(root, above, n - 1, dir);
        }
    }
}

/// A first scan of a directory begins with a snapshot that reflects the file system, but for the
/// root, which is still to be read.
pub proof fn law_first_scan_begins(
    tree: FsTree,
    texts: FsTexts,
    before: LocalSnapshot,
    above: Seq<Option<String>>,
    job: ScanJob,
    after: LocalSnapshot,
)
    requires
        is_fs_tree(tree),
        root_of(before).len() > 0,
        before.paths_map() == ByPath::empty().insert(
            Seq::empty(),
            before.paths_map()[Seq::empty()],
        ),
        before.ignores() == Ignores::empty(),
        before.paths_map()[Seq::empty()].kind is PendingDir,
        before.paths_map()[Seq::empty()].path@ == Seq::<char>::empty(),
        !before.paths_map()[Seq::empty()].is_ignored,
        tree.contains_key(Seq::empty()),
        tells(before.paths_map()[Seq::empty()], tree[Seq::empty()]),
        after.snap().same_tree(before.snap()),
        above.len() <= root_of(before).len(),
        after.ignores() == ignores_above(
            before.ignores(),
            before.root_text(),
            above,
            above.len() as int,
        ),
        is_root_marked(before, after),
        is_root_job(job, after, tree[Seq::empty()].inode),
    ensures
        is_being_scanned(after, tree, texts, outside_of(before.root_text(), above), seq![job]),
{
    let top = Seq::<Seq<char>>::empty();
    let root = root_of(before);
    let w = before.root_text();
    let outside = outside_of(w, above);
    let jobs = seq![job];
    law_scan_begins(tree, before, Some(job), after);
    law_scan_begins_right(before, above, tree[top].inode, job, after);
    crate::traversal::lemma_components_empty();
    assert(root + job.path.comps() =~= root);
    assert forall|dir: Seq<Seq<char>>| #[trigger]
        after.ignores().contains_key(dir) implies after.ignores()[dir].scan_id <= after.scan()
        && !nested_in(dir, root) by {
        lemma_above_unchanged(w, above, above.len() as int, dir);
    }
    assert forall|d: Seq<Seq<char>>|
        #![trigger usable(w, texts, d)]
        after.ignores().contains_key(root + d) && tree.contains_key(
            d.push(gitignore_name()),
        ) implies usable(w, texts, d) is Some by {
        lemma_same_behind(root, d, d);
    }
    assert(after.paths_map().dom() =~= before.paths_map().dom());
    assert forall|p: Seq<Seq<char>>| #[trigger] after.paths_map().contains_key(p) implies p == top by {
        assert(before.paths_map().contains_key(p));
    }
    assert forall|d: Seq<Seq<char>>|
        #![trigger usable(w, texts, d)]
        !after.paths_map().contains_key(d.push(gitignore_name())) by {
        assert(d.push(gitignore_name()).len() > 0);
    }
    assert(is_relative(after.paths_map()[top])) by {
        reveal(is_relative);
    }
    assert forall|dir: Seq<Seq<char>>| !#[trigger] is_stale_dir(after, dir) by {
        if is_stale_dir(after, dir) {
            assert(after.ignores().contains_key(dir));
        }
    }
    assert(jobs[0] == job);
}

/// Whether the texts of ignore files differ in the paths of events only.
pub open spec fn texts_differ_at(
    old_texts: FsTexts,
    texts: FsTexts,
    root: Seq<Seq<char>>,
    events: Seq<FsEvent>,
) -> bool {
    forall|p: Seq<Seq<char>>|
        #![trigger text_at(texts, p)]
        !is_touched(root, events, events.len() as int, p) ==> text_at(old_texts, p) == text_at(
            texts,
            p,
        )
}

/// Whether events come with the texts of the ignore files at their paths.
pub open spec fn are_texts_told(texts: FsTexts, root: Seq<Seq<char>>, events: Seq<FsEvent>) -> bool {
    forall|i: int|
        #![trigger events[i]]
        0 <= i < events.len() && nested_in(events[i].path.comps(), root) && event_path(
            root,
            events[i],
        ).len() > 0 && event_path(root, events[i]).last() == gitignore_name() ==> text_of(
            events[i].contents,
        ) == text_at(texts, event_path(root, events[i]))
}

/// Whether events tell what a file system has become: there is one for everything that changed,
/// with what the file system says by now, and none lies in the path of another one. They are plainly
/// written behind the root, and a scan comes to those that are there.
pub open spec fn are_changes_told(
    old_tree: FsTree,
    old_texts: FsTexts,
    tree: FsTree,
    texts: FsTexts,
    root: Seq<Seq<char>>,
    events: Seq<FsEvent>,
) -> bool {
    &&& is_fs_tree(old_tree)
    &&& is_fs_tree(tree)
    &&& are_texts_of(tree, texts)
    &&& differ_at(old_tree, tree, root, events)
    &&& texts_differ_at(old_texts, texts, root, events)
    &&& are_told(tree, root, events)
    &&& are_texts_told(texts, root, events)
    &&& are_apart(events)
    &&& are_plain(root, events)
    &&& are_in_reach(tree, root, events)
}

/// Taking paths out leaves the rules of ignore files as they are.
proof fn lemma_removed_ignores(
    removed: Seq<LocalSnapshot>,
    root: Seq<Seq<char>>,
    events: Seq<FsEvent>,
    n: int,
)
    requires
        are_paths_removed(removed, root, events),
        0 <= n <= events.len(),
    ensures
        removed[n].root_text() == removed[0].root_text(),
        removed[n].scan() == removed[0].scan(),
        forall|dir: Seq<Seq<char>>|
            #![trigger removed[n].ignores().contains_key(dir)]
            #![trigger removed[0].ignores().contains_key(dir)]
            {
                &&& removed[n].ignores().contains_key(dir) <==> removed[0].ignores().contains_key(
                    dir,
                )
                &&& removed[0].ignores().contains_key(dir) ==> {
                    &&& removed[n].ignores()[dir].text == removed[0].ignores()[dir].text
                    &&& removed[n].ignores()[dir].verdicts == removed[0].ignores()[dir].verdicts
                    &&& removed[n].ignores()[dir].scan_id == removed[0].ignores()[dir].scan_id
                        || removed[n].ignores()[dir].scan_id == removed[0].scan()
                }
            },
    decreases n,
{
    if n > 0 {
        let k = n - 1;
        lemma_removed_ignores(removed, root, events, k);
        assert(removed[n] == removed[k + 1]);
        assert(nested_in(events[k].path.comps(), root) || removed[k + 1] == removed[k]);
        assert forall|dir: Seq<Seq<char>>|
            #![trigger removed[n].ignores().contains_key(dir)]
            #![trigger removed[0].ignores().contains_key(dir)]
            {
                &&& removed[n].ignores().contains_key(dir) <==> removed[0].ignores().contains_key(
                    dir,
                )
                &&& removed[0].ignores().contains_key(dir) ==> {
                    &&& removed[n].ignores()[dir].text == removed[0].ignores()[dir].text
                    &&& removed[n].ignores()[dir].verdicts == removed[0].ignores()[dir].verdicts
                    &&& removed[n].ignores()[dir].scan_id == removed[0].ignores()[dir].scan_id
                        || removed[n].ignores()[dir].scan_id == removed[0].scan()
                }
            } by {
            assert(removed[k].ignores().contains_key(dir) <==> removed[0].ignores().contains_key(dir));
        }
    }
}

/// Where the event of a path is handled, the ignore files stay those of the file system, and the
/// paths of entries stay relative.
proof fn lemma_event_knows(
    tree: FsTree,
    texts: FsTexts,
    outside: Outside,
    before: LocalSnapshot,
    root: Seq<Seq<char>>,
    events: Seq<FsEvent>,
    k: int,
    id: usize,
    outcome: EventOutcome,
    after: LocalSnapshot,
    next_id: usize,
)
    requires
        are_texts_of(tree, texts),
        are_told(tree, root, events),
        are_texts_told(texts, root, events),
        are_plain(root, events),
        0 <= k < events.len(),
        knows_ignores(before, tree, texts, outside),
        are_relative(before.paths_map()),
        is_step(before, root, events[k], id, outcome, after, next_id),
    ensures
        knows_ignores(after, tree, texts, outside),
        are_relative(after.paths_map()),
        after.root_text() == before.root_text(),
        after.scan() == before.scan(),
{
    let event = events[k];
    if nested_in(event.path.comps(), root) && event.metadata is Some {
        let q = event_path(root, event);
        let top = root_of(before);
        let w = before.root_text();
        let path = choose|path: Arc<Path>|
            {
                &&& path.comps() == event.path.comps().skip(root.len() as int)
                &&& path@ == text_behind(event.path@, root.len() as int)
                &&& #[trigger] is_event_handled(before, path, event, id, outcome, after, next_id)
            };
        let m = event.metadata->0;
        let (e, r, between) = choose|e: Entry, r: Entry, between: LocalSnapshot|
            {
                &&& #[trigger] is_event_entry(e, before, path, m, id)
                &&& #[trigger] is_with_entry(before, e, text_of(event.contents), r, between)
                &&& after.snap() == between.snap()
                &&& after.ignores() == between.ignores()
                &&& after.removed() == between.removed()
                &&& are_repos_touched(
                    between.repos(),
                    path.comps(),
                    before.scan(),
                    outcome.reload,
                    after.repos(),
                )
            };
        assert(is_plain(q));
        assert(e.comps() == q && r.path == e.path);
        assert(tree.contains_key(q) && tree[q] == m);
        if q.len() > 0 && q.last() == gitignore_name() {
            let dir = q.drop_last();
            lemma_git_names();
            assert(dir.push(gitignore_name()) =~= q);
            lemma_place_above(w, q);
            assert(text_of(event.contents) == text_at(texts, q));
            assert forall|d: Seq<Seq<char>>| #[trigger]
                after.paths_map().contains_key(d.push(gitignore_name())) && d
                    != dir implies before.paths_map().contains_key(d.push(gitignore_name())) by {
                assert(d.push(gitignore_name()).drop_last() =~= d);
            }
            lemma_knows_more(
                before,
                tree,
                texts,
                outside,
                dir,
                trimmed(place(w, dir)),
                after,
            );
        } else {
            assert(after.ignores() == before.ignores());
            assert forall|d: Seq<Seq<char>>| #[trigger]
                after.paths_map().contains_key(
                    d.push(gitignore_name()),
                ) implies before.paths_map().contains_key(d.push(gitignore_name())) by {
                assert(d.push(gitignore_name()).last() == gitignore_name());
            }
            assert forall|d: Seq<Seq<char>>|
                #![trigger usable(w, texts, d)]
                after.paths_map().contains_key(d.push(gitignore_name())) && usable(
                    w,
                    texts,
                    d,
                ) is Some implies {
                &&& after.ignores().contains_key(top + d)
                &&& after.ignores()[top + d].verdicts == usable(w, texts, d)->0
            } by {
            }
        }
        assert forall|p: Seq<Seq<char>>| #[trigger] after.paths_map().contains_key(
            p,
        ) implies is_relative(after.paths_map()[p]) by {
            if p != q {
                assert(before.paths_map().contains_key(p));
            } else {
                lemma_relative_entry(r);
            }
        }
    }
}

/// Where events are handled, the ignore files stay those of the file system.
proof fn lemma_handled_knows(
    tree: FsTree,
    texts: FsTexts,
    outside: Outside,
    root: Seq<Seq<char>>,
    events: Seq<FsEvent>,
    outcomes: Seq<EventOutcome>,
    handled: Seq<LocalSnapshot>,
    ids: Seq<usize>,
    n: int,
)
    requires
        are_texts_of(tree, texts),
        are_told(tree, root, events),
        are_texts_told(texts, root, events),
        are_plain(root, events),
        are_events_handled(handled, ids, root, events, outcomes),
        knows_ignores(handled[0], tree, texts, outside),
        are_relative(handled[0].paths_map()),
        0 <= n <= events.len(),
    ensures
        knows_ignores(handled[n], tree, texts, outside),
        are_relative(handled[n].paths_map()),
    decreases n,
{
    if n > 0 {
        let k = n - 1;
        lemma_handled_knows(tree, texts, outside, root, events, outcomes, handled, ids, k);
        assert(is_step(
            handled[k],
            root,
            events[k],
            ids[k],
            outcomes[k],
            handled[k + 1],
            ids[k + 1],
        ));
        lemma_event_knows(
            tree,
            texts,
            outside,
            handled[k],
            root,
            events,
            k,
            ids[k],
            outcomes[k],
            handled[k + 1],
            ids[k + 1],
        );
    }
}

/// Events that tell what the file system has become leave a snapshot reflecting it, but for what
/// is still to be done. This holds where no ignore file that is known has become one that cannot
/// be used.
#[verifier::rlimit(50)]
pub proof fn law_events_begin_update(
    old_tree: FsTree,
    old_texts: FsTexts,
    tree: FsTree,
    texts: FsTexts,
    outside: Outside,
    before: LocalSnapshot,
    started: LocalSnapshot,
    root: Seq<Seq<char>>,
    events: Seq<FsEvent>,
    id: usize,
    outcomes: Seq<EventOutcome>,
    after: LocalSnapshot,
    next_id: usize,
    removed: Seq<LocalSnapshot>,
    handled: Seq<LocalSnapshot>,
    ids: Seq<usize>,
)
    requires
        reflects(before, old_tree, old_texts, outside),
        are_changes_told(old_tree, old_texts, tree, texts, root, events),
        are_usable(before, tree, texts),
        started.is_rescanned(before),
        started.scan() == before.scan() + 1,
        are_events_applied(
            started,
            root,
            events,
            id,
            outcomes,
            after,
            next_id,
            removed,
            handled,
            ids,
        ),
    ensures
        is_being_updated(after, tree, texts, outside, jobs_of(outcomes)),
{
    let n = events.len() as int;
    let top = root_of(before);
    let w = before.root_text();
    assert(removed[n] == removed.last());
    assert(handled[n] == handled.last());
    law_next_scan_is_settled(before, started);
    law_events_bring_agreement(
        old_tree,
        tree,
        started,
        root,
        events,
        id,
        outcomes,
        after,
        next_id,
        removed,
        handled,
        ids,
    );
    law_events_find_statuses(
        tree,
        started,
        root,
        events,
        id,
        outcomes,
        after,
        next_id,
        removed,
        handled,
        ids,
    );
    lemma_removed_ignores(removed, root, events, n);
    let l = removed[n];
    assert forall|d: Seq<Seq<char>>|
        #![trigger usable(w, texts, d)]
        l.paths_map().contains_key(d.push(gitignore_name())) && usable(w, texts, d) is Some implies {
        &&& l.ignores().contains_key(top + d)
        &&& l.ignores()[top + d].verdicts == usable(w, texts, d)->0
    } by {
        let file = d.push(gitignore_name());
        lemma_removed_paths(removed, root, events, n, file);
        assert(text_at(old_texts, file) == text_at(texts, file));
        assert(usable(w, old_texts, d) == usable(w, texts, d));
        assert(started.ignores().contains_key(top + d));
    }
    assert forall|d: Seq<Seq<char>>|
        #![trigger usable(w, texts, d)]
        l.ignores().contains_key(top + d) && tree.contains_key(
            d.push(gitignore_name()),
        ) implies usable(w, texts, d) is Some by {
        assert(started.ignores().contains_key(top + d));
    }
    assert forall|dir: Seq<Seq<char>>|
        #![trigger l.ignores().contains_key(dir)]
        #![trigger outside.contains_key(dir)]
        !nested_in(dir, top) implies {
        &&& l.ignores().contains_key(dir) <==> outside.contains_key(dir)
        &&& outside.contains_key(dir) ==> l.ignores()[dir].verdicts == outside[dir]
    } by {
        assert(started.ignores().contains_key(dir) <==> outside.contains_key(dir));
    }
    assert forall|dir: Seq<Seq<char>>| #[trigger]
        l.ignores().contains_key(dir) && nested_in(dir, top) implies l.ignores()[dir].text
        == trimmed(place(w, relative(l, dir))) by {
        assert(started.ignores().contains_key(dir));
        assert(relative(l, dir) == relative(before, dir));
    }
    assert(knows_ignores(l, tree, texts, outside));
    assert forall|p: Seq<Seq<char>>| #[trigger] l.paths_map().contains_key(p) implies is_relative(
        l.paths_map()[p],
    ) by {
        lemma_removed_paths(removed, root, events, n, p);
    }
    lemma_handled_knows(tree, texts, outside, root, events, outcomes, handled, ids, n);
}

/// The entries of a snapshot that reflects a file system lie in a tree.
pub proof fn lemma_reflected_tree(paths: ByPath, tree: FsTree)
    requires
        is_fs_tree(tree),
        agrees(paths, tree, Seq::empty()),
        are_relative(paths),
    ensures
        is_tree(paths),
{
    assert forall|p: Seq<Seq<char>>| #[trigger] paths.contains_key(p) implies {
        &&& is_relative(paths[p])
        &&& p.len() > 0 ==> paths.contains_key(p.drop_last())
            && !paths[p.drop_last()].is_file_entry()
    } by {
        law_scan_finds_all(paths, tree, p);
        if p.len() > 0 {
            let up = p.drop_last();
            assert(is_in_dir(tree, p));
            if up.len() > 0 {
                lemma_entered_above(tree, up, up.len() - 1);
                assert(up.take(up.len() - 1) =~= up.drop_last());
            }
            law_scan_finds_all(paths, tree, up);
        }
    }
}

/// Where ignore files that are gone are forgotten, the known ones stay those of the file system.
proof fn lemma_fresh_knows(
    before: LocalSnapshot,
    tree: FsTree,
    texts: FsTexts,
    outside: Outside,
    after: LocalSnapshot,
)
    requires
        knows_ignores(before, tree, texts, outside),
        after.root_text() == before.root_text(),
        after.scan() == before.scan(),
        after.ignores() == fresh_ignores(before),
        after.paths_map().dom() == before.paths_map().dom(),
    ensures
        knows_ignores(after, tree, texts, outside),
{
    let top = root_of(before);
    let w = before.root_text();
    assert forall|d: Seq<Seq<char>>|
        #![trigger usable(w, texts, d)]
        after.paths_map().contains_key(d.push(gitignore_name())) && usable(
            w,
            texts,
            d,
        ) is Some implies {
        &&& after.ignores().contains_key(top + d)
        &&& after.ignores()[top + d].verdicts == usable(w, texts, d)->0
    } by {
        assert(before.paths_map().dom().contains(d.push(gitignore_name())));
        assert(before.paths_map().contains_key(d.push(gitignore_name())));
        lemma_same_behind(top, d, d);
        assert(relative(before, top + d) =~= d);
        assert(!is_stale_dir(before, top + d));
    }
    assert forall|dir: Seq<Seq<char>>|
        #![trigger after.ignores().contains_key(dir)]
        #![trigger outside.contains_key(dir)]
        !nested_in(dir, top) implies {
        &&& after.ignores().contains_key(dir) <==> outside.contains_key(dir)
        &&& outside.contains_key(dir) ==> after.ignores()[dir].verdicts == outside[dir]
    } by {
        assert(before.ignores().contains_key(dir) <==> outside.contains_key(dir));
        assert(!is_stale_dir(before, dir));
    }
}

/// Bringing statuses up to date leaves paths as they are written.
proof fn lemma_restated_relative(paths: ByPath, statuses: Statuses)
    requires
        are_relative(paths),
    ensures
        are_relative(restated(paths, statuses)),
{
    let np = restated(paths, statuses);
    assert forall|p: Seq<Seq<char>>| #[trigger] np.contains_key(p) implies is_relative(np[p]) by {
        assert(paths.contains_key(p));
        lemma_relative_entry(paths[p]);
        lemma_relative_entry(np[p]);
    }
}

/// Finishing a batch of events leaves the snapshot reflecting the file system.
#[verifier::rlimit(50)]
pub proof fn law_events_end_update(
    tree: FsTree,
    texts: FsTexts,
    outside: Outside,
    before: LocalSnapshot,
    dirs: Seq<Arc<Path>>,
    after: LocalSnapshot,
)
    requires
        is_fs_tree(tree),
        before.wf(),
        is_being_updated(before, tree, texts, outside, Seq::empty()),
        are_changed_dirs(before, dirs),
        after.snap().same_tree(before.snap()),
        after.scan() == before.scan(),
        after.ignores() == fresh_ignores(before),
        after.paths_map() == restated(
            before.paths_map(),
            dir_statuses(before, fresh_ignores(before), dirs, dirs.len() as int),
        ),
    ensures
        reflects(after, tree, texts, outside),
{
    let statuses = dir_statuses(before, fresh_ignores(before), dirs, dirs.len() as int);
    assert(is_tree(before.paths_map())) by {
        lemma_reflected_tree(before.paths_map(), tree);
    }
    law_finished_events_settle(before, dirs, after);
    law_statuses_keep_agreement(tree, before, statuses, after);
    lemma_restated_relative(before.paths_map(), statuses);
    assert(after.paths_map().dom() =~= before.paths_map().dom());
    lemma_fresh_knows(before, tree, texts, outside, after);
}

/// What the ignore files of a snapshot that reflects a file system say is settled by the file
/// system.
proof fn lemma_same_ignores(
    tree: FsTree,
    texts: FsTexts,
    outside: Outside,
    a: LocalSnapshot,
    b: LocalSnapshot,
    dir: Seq<Seq<char>>,
)
    requires
        a.root_text() == b.root_text(),
        reflects(a, tree, texts, outside),
        reflects(b, tree, texts, outside),
        a.ignores().contains_key(dir),
    ensures
        b.ignores().contains_key(dir),
        a.ignores()[dir].verdicts == b.ignores()[dir].verdicts,
{
    let root = root_of(a);
    if nested_in(dir, root) {
        let d = relative(a, dir);
        let file = d.push(gitignore_name());
        lemma_behind_root(a, dir);
        assert(!is_stale_dir(a, dir));
        law_scan_finds_all(a.paths_map(), tree, file);
        law_scan_finds_all(b.paths_map(), tree, file);
        assert(usable(a.root_text(), texts, d) is Some);
    } else {
        assert(outside.contains_key(dir));
    }
}

/// Two snapshots that reflect one file system hold entries for the same paths, with the same
/// inodes and statuses.
#[verifier::rlimit(50)]
pub proof fn law_reflections_are_equal(
    tree: FsTree,
    texts: FsTexts,
    outside: Outside,
    a: LocalSnapshot,
    b: LocalSnapshot,
)
    requires
        a.root_text() == b.root_text(),
        reflects(a, tree, texts, outside),
        reflects(b, tree, texts, outside),
    ensures
        a.paths_map().dom() == b.paths_map().dom(),
        forall|p: Seq<Seq<char>>| #[trigger]
            a.paths_map().contains_key(p) ==> {
                let x = a.paths_map()[p];
                let y = b.paths_map()[p];
                &&& x.inode == y.inode
                &&& x.is_ignored == y.is_ignored
                &&& x.is_file_entry() == y.is_file_entry()
                &&& x.is_file_entry() ==> x.mtime == y.mtime
                &&& x.is_symlink == y.is_symlink
            },
{
    let root = root_of(a);
    assert forall|p: Seq<Seq<char>>| a.paths_map().dom().contains(p) <==> b.paths_map().dom().contains(
        p,
    ) by {
        law_scan_finds_all(a.paths_map(), tree, p);
        law_scan_finds_all(b.paths_map(), tree, p);
    }
    assert(a.paths_map().dom() =~= b.paths_map().dom());
    assert forall|p: Seq<Seq<char>>| #[trigger] a.paths_map().contains_key(p) implies {
        let x = a.paths_map()[p];
        let y = b.paths_map()[p];
        &&& x.inode == y.inode
        &&& x.is_ignored == y.is_ignored
        &&& x.is_file_entry() == y.is_file_entry()
        &&& x.is_file_entry() ==> x.mtime == y.mtime
        &&& x.is_symlink == y.is_symlink
    } by {
        assert(b.paths_map().dom().contains(p));
        law_scan_finds_all(a.paths_map(), tree, p);
        law_scan_finds_all(b.paths_map(), tree, p);
        let path = root + p;
        assert forall|dir: Seq<Seq<char>>| #[trigger] lies_in(path, dir) implies agree_at(
            a.ignores(),
            b.ignores(),
            dir,
        ) by {
            if a.ignores().contains_key(dir) {
                lemma_same_ignores(tree, texts, outside, a, b, dir);
            }
            if b.ignores().contains_key(dir) {
                lemma_same_ignores(tree, texts, outside, b, a, dir);
            }
        }
        assert(is_right(a.paths_map(), a.ignores(), a.root_text(), p));
        assert(is_right(b.paths_map(), b.ignores(), b.root_text(), p));
        lemma_same_rules_at(a.ignores(), b.ignores(), a.root_text(), p);
    }
}

} // verus!
