//! What the handling of events finds out about ignored paths: once it is finished, whether an
//! entry is ignored is again what all the ignore files say.
use crate::entry::{Entry, Metadata};
use crate::event_laws::{
    are_apart, are_told, event_path, is_touched, jobs_of, lemma_event_paths_apart, lemma_jobs_of,
    lemma_not_there_yet, lemma_removed_paths,
};
use crate::events::{
    are_events_applied, are_events_handled, are_paths_removed, is_event_entry, is_event_handled,
    is_event_job, is_step, text_of, EventOutcome, FsEvent,
};
use crate::gitignore::Verdicts;
use crate::ignore_laws::{
    are_written, is_at, is_in_changed_dir, is_plain, is_right, is_tree, law_statuses_become_right,
    lemma_place, lemma_place_child, lemma_plain_child, lemma_plain_parent, lemma_rules_child, place,
    rules_below,
};
use crate::ignore_stack::{gitignore_name, lemma_git_names, IgnoreRules};
use crate::local_snapshot::{
    are_repos_touched, is_dir_populated, is_populated, is_with_entry, is_without_path,
    path_ignored, rules_above, rules_for, same_but_id, with_ignore, Ignores, LocalSnapshot,
};
use crate::path::{
    components, is_child_of, is_file_name, join_text, nested_in, render, root_length, Path,
};
use crate::path_lemmas::lemma_nested_transitive;
use crate::path_text::{
    lemma_first_of_child, lemma_first_written, lemma_trimmed, text_behind, text_of_first, trimmed,
};
use crate::scan_laws::{
    agrees, is_pending, lemma_child_paths, lemma_filter_apart, lies_in, lists, FsTree,
};
use crate::scanner::{
    are_child_entries, are_child_jobs, dir_rules, dir_verdicts, found, is_child_job, is_to_read,
    DirChild, ScanJob,
};
use crate::snapshot::entries_by_path;
use crate::status_laws::{
    are_right, is_relative_path, lemma_abs_of_relative, lemma_apart_from_root, lemma_child_relative,
    lemma_child_status, lemma_dir_rules,
};
use crate::statuses::{
    are_changed_dirs, dir_statuses, fresh_ignores, is_changed_dir, is_stale_dir, relative, restated,
};
use crate::update::lemma_entries_by_path;
use std::sync::Arc;
use vstd::prelude::*;

verus! {

/// The root of the worktree.
pub open spec fn root_of(l: LocalSnapshot) -> Seq<Seq<char>> {
    l.snap().root_path().comps()
}

/// Whether the ignore file of a directory of the worktree was changed by the current scan.
pub open spec fn is_marked(l: LocalSnapshot, dir: Seq<Seq<char>>) -> bool {
    &&& l.ignores().contains_key(dir)
    &&& nested_in(dir, root_of(l))
    &&& l.ignores()[dir].scan_id == l.scan()
}

/// Whether a path lies in a directory whose ignore file was changed by the current scan.
pub open spec fn is_below_marked(l: LocalSnapshot, p: Seq<Seq<char>>) -> bool {
    exists|dir: Seq<Seq<char>>| #[trigger] is_marked(l, dir) && lies_in(root_of(l) + p, dir)
}

/// Whether entries have names that can stand in directories, and the statuses that the ignore files
/// give them, but for those in directories whose ignore files changed.
pub open spec fn are_right_elsewhere(l: LocalSnapshot) -> bool {
    forall|p: Seq<Seq<char>>| #[trigger]
        l.paths_map().contains_key(p) && !is_below_marked(l, p) ==> is_right(
            l.paths_map(),
            fresh_ignores(l),
            l.root_text(),
            p,
        )
}

/// Whether a directory that is to be read comes with the ignore files that apply to it, unless it
/// lies in one whose ignore file changed.
pub open spec fn is_stacked_elsewhere(l: LocalSnapshot, job: ScanJob) -> bool {
    let abs = place(l.root_text(), job.path.comps());
    &&& is_relative_path(job.path)
    &&& is_at(l.root_text(), job.path.comps(), job.abs_path@)
    &&& !is_below_marked(l, job.path.comps()) ==> job.ignore_stack@ == if path_ignored(
        fresh_ignores(l),
        abs,
        true,
    ) {
        IgnoreRules::All
    } else {
        rules_for(fresh_ignores(l), abs)
    }
}

/// Whether every ignore file of the worktree is there, none was changed by the current scan, and
/// every entry has names that can stand in directories, and the status that they give it.
pub open spec fn is_settled(l: LocalSnapshot) -> bool {
    &&& are_right(l.paths_map(), l.ignores(), l.root_text())
    &&& forall|dir: Seq<Seq<char>>|
        #![trigger is_stale_dir(l, dir)]
        #![trigger is_marked(l, dir)]
        !is_stale_dir(l, dir) && !is_marked(l, dir)
}

/// Whether an ignore file that is gone was changed by the current scan, or lies in the path of an
/// event.
spec fn are_stale_explained(l: LocalSnapshot, root: Seq<Seq<char>>, events: Seq<FsEvent>) -> bool {
    forall|dir: Seq<Seq<char>>| #[trigger]
        is_stale_dir(l, dir) ==> is_marked(l, dir) || is_touched(
            root,
            events,
            events.len() as int,
            relative(l, dir),
        )
}

/// Whether the paths of events are plainly written behind the root: names that can stand in
/// directories, with one slash between two of them.
pub open spec fn are_plain(root: Seq<Seq<char>>, events: Seq<FsEvent>) -> bool {
    forall|i: int|
        #![trigger events[i]]
        0 <= i < events.len() && nested_in(events[i].path.comps(), root) ==> {
            &&& is_plain(event_path(root, events[i]))
            &&& text_behind(events[i].path@, root.len() as int) == render(
                event_path(root, events[i]),
            )
        }
}

/// Whether two sets of ignore files have the same rules for a directory.
pub open spec fn agree_at(a: Ignores, b: Ignores, dir: Seq<Seq<char>>) -> bool {
    &&& a.contains_key(dir) == b.contains_key(dir)
    &&& a.contains_key(dir) ==> a[dir].verdicts == b[dir].verdicts
}

/// Ignore files that have the same rules for all directories above a path say the same of it.
pub proof fn lemma_same_rules(a: Ignores, b: Ignores, path: Seq<char>, n: int)
    requires
        0 <= n <= components(path).len(),
        forall|dir: Seq<Seq<char>>| #[trigger]
            lies_in(components(path), dir) ==> agree_at(a, b, dir),
    ensures
        rules_above(a, path, n) == rules_above(b, path, n),
    decreases n,
{
    let c = components(path);
    if n > root_length(c) {
        lemma_same_rules(a, b, path, n - 1);
        lemma_first_written(path, n - 1);
        let dir = c.take(n - 1);
        assert(dir =~= c.subrange(0, dir.len() as int));
        assert(lies_in(c, dir));
    }
}

/// Ignore files that have the same rules for all directories above a path of the worktree say the
/// same of it.
pub proof fn lemma_same_rules_at(a: Ignores, b: Ignores, root: Seq<char>, p: Seq<Seq<char>>)
    requires
        is_plain(p),
        forall|dir: Seq<Seq<char>>| #[trigger]
            lies_in(components(root) + p, dir) ==> agree_at(a, b, dir),
    ensures
        rules_for(a, place(root, p)) == rules_for(b, place(root, p)),
{
    lemma_place(root, p);
    lemma_same_rules(a, b, place(root, p), components(place(root, p)).len() as int);
}

/// The directory of a file of the worktree.
pub proof fn lemma_place_above(root: Seq<char>, p: Seq<Seq<char>>)
    requires
        is_plain(p),
        p.len() > 0,
    ensures
        components(place(root, p)) == components(root) + p,
        components(root) + p.drop_last() == (components(root) + p).drop_last(),
        text_of_first(place(root, p), components(place(root, p)).len() - 1) == trimmed(
            place(root, p.drop_last()),
        ),
        trimmed(trimmed(place(root, p.drop_last()))) == trimmed(place(root, p.drop_last())),
        components(trimmed(place(root, p.drop_last()))) == components(root) + p.drop_last(),
{
    let up = p.drop_last();
    let t = place(root, up);
    lemma_plain_parent(p);
    lemma_place(root, p);
    lemma_place(root, up);
    lemma_place_child(root, up, t, p.last());
    lemma_first_of_child(t, p.last(), components(t).len() as int);
    lemma_trimmed(t);
    assert(components(root) + up =~= (components(root) + p).drop_last());
}

/// A directory of the worktree, and what is left of it behind the root.
pub proof fn lemma_behind_root(l: LocalSnapshot, dir: Seq<Seq<char>>)
    requires
        nested_in(dir, root_of(l)),
    ensures
        dir == root_of(l) + relative(l, dir),
{
    let root = root_of(l);
    let n = root.len() as int;
    assert(dir =~= root + dir.skip(n)) by {
        assert forall|i: int| 0 <= i < dir.len() implies dir[i] == (root + dir.skip(n))[i] by {
            if i < n {
                assert(dir.subrange(0, n)[i] == root[i]);
            }
        }
    }
}

/// What lies in a path that was taken out is not there any more.
proof fn lemma_nested_push(p: Seq<Seq<char>>, name: Seq<char>, path: Seq<Seq<char>>)
    requires
        nested_in(p.push(name), path),
    ensures
        path == p.push(name) || nested_in(p, path),
{
    let q = p.push(name);
    let n = path.len() as int;
    if n == q.len() {
        assert(path =~= q);
    } else {
        assert(path =~= p.subrange(0, n)) by {
            assert(path =~= q.subrange(0, n));
        }
    }
}

/// Where the path of an event is taken out, statuses stay right but for those in directories
/// whose ignore files changed.
proof fn lemma_remove_keeps_right(
    before: LocalSnapshot,
    root: Seq<Seq<char>>,
    events: Seq<FsEvent>,
    k: int,
    after: LocalSnapshot,
)
    requires
        are_right_elsewhere(before),
        are_stale_explained(before, root, events),
        are_plain(root, events),
        0 <= k < events.len(),
        nested_in(events[k].path.comps(), root),
        is_without_path(before, event_path(root, events[k]), after),
    ensures
        are_right_elsewhere(after),
        are_stale_explained(after, root, events),
{
    let q = event_path(root, events[k]);
    let w = before.root_text();
    let top = root_of(before);
    assert(after.root_text() == w);
    assert(is_plain(q));
    if q.len() > 0 {
        lemma_plain_parent(q);
        lemma_place(w, q.drop_last());
    }
    assert forall|dir: Seq<Seq<char>>| #[trigger] is_marked(before, dir) implies is_marked(after, dir) by {
    }
    assert forall|dir: Seq<Seq<char>>| #[trigger]
        is_stale_dir(after, dir) && !is_stale_dir(before, dir) implies is_marked(after, dir)
        || nested_in(relative(before, dir), q) by {
        let file = relative(before, dir).push(gitignore_name());
        assert(before.paths_map().contains_key(file) && nested_in(file, q));
        lemma_nested_push(relative(before, dir), gitignore_name(), q);
        if q == file {
            lemma_git_names();
            lemma_behind_root(before, dir);
            assert(q.drop_last() =~= relative(before, dir));
            assert(q.last() == gitignore_name());
        }
    }
    assert forall|dir: Seq<Seq<char>>| #[trigger] is_stale_dir(after, dir) implies is_marked(
        after,
        dir,
    ) || is_touched(root, events, events.len() as int, relative(after, dir)) by {
        if !is_stale_dir(before, dir) && !is_marked(after, dir) {
            assert(nested_in(relative(before, dir), q));
        }
    }
    assert forall|p: Seq<Seq<char>>| #[trigger]
        after.paths_map().contains_key(p) && !is_below_marked(after, p) implies is_right(
        after.paths_map(),
        fresh_ignores(after),
        w,
        p,
    ) by {
        assert(before.paths_map().contains_key(p));
        assert(!nested_in(p, q));
        if is_below_marked(before, p) {
            let dir = choose|dir: Seq<Seq<char>>| #[trigger]
                is_marked(before, dir) && lies_in(top + p, dir);
            assert(is_marked(after, dir));
        }
        assert(is_right(before.paths_map(), fresh_ignores(before), w, p));
        let path = top + p;
        assert forall|dir: Seq<Seq<char>>| #[trigger] lies_in(path, dir) implies agree_at(
            fresh_ignores(before),
            fresh_ignores(after),
            dir,
        ) by {
            if is_stale_dir(after, dir) && !is_stale_dir(before, dir) {
                if is_marked(after, dir) {
                    assert(is_below_marked(after, p));
                } else {
                    lemma_behind_root(before, dir);
                    lemma_apart_from_root(top, p, relative(before, dir));
                    lemma_nested_transitive(p, relative(before, dir), q);
                }
            }
            if is_stale_dir(before, dir) {
                assert(is_stale_dir(after, dir));
            }
        }
        lemma_same_rules_at(fresh_ignores(before), fresh_ignores(after), w, p);
    }
}

/// What putting in the entry of an event changes for the ignore files that count above a path:
/// nothing, unless the path lies in a directory whose ignore file changed.
proof fn lemma_insert_agrees(
    before: LocalSnapshot,
    root: Seq<Seq<char>>,
    events: Seq<FsEvent>,
    k: int,
    e: Entry,
    contents: Option<Seq<char>>,
    r: Entry,
    after: LocalSnapshot,
    p: Seq<Seq<char>>,
    dir: Seq<Seq<char>>,
)
    requires
        are_stale_explained(before, root, events),
        are_apart(events),
        are_plain(root, events),
        0 <= k < events.len(),
        nested_in(events[k].path.comps(), root),
        e.comps() == event_path(root, events[k]),
        e.path@ == render(e.comps()),
        after.snap().root_path() == before.snap().root_path(),
        after.scan() == before.scan(),
        after.paths_map() == before.paths_map().insert(e.comps(), r),
        after.ignores() == crate::local_snapshot::ignores_with(
            before.ignores(),
            before.root_text(),
            e,
            contents,
            before.scan(),
        ),
        lies_in(root_of(before) + p, dir),
        !is_below_marked(after, p),
    ensures
        agree_at(fresh_ignores(before), fresh_ignores(after), dir),
        !is_marked(before, dir),
        p == e.comps() ==> agree_at(before.ignores(), fresh_ignores(after), dir),
{
    let q = e.comps();
    let top = root_of(before);
    assert(!is_marked(after, dir)) by {
        if is_marked(after, dir) {
            assert(is_below_marked(after, p));
        }
    }
    lemma_rules_kept(before, e, contents, after, dir);
    if is_stale_dir(before, dir) {
        lemma_stale_apart(before, root, events, k, dir);
        lemma_behind_root(before, dir);
        let d = relative(before, dir);
        assert(!is_marked(before, dir));
        if p == q {
            lemma_apart_from_root(top, p, d);
        }
        assert(d.push(gitignore_name()) != q) by {
            if d.push(gitignore_name()) == q {
                assert(d =~= q.subrange(0, d.len() as int));
                assert(d != q);
            }
        }
    }
}

/// An ignore file that is gone, and was not changed by the current scan, does not lie above the
/// path of an event.
proof fn lemma_stale_apart(
    before: LocalSnapshot,
    root: Seq<Seq<char>>,
    events: Seq<FsEvent>,
    k: int,
    dir: Seq<Seq<char>>,
)
    requires
        are_stale_explained(before, root, events),
        are_apart(events),
        0 <= k < events.len(),
        nested_in(events[k].path.comps(), root),
        is_stale_dir(before, dir),
    ensures
        is_marked(before, dir) || !lies_in(event_path(root, events[k]), relative(before, dir)),
{
    let q = event_path(root, events[k]);
    let d = relative(before, dir);
    if !is_marked(before, dir) && lies_in(q, d) {
        let j = choose|j: int|
            #![trigger events[j]]
            0 <= j < events.len() && nested_in(events[j].path.comps(), root) && nested_in(
                d,
                event_path(root, events[j]),
            );
        lemma_nested_transitive(q, d, event_path(root, events[j]));
        if j != k {
            lemma_event_paths_apart(root, events, k, j);
        } else {
            assert(d =~= q) by {
                assert(d.len() == q.len());
                assert(q.subrange(0, d.len() as int) =~= q);
            }
        }
    }
}

/// Putting in an entry leaves the rules of a directory as they are, unless they are noted as
/// changed.
proof fn lemma_rules_kept(
    before: LocalSnapshot,
    e: Entry,
    contents: Option<Seq<char>>,
    after: LocalSnapshot,
    dir: Seq<Seq<char>>,
)
    requires
        is_plain(e.comps()),
        e.path@ == render(e.comps()),
        after.root_text() == before.root_text(),
        after.scan() == before.scan(),
        after.ignores() == crate::local_snapshot::ignores_with(
            before.ignores(),
            before.root_text(),
            e,
            contents,
            before.scan(),
        ),
        !is_marked(after, dir),
    ensures
        before.ignores().contains_key(dir) == after.ignores().contains_key(dir),
        before.ignores().contains_key(dir) ==> before.ignores()[dir] == after.ignores()[dir],
{
    let q = e.comps();
    let top = root_of(before);
    if q.len() > 0 {
        let up = top + q.drop_last();
        lemma_place_above(before.root_text(), q);
        assert(nested_in(up, top)) by {
            assert(top =~= up.subrange(0, top.len() as int));
        }
    }
}

/// Where an event is handled, statuses stay right but for those in directories whose ignore files
/// changed, and the directory that is to be read comes with the ignore files that apply to it.
proof fn lemma_event_keeps_right(
    before: LocalSnapshot,
    root: Seq<Seq<char>>,
    events: Seq<FsEvent>,
    k: int,
    id: usize,
    outcome: EventOutcome,
    after: LocalSnapshot,
    next_id: usize,
)
    requires
        are_right_elsewhere(before),
        are_stale_explained(before, root, events),
        are_apart(events),
        are_plain(root, events),
        0 <= k < events.len(),
        nested_in(events[k].path.comps(), root) ==> !before.paths_map().contains_key(
            event_path(root, events[k]),
        ),
        is_step(before, root, events[k], id, outcome, after, next_id),
    ensures
        are_right_elsewhere(after),
        are_stale_explained(after, root, events),
        after.root_text() == before.root_text(),
        after.scan() == before.scan(),
        outcome.job matches Some(job) ==> is_stacked_elsewhere(after, job),
        forall|job: ScanJob| #[trigger]
            is_stacked_elsewhere(before, job) ==> is_stacked_elsewhere(after, job),
{
    let event = events[k];
    if nested_in(event.path.comps(), root) && event.metadata is Some {
        let q = event_path(root, event);
        let path = choose|path: Arc<Path>|
            {
                &&& path.comps() == event.path.comps().skip(root.len() as int)
                &&& path@ == text_behind(event.path@, root.len() as int)
                &&& #[trigger] is_event_handled(before, path, event, id, outcome, after, next_id)
            };
        let m = event.metadata->0;
        let (e, r, between) = choose|e: Entry, r: Entry, between: LocalSnapshot|
            {
                &&& #[trigger] is_event_entry(e, before, path, m, id)
                &&& #[trigger] is_with_entry(before, e, text_of(event.contents), r, between)
                &&& after.snap() == between.snap()
                &&& after.ignores() == between.ignores()
                &&& after.removed() == between.removed()
                &&& are_repos_touched(
                    between.repos(),
                    path.comps(),
                    before.scan(),
                    outcome.reload,
                    after.repos(),
                )
            };
        lemma_put_in_right(before, root, events, k, path, m, id, e, r, between, after);
        assert(r.comps() == e.comps());
        if outcome.job is Some {
            let job = outcome.job->0;
            assert(is_event_job(job, before, path, m, after));
            lemma_event_stacked(before, root, events, k, path, m, id, e, r, after, job);
        }
        assert forall|job: ScanJob| #[trigger] is_stacked_elsewhere(before, job) implies is_stacked_elsewhere(
            after,
            job,
        ) by {
            lemma_stack_stays(before, root, events, k, e, text_of(event.contents), r, after, job);
        }
    } else {
        assert(after == before);
    }
}

/// Where the entry of an event is put in, statuses stay right.
#[verifier::rlimit(40)]
proof fn lemma_put_in_right(
    before: LocalSnapshot,
    root: Seq<Seq<char>>,
    events: Seq<FsEvent>,
    k: int,
    path: Arc<Path>,
    m: Metadata,
    id: usize,
    e: Entry,
    r: Entry,
    between: LocalSnapshot,
    after: LocalSnapshot,
)
    requires
        are_right_elsewhere(before),
        are_stale_explained(before, root, events),
        are_apart(events),
        are_plain(root, events),
        0 <= k < events.len(),
        nested_in(events[k].path.comps(), root),
        !before.paths_map().contains_key(event_path(root, events[k])),
        path.comps() == event_path(root, events[k]),
        path@ == render(path.comps()),
        is_event_entry(e, before, path, m, id),
        is_with_entry(before, e, text_of(events[k].contents), r, between),
        after.snap() == between.snap(),
        after.ignores() == between.ignores(),
    ensures
        are_right_elsewhere(after),
        are_stale_explained(after, root, events),
{
    let q = path.comps();
    let w = before.root_text();
    let top = root_of(before);
    let contents = text_of(events[k].contents);
    assert(e.comps() == q && r.comps() == q);
    assert(r.is_file_entry() == !m.is_dir);
    assert forall|dir: Seq<Seq<char>>| #[trigger] is_stale_dir(after, dir) implies is_marked(
        after,
        dir,
    ) || is_touched(root, events, events.len() as int, relative(after, dir)) by {
        if !before.ignores().contains_key(dir) {
            lemma_git_names();
            assert(q.len() > 0);
            lemma_place_above(w, q);
            assert(dir == top + q.drop_last());
            assert(relative(after, dir) =~= q.drop_last());
            assert(relative(after, dir).push(gitignore_name()) =~= q);
        }
        assert(is_stale_dir(before, dir));
    }
    assert forall|p: Seq<Seq<char>>| #[trigger]
        after.paths_map().contains_key(p) && !is_below_marked(after, p) implies is_right(
        after.paths_map(),
        fresh_ignores(after),
        w,
        p,
    ) by {
        let abs = top + p;
        if p == q {
            assert forall|dir: Seq<Seq<char>>| #[trigger] lies_in(abs, dir) implies agree_at(
                before.ignores(),
                fresh_ignores(after),
                dir,
            ) by {
                lemma_insert_agrees(before, root, events, k, e, contents, r, after, p, dir);
            }
            lemma_same_rules_at(before.ignores(), fresh_ignores(after), w, p);
        } else {
            assert(before.paths_map().contains_key(p));
            assert forall|dir: Seq<Seq<char>>| #[trigger] lies_in(abs, dir) implies agree_at(
                fresh_ignores(before),
                fresh_ignores(after),
                dir,
            ) && !is_marked(before, dir) by {
                lemma_insert_agrees(before, root, events, k, e, contents, r, after, p, dir);
            }
            assert(!is_below_marked(before, p));
            assert(is_right(before.paths_map(), fresh_ignores(before), w, p));
            lemma_same_rules_at(fresh_ignores(before), fresh_ignores(after), w, p);
        }
    }
}

/// The job of an event comes with the ignore files that apply to it.
proof fn lemma_event_stacked(
    before: LocalSnapshot,
    root: Seq<Seq<char>>,
    events: Seq<FsEvent>,
    k: int,
    path: Arc<Path>,
    m: Metadata,
    id: usize,
    e: Entry,
    r: Entry,
    after: LocalSnapshot,
    job: ScanJob,
)
    requires
        are_stale_explained(before, root, events),
        are_apart(events),
        are_plain(root, events),
        0 <= k < events.len(),
        nested_in(events[k].path.comps(), root),
        path.comps() == event_path(root, events[k]),
        path@ == render(path.comps()),
        m.is_dir,
        e.path == path,
        after.snap().root_path() == before.snap().root_path(),
        after.scan() == before.scan(),
        after.paths_map() == before.paths_map().insert(e.comps(), r),
        after.ignores() == crate::local_snapshot::ignores_with(
            before.ignores(),
            before.root_text(),
            e,
            text_of(events[k].contents),
            before.scan(),
        ),
        is_event_job(job, before, path, m, after),
    ensures
        is_stacked_elsewhere(after, job),
{
    let q = path.comps();
    let top = root_of(before);
    let abs = top + q;
    if !is_below_marked(after, q) {
        assert forall|dir: Seq<Seq<char>>| #[trigger] lies_in(abs, dir) implies agree_at(
            before.ignores(),
            fresh_ignores(after),
            dir,
        ) by {
            lemma_insert_agrees(
                before,
                root,
                events,
                k,
                e,
                text_of(events[k].contents),
                r,
                after,
                q,
                dir,
            );
        }
        lemma_same_rules_at(before.ignores(), fresh_ignores(after), before.root_text(), q);
    }
}

/// The job of another event stays right.
proof fn lemma_stack_stays(
    before: LocalSnapshot,
    root: Seq<Seq<char>>,
    events: Seq<FsEvent>,
    k: int,
    e: Entry,
    contents: Option<Seq<char>>,
    r: Entry,
    after: LocalSnapshot,
    job: ScanJob,
)
    requires
        are_stale_explained(before, root, events),
        are_apart(events),
        are_plain(root, events),
        0 <= k < events.len(),
        nested_in(events[k].path.comps(), root),
        e.comps() == event_path(root, events[k]),
        e.path@ == render(e.comps()),
        after.snap().root_path() == before.snap().root_path(),
        after.scan() == before.scan(),
        after.paths_map() == before.paths_map().insert(e.comps(), r),
        after.ignores() == crate::local_snapshot::ignores_with(
            before.ignores(),
            before.root_text(),
            e,
            contents,
            before.scan(),
        ),
        is_stacked_elsewhere(before, job),
    ensures
        is_stacked_elsewhere(after, job),
{
    let p = job.path.comps();
    let abs = root_of(before) + p;
    if !is_below_marked(after, p) {
        assert forall|dir: Seq<Seq<char>>| #[trigger] lies_in(abs, dir) implies agree_at(
            fresh_ignores(before),
            fresh_ignores(after),
            dir,
        ) && !is_marked(before, dir) by {
            lemma_insert_agrees(before, root, events, k, e, contents, r, after, p, dir);
        }
        lemma_same_rules_at(fresh_ignores(before), fresh_ignores(after), before.root_text(), p);
        assert(!is_below_marked(before, p));
    }
}

/// What is right before the paths of events are taken out is right after it.
proof fn lemma_removed_right(
    removed: Seq<LocalSnapshot>,
    root: Seq<Seq<char>>,
    events: Seq<FsEvent>,
    n: int,
)
    requires
        is_settled(removed[0]),
        are_plain(root, events),
        are_paths_removed(removed, root, events),
        0 <= n <= events.len(),
    ensures
        are_right_elsewhere(removed[n]),
        are_stale_explained(removed[n], root, events),
        removed[n].root_text() == removed[0].root_text(),
        removed[n].scan() == removed[0].scan(),
    decreases n,
{
    if n == 0 {
        let l = removed[0];
        assert(fresh_ignores(l) =~= l.ignores()) by {
            assert forall|dir: Seq<Seq<char>>| #[trigger]
                fresh_ignores(l).contains_key(dir) <==> l.ignores().contains_key(dir) by {
                assert(!is_stale_dir(l, dir));
            }
        }
    } else {
        let k = n - 1;
        lemma_removed_right(removed, root, events, k);
        assert(removed[n] == removed[k + 1]);
        if nested_in(events[k].path.comps(), root) {
            lemma_remove_keeps_right(removed[k], root, events, k, removed[n]);
        }
    }
}

/// What is right before events are handled is right after it.
proof fn lemma_handled_right(
    tree: FsTree,
    root: Seq<Seq<char>>,
    events: Seq<FsEvent>,
    outcomes: Seq<EventOutcome>,
    handled: Seq<LocalSnapshot>,
    ids: Seq<usize>,
    n: int,
)
    requires
        are_right_elsewhere(handled[0]),
        are_stale_explained(handled[0], root, events),
        are_told(tree, root, events),
        are_apart(events),
        are_plain(root, events),
        are_events_handled(handled, ids, root, events, outcomes),
        forall|q: Seq<Seq<char>>| #[trigger]
            handled[0].paths_map().contains_key(q) ==> !is_touched(
                root,
                events,
                events.len() as int,
                q,
            ),
        0 <= n <= events.len(),
    ensures
        are_right_elsewhere(handled[n]),
        are_stale_explained(handled[n], root, events),
        handled[n].root_text() == handled[0].root_text(),
        handled[n].scan() == handled[0].scan(),
        forall|j: int|
            #![trigger outcomes[j]]
            0 <= j < n && outcomes[j].job is Some ==> is_stacked_elsewhere(
                handled[n],
                outcomes[j].job->0,
            ),
    decreases n,
{
    if n > 0 {
        let k = n - 1;
        lemma_handled_right(tree, root, events, outcomes, handled, ids, k);
        assert(is_step(
            handled[k],
            root,
            events[k],
            ids[k],
            outcomes[k],
            handled[k + 1],
            ids[k + 1],
        ));
        if nested_in(events[k].path.comps(), root) {
            lemma_not_there_yet(tree, root, events, outcomes, handled, ids, k);
        }
        lemma_event_keeps_right(
            handled[k],
            root,
            events,
            k,
            ids[k],
            outcomes[k],
            handled[k + 1],
            ids[k + 1],
        );
        assert forall|j: int|
            #![trigger outcomes[j]]
            0 <= j < n && outcomes[j].job is Some implies is_stacked_elsewhere(
            handled[n],
            outcomes[j].job->0,
        ) by {
            if j < k {
                assert(is_stacked_elsewhere(handled[k], outcomes[j].job->0));
            }
        }
    }
}

/// Once events are brought in, every entry has the status that the ignore files give it, but for
/// those in directories whose ignore files changed; and the directories that are to be read come
/// with the ignore files that apply to them.
pub proof fn law_events_find_statuses(
    tree: FsTree,
    before: LocalSnapshot,
    root: Seq<Seq<char>>,
    events: Seq<FsEvent>,
    id: usize,
    outcomes: Seq<EventOutcome>,
    after: LocalSnapshot,
    next_id: usize,
    removed: Seq<LocalSnapshot>,
    handled: Seq<LocalSnapshot>,
    ids: Seq<usize>,
)
    requires
        is_settled(before),
        are_told(tree, root, events),
        are_apart(events),
        are_plain(root, events),
        are_events_applied(
            before,
            root,
            events,
            id,
            outcomes,
            after,
            next_id,
            removed,
            handled,
            ids,
        ),
    ensures
        are_right_elsewhere(after),
        forall|j: int|
            #![trigger jobs_of(outcomes)[j]]
            0 <= j < jobs_of(outcomes).len() ==> is_stacked_elsewhere(
                after,
                jobs_of(outcomes)[j],
            ),
        after.root_text() == before.root_text(),
        after.scan() == before.scan(),
{
    let n = events.len() as int;
    assert(removed[n] == removed.last());
    assert(handled[n] == handled.last());
    lemma_removed_right(removed, root, events, n);
    assert forall|q: Seq<Seq<char>>| #[trigger]
        handled[0].paths_map().contains_key(q) implies !is_touched(root, events, n, q) by {
        lemma_removed_paths(removed, root, events, n, q);
    }
    lemma_handled_right(tree, root, events, outcomes, handled, ids, n);
    let at = lemma_jobs_of(outcomes);
    assert forall|j: int|
        #![trigger jobs_of(outcomes)[j]]
        0 <= j < jobs_of(outcomes).len() implies is_stacked_elsewhere(
        after,
        jobs_of(outcomes)[j],
    ) by {
        assert(outcomes[at[j]].job == Some(jobs_of(outcomes)[j]));
    }
}

/// Reading a directory keeps the statuses of entries right, but for those in directories whose
/// ignore files changed, and finds those of its children. This holds where an ignore file that is
/// found can be used, or the directory had none before.
#[verifier::rlimit(40)]
pub proof fn law_rescan_finds_statuses(
    tree: FsTree,
    before: LocalSnapshot,
    jobs: Seq<ScanJob>,
    k: int,
    children: Seq<DirChild>,
    chars: Seq<char>,
    id: usize,
    es: Seq<Entry>,
    repo: Option<u64>,
    new_jobs: Seq<ScanJob>,
    after: LocalSnapshot,
)
    requires
        root_of(before).len() > 0,
        agrees(before.paths_map(), tree, jobs),
        are_right_elsewhere(before),
        forall|j: int|
            #![trigger jobs[j]]
            0 <= j < jobs.len() ==> is_stacked_elsewhere(before, jobs[j]),
        0 <= k < jobs.len(),
        lists(tree, jobs[k].path.comps(), children),
        dir_verdicts(jobs[k].abs_path@, children) is None ==> !before.ignores().contains_key(
            root_of(before) + jobs[k].path.comps(),
        ) || !tree.contains_key(jobs[k].path.comps().push(gitignore_name())),
        ({
            let dir = jobs[k].abs_path@;
            let rules = dir_rules(jobs[k].ignore_stack@, dir, children);
            &&& are_child_entries(es, jobs[k], rules, found(children), chars, id)
            &&& is_dir_populated(
                before,
                jobs[k].path,
                es,
                dir_verdicts(dir, children),
                repo,
                after,
            )
            &&& are_child_jobs(
                new_jobs,
                jobs[k],
                rules,
                children.filter(|c: DirChild| is_to_read(c, jobs[k].ancestor_inodes@)),
            )
        }),
    ensures
        are_right_elsewhere(after),
        forall|j: int|
            #![trigger (jobs.remove(k) + new_jobs)[j]]
            0 <= j < (jobs.remove(k) + new_jobs).len() ==> is_stacked_elsewhere(
                after,
                (jobs.remove(k) + new_jobs)[j],
            ),
{
    let w = before.root_text();
    let paths = before.paths_map();
    let np = after.paths_map();
    let job = jobs[k];
    let dir = job.path.comps();
    let abs = job.abs_path@;
    let rules = dir_rules(job.ignore_stack@, abs, children);
    let verdicts = dir_verdicts(abs, children);
    assert(is_pending(paths, tree, job));
    assert(is_stacked_elsewhere(before, job));
    lemma_abs_of_relative(before.root_text(), job.path);
    let rs = choose|rs: Seq<Entry>| #[trigger] is_populated(before, dir, es, rs, after);
    assert forall|i: int| #![trigger rs[i]] 0 <= i < rs.len() implies same_but_id(rs[i], es[i]) by {
    }
    lemma_is_read(tree, before, job, rules, children, chars, id, es, repo, after);
    assert forall|p: Seq<Seq<char>>| #[trigger]
        np.contains_key(p) && !is_below_marked(after, p) implies is_right(
        np,
        fresh_ignores(after),
        w,
        p,
    ) by {
        crate::entry_laws::lemma_populated_path(before, dir, es, rs, p);
        lemma_child_paths(tree, job, rules, children, chars, id, es, rs, p);
        lemma_entries_by_path(rs, p);
        if entries_by_path(rs).contains_key(p) {
            let i = choose|i: int|
                #![trigger rs[i]]
                0 <= i < rs.len() && rs[i].comps() == p && np[p] == rs[i];
            lemma_child_status(tree, job, rules, children, chars, id, es, i);
            lemma_stack_below(before, tree, job, children, after, p);
        } else {
            assert(paths.contains_key(p));
            lemma_read_elsewhere(before, tree, dir, verdicts, after, p);
            assert(is_right(paths, fresh_ignores(before), w, p));
            lemma_read_rules(before, tree, dir, verdicts, after, p);
            assert(np[p].is_ignored == paths[p].is_ignored);
            assert(np[p].is_file_entry() == paths[p].is_file_entry());
        }
    }
    lemma_rescan_jobs(tree, before, jobs, k, rules, children, new_jobs, after);
}

/// The directories that are to be read next come with the ignore files that apply to them.
#[verifier::rlimit(40)]
proof fn lemma_rescan_jobs(
    tree: FsTree,
    before: LocalSnapshot,
    jobs: Seq<ScanJob>,
    k: int,
    rules: IgnoreRules,
    children: Seq<DirChild>,
    new_jobs: Seq<ScanJob>,
    after: LocalSnapshot,
)
    requires
        root_of(before).len() > 0,
        agrees(before.paths_map(), tree, jobs),
        forall|j: int|
            #![trigger jobs[j]]
            0 <= j < jobs.len() ==> is_stacked_elsewhere(before, jobs[j]),
        0 <= k < jobs.len(),
        lists(tree, jobs[k].path.comps(), children),
        dir_verdicts(jobs[k].abs_path@, children) is None ==> !before.ignores().contains_key(
            root_of(before) + jobs[k].path.comps(),
        ) || !tree.contains_key(jobs[k].path.comps().push(gitignore_name())),
        rules == dir_rules(jobs[k].ignore_stack@, jobs[k].abs_path@, children),
        is_read(
            before,
            tree,
            jobs[k].path.comps(),
            dir_verdicts(jobs[k].abs_path@, children),
            after,
        ),
        are_child_jobs(
            new_jobs,
            jobs[k],
            rules,
            children.filter(|c: DirChild| is_to_read(c, jobs[k].ancestor_inodes@)),
        ),
    ensures
        forall|j: int|
            #![trigger (jobs.remove(k) + new_jobs)[j]]
            0 <= j < (jobs.remove(k) + new_jobs).len() ==> is_stacked_elsewhere(
                after,
                (jobs.remove(k) + new_jobs)[j],
            ),
{
    let paths = before.paths_map();
    let job = jobs[k];
    let dir = job.path.comps();
    let abs = job.abs_path@;
    let verdicts = dir_verdicts(abs, children);
    assert(is_pending(paths, tree, job));
    assert(is_stacked_elsewhere(before, job));
    let left = jobs.remove(k);
    let all = left + new_jobs;
    let ancestors = job.ancestor_inodes@;
    let reads = |c: DirChild| is_to_read(c, ancestors);
    let cs = children.filter(reads);
    lemma_filter_apart(children, reads);
    assert forall|j: int| #![trigger all[j]] 0 <= j < all.len() implies is_stacked_elsewhere(
        after,
        all[j],
    ) by {
        if j < left.len() {
            let o = if j < k {
                j
            } else {
                j + 1
            };
            assert(all[j] == jobs[o]);
            assert(is_pending(paths, tree, jobs[o]));
            assert(is_stacked_elsewhere(before, jobs[o]));
            let p = jobs[o].path.comps();
            if !is_below_marked(after, p) {
                lemma_read_elsewhere(before, tree, dir, verdicts, after, p);
                lemma_read_rules(before, tree, dir, verdicts, after, p);
            }
        } else {
            let i = j - left.len();
            let new_job = new_jobs[i];
            assert(all[j] == new_job);
            assert(is_child_job(new_job, job, rules, cs[i]));
            let x = choose|x: int| 0 <= x < children.len() && children[x] == cs[i];
            assert(is_file_name(children[x].name@));
            let name = cs[i].name@;
            lemma_child_relative(job.path, name, new_job.path);
            let p = new_job.path.comps();
            assert(p.drop_last() =~= dir);
            lemma_place_child(before.root_text(), dir, abs, name);
            if !is_below_marked(after, p) {
                lemma_stack_below(before, tree, job, children, after, p);
            }
        }
    }
}

/// Whether a snapshot is another one and what lies in a directory, with the ignore file of the
/// directory where it has one that can be used.
pub open spec fn is_read(
    before: LocalSnapshot,
    tree: FsTree,
    dir: Seq<Seq<char>>,
    verdicts: Option<Verdicts>,
    after: LocalSnapshot,
) -> bool {
    &&& after.root_text() == before.root_text()
    &&& after.scan() == before.scan()
    &&& forall|p: Seq<Seq<char>>| #[trigger]
        after.paths_map().contains_key(p) <==> before.paths_map().contains_key(p) || (is_child_of(
            p,
            dir,
        ) && tree.contains_key(p))
    &&& after.ignores() == match verdicts {
        Some(verdicts) => with_ignore(
            before.ignores(),
            place(before.root_text(), dir),
            verdicts,
            before.scan(),
        ),
        None => before.ignores(),
    }
    &&& verdicts is Some ==> tree.contains_key(dir.push(gitignore_name()))
    &&& is_plain(dir)
}

/// Reading a directory puts in what lies in it.
pub proof fn lemma_is_read(
    tree: FsTree,
    before: LocalSnapshot,
    job: ScanJob,
    rules: IgnoreRules,
    children: Seq<DirChild>,
    chars: Seq<char>,
    id: usize,
    es: Seq<Entry>,
    repo: Option<u64>,
    after: LocalSnapshot,
)
    requires
        is_pending(before.paths_map(), tree, job),
        is_relative_path(job.path),
        lists(tree, job.path.comps(), children),
        are_child_entries(es, job, rules, found(children), chars, id),
        is_dir_populated(
            before,
            job.path,
            es,
            dir_verdicts(job.abs_path@, children),
            repo,
            after,
        ),
    ensures
        is_read(
            before,
            tree,
            job.path.comps(),
            dir_verdicts(job.abs_path@, children),
            after,
        ),
{
    let dir = job.path.comps();
    let abs = job.abs_path@;
    let paths = before.paths_map();
    let np = after.paths_map();
    lemma_abs_of_relative(before.root_text(), job.path);
    let rs = choose|rs: Seq<Entry>| #[trigger] is_populated(before, dir, es, rs, after);
    assert forall|i: int| #![trigger rs[i]] 0 <= i < rs.len() implies same_but_id(rs[i], es[i]) by {
    }
    assert forall|p: Seq<Seq<char>>| #[trigger] np.contains_key(p) <==> paths.contains_key(p) || (
    is_child_of(p, dir) && tree.contains_key(p)) by {
        crate::entry_laws::lemma_populated_path(before, dir, es, rs, p);
        lemma_child_paths(tree, job, rules, children, chars, id, es, rs, p);
    }
    lemma_found_ignore(tree, dir, abs, children);
}

/// Reading a directory leaves no ignore file without its entry.
pub proof fn law_scan_keeps_ignore_files(
    tree: FsTree,
    before: LocalSnapshot,
    job: ScanJob,
    rules: IgnoreRules,
    children: Seq<DirChild>,
    chars: Seq<char>,
    id: usize,
    es: Seq<Entry>,
    repo: Option<u64>,
    after: LocalSnapshot,
    dir: Seq<Seq<char>>,
)
    requires
        is_pending(before.paths_map(), tree, job),
        is_relative_path(job.path),
        lists(tree, job.path.comps(), children),
        are_child_entries(es, job, rules, found(children), chars, id),
        is_dir_populated(
            before,
            job.path,
            es,
            dir_verdicts(job.abs_path@, children),
            repo,
            after,
        ),
        is_stale_dir(after, dir),
    ensures
        is_stale_dir(before, dir),
{
    lemma_is_read(tree, before, job, rules, children, chars, id, es, repo, after);
    let d = job.path.comps();
    lemma_place(before.root_text(), d);
    let file = relative(after, dir).push(gitignore_name());
    assert(!after.paths_map().contains_key(file));
    if !before.ignores().contains_key(dir) {
        assert(dir == root_of(before) + d);
        assert(relative(after, dir) =~= d);
        assert(d.push(gitignore_name()).drop_last() =~= d);
        assert(is_child_of(file, d));
    }
}

/// A scan that begins finds statuses and ignore files settled, where they were right and there
/// after the scan before it.
pub proof fn law_next_scan_is_settled(before: LocalSnapshot, after: LocalSnapshot)
    requires
        are_right(before.paths_map(), before.ignores(), before.root_text()),
        forall|dir: Seq<Seq<char>>| !#[trigger] is_stale_dir(before, dir),
        forall|dir: Seq<Seq<char>>| #[trigger]
            before.ignores().contains_key(dir) ==> before.ignores()[dir].scan_id <= before.scan(),
        after.is_rescanned(before),
        after.scan() == before.scan() + 1,
    ensures
        is_settled(after),
{
    assert forall|dir: Seq<Seq<char>>|
        #![trigger is_stale_dir(after, dir)]
        #![trigger is_marked(after, dir)]
        !is_stale_dir(after, dir) && !is_marked(after, dir) by {
        assert(!is_stale_dir(before, dir));
    }
}

/// An ignore file that can be used is there.
proof fn lemma_found_ignore(
    tree: FsTree,
    dir: Seq<Seq<char>>,
    abs: Seq<char>,
    children: Seq<DirChild>,
)
    requires
        lists(tree, dir, children),
    ensures
        dir_verdicts(abs, children) is Some ==> tree.contains_key(dir.push(gitignore_name())),
{
    if dir_verdicts(abs, children) is Some {
        let i = lemma_verdicts_child(abs, children);
        assert(children[i].metadata is Some);
    }
}

/// The child that an ignore file is.
proof fn lemma_verdicts_child(abs: Seq<char>, children: Seq<DirChild>) -> (i: int)
    requires
        dir_verdicts(abs, children) is Some,
    ensures
        0 <= i < children.len(),
        children[i].name@ == gitignore_name(),
        children[i].metadata is Some,
    decreases children.len(),
{
    if crate::scanner::child_verdicts(abs, children.last()) is Some {
        children.len() - 1
    } else {
        lemma_verdicts_child(abs, children.drop_last())
    }
}

/// The ignore files that count for what does not lie in a directory that was read are those that
/// did.
proof fn lemma_read_elsewhere(
    before: LocalSnapshot,
    tree: FsTree,
    dir: Seq<Seq<char>>,
    verdicts: Option<Verdicts>,
    after: LocalSnapshot,
    p: Seq<Seq<char>>,
)
    requires
        is_read(before, tree, dir, verdicts, after),
        !lies_in(p, dir),
        !is_below_marked(after, p),
    ensures
        !is_below_marked(before, p),
        forall|d: Seq<Seq<char>>| #[trigger]
            lies_in(root_of(before) + p, d) ==> agree_at(
                fresh_ignores(after),
                fresh_ignores(before),
                d,
            ),
{
    let top = root_of(before);
    let path = top + p;
    let abs = top + dir;
    lemma_place(before.root_text(), dir);
    assert forall|d: Seq<Seq<char>>| #[trigger] lies_in(path, d) implies agree_at(
        fresh_ignores(after),
        fresh_ignores(before),
        d,
    ) && !is_marked(before, d) by {
        lemma_apart_from_root(top, p, dir);
        assert(d != abs);
        if is_marked(before, d) {
            assert(is_marked(after, d));
        }
        if is_stale_dir(before, d) && !is_stale_dir(after, d) {
            lemma_behind_root(before, d);
            let file = relative(before, d).push(gitignore_name());
            assert(is_child_of(file, dir));
            assert(file.drop_last() =~= relative(before, d));
        }
        if is_stale_dir(after, d) {
            assert(is_stale_dir(before, d));
        }
    }
}

/// What does not lie in a directory that was read has the rules that it had.
proof fn lemma_read_rules(
    before: LocalSnapshot,
    tree: FsTree,
    dir: Seq<Seq<char>>,
    verdicts: Option<Verdicts>,
    after: LocalSnapshot,
    p: Seq<Seq<char>>,
)
    requires
        is_read(before, tree, dir, verdicts, after),
        !lies_in(p, dir),
        !is_below_marked(after, p),
        is_plain(p),
    ensures
        rules_for(fresh_ignores(after), place(before.root_text(), p)) == rules_for(
            fresh_ignores(before),
            place(before.root_text(), p),
        ),
{
    lemma_read_elsewhere(before, tree, dir, verdicts, after, p);
    assert(root_of(before) == components(before.root_text()));
    lemma_same_rules_at(fresh_ignores(after), fresh_ignores(before), before.root_text(), p);
}

/// What applies to a child of a directory that was read, unless it lies in one whose ignore file
/// changed.
proof fn lemma_stack_below(
    before: LocalSnapshot,
    tree: FsTree,
    job: ScanJob,
    children: Seq<DirChild>,
    after: LocalSnapshot,
    p: Seq<Seq<char>>,
)
    requires
        root_of(before).len() > 0,
        lists(tree, job.path.comps(), children),
        is_stacked_elsewhere(before, job),
        forall|p: Seq<Seq<char>>| #[trigger]
            before.paths_map().contains_key(p) ==> !lies_in(p, job.path.comps()),
        dir_verdicts(job.abs_path@, children) is None ==> !before.ignores().contains_key(
            root_of(before) + job.path.comps(),
        ) || !tree.contains_key(job.path.comps().push(gitignore_name())),
        is_read(
            before,
            tree,
            job.path.comps(),
            dir_verdicts(job.abs_path@, children),
            after,
        ),
        is_child_of(p, job.path.comps()),
        is_file_name(p.last()),
        !is_below_marked(after, p),
    ensures
        is_plain(p),
        place(before.root_text(), p) == join_text(job.abs_path@, p.last()),
        rules_for(fresh_ignores(after), place(before.root_text(), p)) == dir_rules(
            job.ignore_stack@,
            job.abs_path@,
            children,
        ),
{
    let w = before.root_text();
    let top = root_of(before);
    let dir = job.path.comps();
    let abs = top + dir;
    let path = top + p;
    let t = place(w, dir);
    let verdicts = dir_verdicts(job.abs_path@, children);
    let counted = fresh_ignores(after);
    lemma_dir_rules(job.ignore_stack@, job.abs_path@, children);
    assert(p =~= dir.push(p.last()));
    lemma_plain_child(dir, p.last());
    lemma_place(w, dir);
    lemma_place_child(w, dir, job.abs_path@, p.last());
    lemma_place_child(w, dir, t, p.last());
    assert(path =~= abs.push(p.last()));
    assert(nested_in(path, abs)) by {
        assert(abs =~= path.subrange(0, abs.len() as int));
    }
    assert(nested_in(abs, top)) by {
        assert(top =~= abs.subrange(0, top.len() as int));
    }
    assert(lies_in(path, abs));
    if verdicts is Some {
        assert(is_marked(after, abs));
        assert(is_below_marked(after, p));
    }
    assert(!counted.contains_key(abs)) by {
        if after.ignores().contains_key(abs) {
            assert(relative(after, abs) =~= dir);
            let file = dir.push(gitignore_name());
            if before.paths_map().contains_key(file) {
                assert(lies_in(file, dir)) by {
                    assert(dir =~= file.subrange(0, dir.len() as int));
                }
            }
            assert(is_stale_dir(after, abs));
        }
    }
    assert(!is_below_marked(after, dir)) by {
        if is_below_marked(after, dir) {
            let d = choose|d: Seq<Seq<char>>| #[trigger]
                is_marked(after, d) && lies_in(top + dir, d);
            lemma_nested_transitive(path, abs, d);
            assert(lies_in(path, d));
        }
    }
    lemma_read_rules(before, tree, dir, verdicts, after, dir);
    lemma_read_elsewhere(before, tree, dir, verdicts, after, dir);
    lemma_rules_child(counted, t, p.last());
    assert(rules_for(counted, place(w, p)) == rules_below(counted, t));
}

/// Once events are finished, every entry has the status that the ignore files give it, and every
/// ignore file of the worktree is there. This holds where no directory is left to be read.
pub proof fn law_finished_events_settle(before: LocalSnapshot, dirs: Seq<Arc<Path>>, after: LocalSnapshot)
    requires
        before.wf(),
        is_tree(before.paths_map()),
        root_of(before).len() > 0,
        are_right_elsewhere(before),
        are_written(before),
        are_changed_dirs(before, dirs),
        after.snap().same_tree(before.snap()),
        after.ignores() == fresh_ignores(before),
        after.paths_map() == restated(
            before.paths_map(),
            dir_statuses(before, fresh_ignores(before), dirs, dirs.len() as int),
        ),
    ensures
        are_right(after.paths_map(), after.ignores(), after.root_text()),
        forall|dir: Seq<Seq<char>>| !#[trigger] is_stale_dir(after, dir),
{
    let top = root_of(before);
    let paths = before.paths_map();
    assert forall|p: Seq<Seq<char>>| #[trigger]
        paths.contains_key(p) && !is_in_changed_dir(before, p) implies is_right(
        paths,
        after.ignores(),
        before.root_text(),
        p,
    ) by {
        if is_below_marked(before, p) {
            let dir = choose|dir: Seq<Seq<char>>| #[trigger]
                is_marked(before, dir) && lies_in(top + p, dir);
            let d = relative(before, dir);
            lemma_behind_root(before, dir);
            lemma_apart_from_root(top, p, d);
            lemma_above_is_there(paths, p, d.len() as int);
            assert(d =~= p.take(d.len() as int)) by {
                assert(d =~= p.subrange(0, d.len() as int));
            }
            assert(is_changed_dir(before, dir));
            assert(is_in_changed_dir(before, p));
        }
    }
    law_statuses_become_right(before, dirs, after);
    assert forall|dir: Seq<Seq<char>>| !#[trigger] is_stale_dir(after, dir) by {
        if is_stale_dir(after, dir) {
            assert(is_stale_dir(before, dir));
        }
    }
}

/// What lies above an entry of a tree is there.
proof fn lemma_above_is_there(paths: crate::snapshot::ByPath, p: Seq<Seq<char>>, n: int)
    requires
        is_tree(paths),
        paths.contains_key(p),
        0 <= n <= p.len(),
    ensures
        paths.contains_key(p.take(n)),
    decreases p.len() - n,
{
    if n == p.len() {
        assert(p.take(n) =~= p);
    } else {
        lemma_above_is_there(paths, p, n + 1);
        assert(p.take(n + 1).drop_last() =~= p.take(n));
    }
}

} // verus!
