//! What is kept of git repositories: which ones are found, what a change in one comes to, and which
//! ones count as changed.
use crate::changed_repos::{changed, changed_repos, law_changed_repos, lists_repos, names_each_once};
use crate::events::{
    are_events_applied, are_events_handled, are_paths_removed, is_event_handled, is_step,
    EventOutcome, FsEvent,
};
use crate::ignore_stack::lemma_git_names;
use crate::local_snapshot::{
    are_repos_touched, is_first_in_dot_git, is_in_git_dir, is_managed, repos_left,
    GitRepositoryEntry, LocalSnapshot,
};
use crate::local_worktree::LocalWorktree;
use crate::path::{nested_in, Path};
use crate::scanner::{DirChild, ScanJob};
use crate::snapshot::ByPath;
use crate::sum_tree::{has_key, lemma_item_with, lemma_key_index, KeyedItem};
use std::sync::Arc;
use vstd::prelude::*;

verus! {

/// Whether a path lies in the `.git` directory of one of some repositories, at any depth.
pub open spec fn lies_in_git_dir(repos: Seq<GitRepositoryEntry>, path: Seq<Seq<char>>, j: int) -> bool {
    0 <= j < repos.len() && nested_in(path, repos[j].git_dir_path.comps())
}

/// Whether repositories are others in which nothing but the scan that last found a change may
/// differ, and this is the given scan where it does.
pub open spec fn are_same_but_scans(
    before: Seq<GitRepositoryEntry>,
    after: Seq<GitRepositoryEntry>,
    scan_id: usize,
) -> bool {
    &&& after.len() == before.len()
    &&& forall|j: int|
        #![trigger after[j]]
        #![trigger before[j]]
        0 <= j < after.len() ==> {
            &&& after[j].repo == before[j].repo
            &&& after[j].content_path == before[j].content_path
            &&& after[j].git_dir_path == before[j].git_dir_path
            &&& after[j].scan_id == before[j].scan_id || after[j].scan_id == scan_id
        }
}

/// Noting a change at a path notes it for a repository in whose `.git` directory the path lies, at
/// any depth, and gives the number of that repository; no other repository changes. Nothing is noted
/// exactly where the path lies in no `.git` directory.
pub proof fn law_change_in_git_dir_is_noted(l: &mut LocalSnapshot, path: &Path, r: Option<u64>)
    requires
        call_ensures(LocalSnapshot::touch_dot_git, (l, path), r),
    ensures
        r is None <==> forall|j: int| !#[trigger] lies_in_git_dir(old(l).repos(), path.comps(), j),
        r is None ==> final(l).repos() == old(l).repos(),
        r matches Some(repo) ==> exists|i: int|
            {
                &&& #[trigger] lies_in_git_dir(old(l).repos(), path.comps(), i)
                &&& repo == old(l).repos()[i].repo
                &&& final(l).repos()[i].scan_id == old(l).scan()
                &&& forall|j: int|
                    #![trigger final(l).repos()[j]]
                    0 <= j < old(l).repos().len() && j != i ==> final(l).repos()[j]
                        == old(l).repos()[j]
            },
        are_same_but_scans(old(l).repos(), final(l).repos(), old(l).scan()),
        final(l).snap() == old(l).snap(),
        final(l).ignores() == old(l).ignores(),
{
    lemma_touched(old(l).repos(), path.comps(), old(l).scan(), r, final(l).repos());
}

proof fn lemma_touched(
    before: Seq<GitRepositoryEntry>,
    path: Seq<Seq<char>>,
    scan_id: usize,
    r: Option<u64>,
    after: Seq<GitRepositoryEntry>,
)
    requires
        are_repos_touched(before, path, scan_id, r, after),
    ensures
        r is None <==> forall|j: int| !#[trigger] lies_in_git_dir(before, path, j),
        r is None ==> after == before,
        r matches Some(repo) ==> exists|i: int|
            {
                &&& #[trigger] lies_in_git_dir(before, path, i)
                &&& repo == before[i].repo
                &&& after[i].scan_id == scan_id
                &&& forall|j: int|
                    #![trigger after[j]]
                    0 <= j < before.len() && j != i ==> after[j] == before[j]
            },
        are_same_but_scans(before, after, scan_id),
{
    if r is Some {
        let i = choose|i: int|
            {
                &&& #[trigger] is_first_in_dot_git(before, path, i)
                &&& r->0 == before[i].repo
                &&& after == before.update(i, GitRepositoryEntry { scan_id, ..before[i] })
            };
        assert(lies_in_git_dir(before, path, i));
        assert(after[i].scan_id == scan_id);
    } else {
        assert forall|j: int| !#[trigger] lies_in_git_dir(before, path, j) by {
        }
    }
}

/// Handling an event for a path that is there, at any depth at or below the `.git` directory of a
/// known repository, has such a repository read again, and notes it as changed by the current scan;
/// nothing is to be read again exactly where the path lies in no `.git` directory.
pub proof fn law_event_in_git_dir_reloads(
    l: &mut LocalSnapshot,
    path: Arc<Path>,
    event: &FsEvent,
    next_id: &mut usize,
    r: EventOutcome,
)
    requires
        call_ensures(LocalSnapshot::handle_event, (l, path, event, next_id), r),
    ensures
        event.metadata is Some ==> {
            &&& r.reload is None <==> forall|j: int|
                !#[trigger] lies_in_git_dir(old(l).repos(), path.comps(), j)
            &&& r.reload matches Some(repo) ==> exists|i: int|
                {
                    &&& #[trigger] lies_in_git_dir(old(l).repos(), path.comps(), i)
                    &&& repo == old(l).repos()[i].repo
                    &&& final(l).repos()[i].scan_id == old(l).scan()
                }
        },
        event.metadata is None ==> r.reload is None && final(l).repos() == old(l).repos(),
        are_same_but_scans(old(l).repos(), final(l).repos(), old(l).scan()),
{
    lemma_event_touches(*old(l), path, *event, *old(next_id), r, *final(l), *final(next_id));
}

proof fn lemma_event_touches(
    before: LocalSnapshot,
    path: Arc<Path>,
    event: FsEvent,
    id: usize,
    outcome: EventOutcome,
    after: LocalSnapshot,
    next_id: usize,
)
    requires
        is_event_handled(before, path, event, id, outcome, after, next_id),
    ensures
        event.metadata is Some ==> {
            &&& outcome.reload is None <==> forall|j: int|
                !#[trigger] lies_in_git_dir(before.repos(), path.comps(), j)
            &&& outcome.reload matches Some(repo) ==> exists|i: int|
                {
                    &&& #[trigger] lies_in_git_dir(before.repos(), path.comps(), i)
                    &&& repo == before.repos()[i].repo
                    &&& after.repos()[i].scan_id == before.scan()
                }
        },
        event.metadata is None ==> outcome.reload is None && after.repos() == before.repos(),
        are_same_but_scans(before.repos(), after.repos(), before.scan()),
        after.scan() == before.scan(),
{
    if event.metadata is Some {
        lemma_touched(
            before.repos(),
            path.comps(),
            before.scan(),
            outcome.reload,
            after.repos(),
        );
    }
}

/// Once a batch of events is brought in, every repository is there that was, and one for each event
/// whose path is there and lies in a `.git` directory, at any depth, counts as changed by the current
/// scan and is to be read again.
#[verifier::rlimit(40)]
#[verifier::spinoff_prover]
pub proof fn law_events_in_git_dirs_reload(
    l: &mut LocalSnapshot,
    root: &Path,
    events: &Vec<FsEvent>,
    next_id: &mut usize,
    r: Vec<EventOutcome>,
    k: int,
)
    requires
        call_ensures(LocalSnapshot::apply_events, (l, root, events, next_id), r),
        0 <= k < events@.len(),
    ensures
        r@.len() == events@.len(),
        are_same_but_scans(old(l).repos(), final(l).repos(), old(l).scan()),
        nested_in(events@[k].path.comps(), root.comps()) && events@[k].metadata is Some ==> {
            let path = events@[k].path.comps().skip(root.comps().len() as int);
            &&& r@[k].reload is None <==> forall|j: int|
                !#[trigger] lies_in_git_dir(old(l).repos(), path, j)
            &&& r@[k].reload matches Some(repo) ==> exists|i: int|
                {
                    &&& #[trigger] lies_in_git_dir(old(l).repos(), path, i)
                    &&& repo == old(l).repos()[i].repo
                    &&& final(l).repos()[i].scan_id == old(l).scan()
                }
        },
        !(nested_in(events@[k].path.comps(), root.comps()) && events@[k].metadata is Some)
            ==> r@[k].reload is None,
{
    let (removed, handled, ids) = choose|
        removed: Seq<LocalSnapshot>,
        handled: Seq<LocalSnapshot>,
        ids: Seq<usize>,
    | #[trigger]
        are_events_applied(
            *old(l),
            root.comps(),
            events@,
            *old(next_id),
            r@,
            *final(l),
            *final(next_id),
            removed,
            handled,
            ids,
        );
    let es = events@;
    let n = es.len() as int;
    let before = *old(l);
    lemma_repos_removed(removed, root.comps(), es, n);
    assert(removed[n] == removed.last() && handled[n] == handled.last());
    lemma_repos_handled(handled, ids, root.comps(), es, r@, 0, n);
    lemma_repos_handled(handled, ids, root.comps(), es, r@, 0, k);
    lemma_repos_handled(handled, ids, root.comps(), es, r@, k + 1, n);
    assert(is_step(handled[k], root.comps(), es[k], ids[k], r@[k], handled[k + 1], ids[k + 1]));
    if nested_in(es[k].path.comps(), root.comps()) && es[k].metadata is Some {
        let rest = es[k].path.comps().skip(root.comps().len() as int);
        let path = choose|path: Arc<Path>|
            {
                &&& path.comps() == es[k].path.comps().skip(root.comps().len() as int)
                &&& path@ == crate::path_text::text_behind(es[k].path@, root.comps().len() as int)
                &&& #[trigger] is_event_handled(
                    handled[k],
                    path,
                    es[k],
                    ids[k],
                    r@[k],
                    handled[k + 1],
                    ids[k + 1],
                )
            };
        lemma_event_touches(handled[k], path, es[k], ids[k], r@[k], handled[k + 1], ids[k + 1]);
        assert forall|j: int| #[trigger] lies_in_git_dir(handled[k].repos(), rest, j)
            == lies_in_git_dir(before.repos(), rest, j) by {
            if 0 <= j < before.repos().len() {
                assert(handled[k].repos()[j].git_dir_path == before.repos()[j].git_dir_path);
            }
        }
        assert forall|j: int| #[trigger] lies_in_git_dir(before.repos(), rest, j)
            == lies_in_git_dir(handled[k].repos(), rest, j) by {
            assert(lies_in_git_dir(handled[k].repos(), rest, j) == lies_in_git_dir(
                before.repos(),
                rest,
                j,
            ));
        }
        if r@[k].reload is Some {
            let i = choose|i: int|
                {
                    &&& #[trigger] lies_in_git_dir(handled[k].repos(), rest, i)
                    &&& r@[k].reload->0 == handled[k].repos()[i].repo
                    &&& handled[k + 1].repos()[i].scan_id == handled[k].scan()
                };
            assert(lies_in_git_dir(before.repos(), rest, i));
            assert(final(l).repos()[i].scan_id == before.scan());
        }
    }
}

/// Taking paths out keeps the repositories.
proof fn lemma_repos_removed(
    removed: Seq<LocalSnapshot>,
    root: Seq<Seq<char>>,
    events: Seq<FsEvent>,
    n: int,
)
    requires
        are_paths_removed(removed, root, events),
        0 <= n <= events.len(),
    ensures
        are_same_but_scans(removed[0].repos(), removed[n].repos(), removed[0].scan()),
        removed[n].scan() == removed[0].scan(),
    decreases n,
{
    if n > 0 {
        let k = n - 1;
        lemma_repos_removed(removed, root, events, k);
        assert(removed[n] == removed[k + 1]);
        assert(nested_in(events[k].path.comps(), root) || removed[k + 1] == removed[k]);
        let a = removed[0].repos();
        let b = removed[k].repos();
        let c = removed[n].repos();
        assert forall|j: int|
            #![trigger c[j]]
            #![trigger a[j]]
            0 <= j < c.len() implies {
            &&& c[j].repo == a[j].repo
            &&& c[j].content_path == a[j].content_path
            &&& c[j].git_dir_path == a[j].git_dir_path
            &&& c[j].scan_id == a[j].scan_id || c[j].scan_id == removed[0].scan()
        } by {
            assert(b[j].repo == a[j].repo);
        }
    }
}

/// Handling events keeps the repositories, and what was noted as changed by the current scan.
proof fn lemma_repos_handled(
    handled: Seq<LocalSnapshot>,
    ids: Seq<usize>,
    root: Seq<Seq<char>>,
    events: Seq<FsEvent>,
    outcomes: Seq<EventOutcome>,
    m: int,
    n: int,
)
    requires
        are_events_handled(handled, ids, root, events, outcomes),
        0 <= m <= n <= events.len(),
    ensures
        are_same_but_scans(handled[m].repos(), handled[n].repos(), handled[m].scan()),
        handled[n].scan() == handled[m].scan(),
    decreases n - m,
{
    if m < n {
        let k = n - 1;
        lemma_repos_handled(handled, ids, root, events, outcomes, m, k);
        assert(is_step(handled[k], root, events[k], ids[k], outcomes[k], handled[k + 1], ids[k + 1]));
        if nested_in(events[k].path.comps(), root) {
            let path = choose|path: Arc<Path>|
                {
                    &&& path.comps() == events[k].path.comps().skip(root.len() as int)
                    &&& path@ == crate::path_text::text_behind(events[k].path@, root.len() as int)
                    &&& #[trigger] is_event_handled(
                        handled[k],
                        path,
                        events[k],
                        ids[k],
                        outcomes[k],
                        handled[k + 1],
                        ids[k + 1],
                    )
                };
            lemma_event_touches(
                handled[k],
                path,
                events[k],
                ids[k],
                outcomes[k],
                handled[k + 1],
                ids[k + 1],
            );
        }
        let a = handled[m].repos();
        let b = handled[k].repos();
        let c = handled[n].repos();
        assert forall|j: int|
            #![trigger c[j]]
            #![trigger a[j]]
            0 <= j < c.len() implies {
            &&& c[j].repo == a[j].repo
            &&& c[j].content_path == a[j].content_path
            &&& c[j].git_dir_path == a[j].git_dir_path
            &&& c[j].scan_id == a[j].scan_id || c[j].scan_id == handled[m].scan()
        } by {
            assert(b[j].repo == a[j].repo);
        }
    }
}

/// Which repositories count as changed, where two lists name each `.git` directory once: one of the
/// new list does exactly where none of the old list has both its `.git` directory and its scan; one of
/// the old list does, as it was, where the new list has none with its `.git` directory; no other does,
/// and none does twice.
pub proof fn law_changed_repos_are_told(
    old_repos: &[GitRepositoryEntry],
    new_repos: &[GitRepositoryEntry],
    r: Vec<GitRepositoryEntry>,
)
    requires
        call_ensures(changed_repos, (old_repos, new_repos), r) || call_ensures(
            LocalWorktree::changed_repos,
            (old_repos, new_repos),
            r,
        ),
        forall|i: int, j: int|
            #![trigger old_repos@[i], old_repos@[j]]
            0 <= i < j < old_repos@.len() ==> old_repos@[i].git_dir_path.comps()
                != old_repos@[j].git_dir_path.comps(),
        forall|i: int, j: int|
            #![trigger new_repos@[i], new_repos@[j]]
            0 <= i < j < new_repos@.len() ==> new_repos@[i].git_dir_path.comps()
                != new_repos@[j].git_dir_path.comps(),
    ensures
        forall|i: int|
            #![trigger new_repos@[i]]
            0 <= i < new_repos@.len() ==> (r@.contains(new_repos@[i]) <==> forall|j: int|
                #![trigger old_repos@[j]]
                0 <= j < old_repos@.len() ==> !(old_repos@[j].git_dir_path.comps()
                    == new_repos@[i].git_dir_path.comps() && old_repos@[j].scan_id
                    == new_repos@[i].scan_id)),
        forall|i: int|
            #![trigger old_repos@[i]]
            0 <= i < old_repos@.len() && (forall|j: int|
                #![trigger new_repos@[j]]
                0 <= j < new_repos@.len() ==> new_repos@[j].git_dir_path.comps()
                    != old_repos@[i].git_dir_path.comps()) ==> r@.contains(old_repos@[i]),
        forall|k: int|
            #![trigger r@[k]]
            0 <= k < r@.len() ==> {
                ||| new_repos@.contains(r@[k])
                ||| old_repos@.contains(r@[k]) && forall|j: int|
                    #![trigger new_repos@[j]]
                    0 <= j < new_repos@.len() ==> new_repos@[j].git_dir_path.comps()
                        != r@[k].git_dir_path.comps()
            },
        forall|i: int, j: int|
            #![trigger r@[i], r@[j]]
            0 <= i < j < r@.len() ==> r@[i].git_dir_path.comps() != r@[j].git_dir_path.comps(),
{
    lemma_changed_told(old_repos@, new_repos@, r@);
}

pub proof fn lemma_changed_told(
    old_repos: Seq<GitRepositoryEntry>,
    new_repos: Seq<GitRepositoryEntry>,
    r: Seq<GitRepositoryEntry>,
)
    requires
        lists_repos(r, changed(old_repos, new_repos)),
        forall|i: int, j: int|
            #![trigger old_repos[i], old_repos[j]]
            0 <= i < j < old_repos.len() ==> old_repos[i].git_dir_path.comps()
                != old_repos[j].git_dir_path.comps(),
        forall|i: int, j: int|
            #![trigger new_repos[i], new_repos[j]]
            0 <= i < j < new_repos.len() ==> new_repos[i].git_dir_path.comps()
                != new_repos[j].git_dir_path.comps(),
    ensures
        forall|i: int|
            #![trigger new_repos[i]]
            0 <= i < new_repos.len() ==> (r.contains(new_repos[i]) <==> forall|j: int|
                #![trigger old_repos[j]]
                0 <= j < old_repos.len() ==> !(old_repos[j].git_dir_path.comps()
                    == new_repos[i].git_dir_path.comps() && old_repos[j].scan_id
                    == new_repos[i].scan_id)),
        forall|i: int|
            #![trigger old_repos[i]]
            0 <= i < old_repos.len() && (forall|j: int|
                #![trigger new_repos[j]]
                0 <= j < new_repos.len() ==> new_repos[j].git_dir_path.comps()
                    != old_repos[i].git_dir_path.comps()) ==> r.contains(old_repos[i]),
        forall|k: int|
            #![trigger r[k]]
            0 <= k < r.len() ==> {
                ||| new_repos.contains(r[k])
                ||| old_repos.contains(r[k]) && forall|j: int|
                    #![trigger new_repos[j]]
                    0 <= j < new_repos.len() ==> new_repos[j].git_dir_path.comps()
                        != r[k].git_dir_path.comps()
            },
        forall|i: int, j: int|
            #![trigger r[i], r[j]]
            0 <= i < j < r.len() ==> r[i].git_dir_path.comps() != r[j].git_dir_path.comps(),
{
    let a = old_repos;
    let b = new_repos;
    let found = changed(a, b);
    assert(names_each_once(a)) by {
        assert forall|i: int, j: int|
            #![trigger a[i], a[j]]
            0 <= i < a.len() && 0 <= j < a.len() && a[i].git_dir_path.comps()
                == a[j].git_dir_path.comps() implies i == j by {
            if i < j {
                assert(a[i].git_dir_path.comps() != a[j].git_dir_path.comps());
            } else if j < i {
                assert(a[j].git_dir_path.comps() != a[i].git_dir_path.comps());
            }
        }
    }
    assert(names_each_once(b)) by {
        assert forall|i: int, j: int|
            #![trigger b[i], b[j]]
            0 <= i < b.len() && 0 <= j < b.len() && b[i].git_dir_path.comps()
                == b[j].git_dir_path.comps() implies i == j by {
            if i < j {
                assert(b[i].git_dir_path.comps() != b[j].git_dir_path.comps());
            } else if j < i {
                assert(b[j].git_dir_path.comps() != b[i].git_dir_path.comps());
            }
        }
    }
    assert forall|i: int| #![trigger b[i]] 0 <= i < b.len() implies (r.contains(b[i]) <==> forall|j: int|
        #![trigger a[j]]
        0 <= j < a.len() ==> !(a[j].git_dir_path.comps() == b[i].git_dir_path.comps()
            && a[j].scan_id == b[i].scan_id)) by {
        let dir = b[i].git_dir_path.comps();
        law_changed_repos(a, b, b[i]);
        assert(b.contains(b[i]));
        if r.contains(b[i]) {
            let k = choose|k: int| 0 <= k < r.len() && r[k] == b[i];
            assert(found.contains_key(r[k].git_dir_path.comps()));
        }
        if found.contains_key(dir) {
            let k = choose|k: int| #![trigger r[k]] 0 <= k < r.len() && r[k] == found[dir];
            assert(r[k] == b[i]);
        }
    }
    assert forall|i: int|
        #![trigger a[i]]
        0 <= i < a.len() && (forall|j: int|
            #![trigger b[j]]
            0 <= j < b.len() ==> b[j].git_dir_path.comps() != a[i].git_dir_path.comps()) implies r.contains(
        a[i],
    ) by {
        let dir = a[i].git_dir_path.comps();
        law_changed_repos(a, b, a[i]);
        assert(a.contains(a[i]));
        assert(!crate::changed_repos::names_dir(b, dir));
        let k = choose|k: int| #![trigger r[k]] 0 <= k < r.len() && r[k] == found[dir];
        assert(r[k] == a[i]);
    }
    assert forall|k: int| #![trigger r[k]] 0 <= k < r.len() implies {
        ||| b.contains(r[k])
        ||| a.contains(r[k]) && forall|j: int|
            #![trigger b[j]]
            0 <= j < b.len() ==> b[j].git_dir_path.comps() != r[k].git_dir_path.comps()
    } by {
        let dir = r[k].git_dir_path.comps();
        assert(found.contains_key(dir) && found[dir] == r[k]);
        crate::changed_repos::lemma_changed_from(a, b, dir);
        if crate::changed_repos::names_dir(b, dir) {
            let j = choose|j: int| #![trigger b[j]] 0 <= j < b.len() && b[j].git_dir_path.comps() == dir;
            law_changed_repos(a, b, b[j]);
            assert(b.contains(b[j]));
        } else {
            let j = choose|j: int| #![trigger a[j]] 0 <= j < a.len() && a[j].git_dir_path.comps() == dir;
            law_changed_repos(a, b, a[j]);
            assert(a.contains(a[j]));
        }
    }
}


/// Finishing a batch of events drops the repositories whose `.git` directory has no entry any more, and
/// no others.
pub proof fn law_gone_repositories_are_dropped(l: &mut LocalSnapshot, repo: GitRepositoryEntry)
    requires
        call_ensures(LocalSnapshot::finish_events, (l,), ()) || call_ensures(
            LocalSnapshot::update_git_repositories,
            (l,),
            (),
        ),
    ensures
        final(l).repos().contains(repo) <==> old(l).repos().contains(repo)
            && old(l).paths_map().contains_key(repo.git_dir_path.comps()),
{
    lemma_left(old(l).repos(), old(l).paths_map(), repo);
}

proof fn lemma_left(s: Seq<GitRepositoryEntry>, paths: ByPath, repo: GitRepositoryEntry)
    ensures
        repos_left(s, paths).contains(repo) <==> s.contains(repo) && paths.contains_key(
            repo.git_dir_path.comps(),
        ),
{
    let keep = |r: GitRepositoryEntry| paths.contains_key(r.git_dir_path.comps());
    broadcast use vstd::seq_lib::group_filter_ensures;
    if s.filter(keep).contains(repo) {
        let i = choose|i: int| 0 <= i < s.filter(keep).len() && s.filter(keep)[i] == repo;
        assert(keep(s.filter(keep)[i]));
        s.lemma_filter_contains_rev(keep, repo);
    }
    assert(repos_left(s, paths) == s.filter(keep));
    if s.contains(repo) && keep(repo) {
        let i = choose|i: int| 0 <= i < s.len() && s[i] == repo;
        assert(s.filter(keep).contains(s[i]));
    }
}

/// Whether a repository of the given directory is known.
pub open spec fn knows_repo(repos: Seq<GitRepositoryEntry>, dir: Seq<Seq<char>>) -> bool {
    exists|j: int| #![trigger repos[j]] 0 <= j < repos.len() && repos[j].content_path.comps() == dir
}

/// Reading a directory named `.git`, in a directory for which no repository is known, makes the
/// repository known that was opened there; reading any other directory changes no repository.
#[verifier::rlimit(40)]
#[verifier::spinoff_prover]
pub proof fn law_git_dir_makes_repository(
    l: &mut LocalSnapshot,
    next_id: &mut usize,
    job: &ScanJob,
    children: Vec<DirChild>,
    repo: Option<u64>,
    r: Vec<ScanJob>,
)
    requires
        old(l).wf(),
        call_ensures(LocalSnapshot::scan_dir, (l, next_id, job, children, repo), r),
    ensures
        ({
            let dir = job.path.comps();
            let before = old(l).repos();
            let after = final(l).repos();
            let is_git = dir.len() > 0 && dir.last() == seq!['.', 'g', 'i', 't'];
            if old(l).paths_map().contains_key(dir) && is_git && repo is Some && !knows_repo(
                before,
                dir.drop_last(),
            ) {
                &&& exists|i: int|
                    #![trigger after[i]]
                    {
                        &&& 0 <= i < after.len()
                        &&& after[i].git_dir_path.comps() == dir
                        &&& after[i].content_path.comps() == dir.drop_last()
                        &&& after[i].repo == repo->0
                        &&& after[i].scan_id == 0
                    }
                &&& forall|i: int|
                    #![trigger before[i]]
                    0 <= i < before.len() ==> after.contains(before[i])
                &&& forall|i: int|
                    #![trigger after[i]]
                    0 <= i < after.len() ==> before.contains(after[i])
                        || after[i].git_dir_path.comps() == dir
            } else {
                after == before
            }
        }),
{
    let dir = job.path.comps();
    let before = old(l).repos();
    let after = final(l).repos();
    lemma_git_names();
    assert(crate::ignore_stack::dot_git() =~= seq!['.', 'g', 'i', 't']);
    if dir.len() > 0 {
        assert(knows_repo(before, dir.drop_last()) == has_key(before, dir.drop_last())) by {
            if knows_repo(before, dir.drop_last()) {
                let j = choose|j: int|
                    #![trigger before[j]]
                    0 <= j < before.len() && before[j].content_path.comps() == dir.drop_last();
                assert(before[j].item_key() == dir.drop_last());
            }
            if has_key(before, dir.drop_last()) {
                let j = choose|j: int|
                    #![trigger before[j]]
                    0 <= j < before.len() && before[j].item_key() == dir.drop_last();
                assert(before[j].content_path.comps() == dir.drop_last());
            }
        }
    }
    if old(l).paths_map().contains_key(dir) && dir.len() > 0 && dir.last() == seq!['.', 'g', 'i', 't']
        && repo is Some && !knows_repo(before, dir.drop_last()) {
        let up = dir.drop_last();
        assert(!old(l).repo_map().contains_key(up));
        assert(final(l).repo_map().contains_key(up));
        let i = lemma_key_index(after, up);
        assert(after[i] == final(l).repo_map()[up]);
        assert forall|k: int| #![trigger before[k]] 0 <= k < before.len() implies after.contains(
            before[k],
        ) by {
            lemma_item_with(before, k);
            let key = before[k].item_key();
            assert(old(l).repo_map().contains_key(key) && old(l).repo_map()[key] == before[k]);
            assert(key != up);
            assert(final(l).repo_map().contains_key(key));
            assert(final(l).repo_map()[key] == old(l).repo_map()[key]);
            let m = lemma_key_index(after, key);
            assert(after[m] == before[k]);
        }
        assert forall|k: int| #![trigger after[k]] 0 <= k < after.len() implies before.contains(
            after[k],
        ) || after[k].git_dir_path.comps() == dir by {
            lemma_item_with(after, k);
            let key = after[k].item_key();
            if key != up {
                assert(old(l).repo_map().contains_key(key));
                let m = lemma_key_index(before, key);
                assert(before[m] == after[k]);
            }
        }
    } else if !old(l).paths_map().contains_key(dir) {
        assert(final(l).same_as(*old(l)));
    }
}

/// The repository of a path is the one with the deepest directory among those that the path lies in,
/// at any depth; there is none exactly where the path lies in none.
pub proof fn law_innermost_repository_is_found(
    l: &LocalSnapshot,
    path: &Path,
    r: Option<GitRepositoryEntry>,
)
    requires
        call_ensures(LocalSnapshot::repo_for, (l, path), r),
    ensures
        r is Some <==> exists|j: int|
            #![trigger l.repos()[j]]
            0 <= j < l.repos().len() && nested_in(path.comps(), l.repos()[j].content_path.comps()),
        r matches Some(repo) ==> {
            &&& l.repos().contains(repo)
            &&& nested_in(path.comps(), repo.content_path.comps())
            &&& forall|j: int|
                #![trigger l.repos()[j]]
                0 <= j < l.repos().len() && nested_in(
                    path.comps(),
                    l.repos()[j].content_path.comps(),
                ) ==> l.repos()[j].content_path.comps().len() <= repo.content_path.comps().len()
        },
{
    assert(r is Some <==> is_managed(l.repos(), path.comps()));
    if r is Some {
        let j = choose|j: int| 0 <= j < l.repos().len() && l.repos()[j] == r->0;
        assert(nested_in(path.comps(), l.repos()[j].content_path.comps()));
    }
}

/// The repository in whose `.git` directory a path lies, at any depth, is found where there is one.
pub proof fn law_repository_of_git_dir_is_found(
    l: &LocalSnapshot,
    path: &Path,
    r: Option<&GitRepositoryEntry>,
)
    requires
        call_ensures(LocalSnapshot::in_dot_git, (l, path), r),
    ensures
        r is Some <==> exists|j: int| #[trigger] lies_in_git_dir(l.repos(), path.comps(), j),
        r matches Some(repo) ==> l.repos().contains(*repo) && nested_in(
            path.comps(),
            repo.git_dir_path.comps(),
        ),
{
    if r is Some {
        let i = choose|i: int|
            #![trigger l.repos()[i]]
            is_first_in_dot_git(l.repos(), path.comps(), i) && l.repos()[i] == *r->0;
        assert(lies_in_git_dir(l.repos(), path.comps(), i));
    }
    if exists|j: int| #[trigger] lies_in_git_dir(l.repos(), path.comps(), j) {
        let j = choose|j: int| #[trigger] lies_in_git_dir(l.repos(), path.comps(), j);
        assert(is_in_git_dir(l.repos(), path.comps())) by {
            assert(nested_in(path.comps(), l.repos()[j].git_dir_path.comps()));
        }
    }
}

} // verus!
