//! What a change in the file system comes to: which paths are looked at, which entries come and go, and
//! what holds once a batch of events is brought in.
use crate::event_status_laws::{are_right_elsewhere, law_finished_events_settle};
use crate::events::{
    are_events_applied, are_paths_removed, is_event_handled, is_step, paths_to_look_at,
    EventOutcome, FsEvent,
};
use crate::ignore_laws::{are_written, is_tree};
use crate::ignore_stack::{gitignore_name, lemma_git_names};
use crate::local_snapshot::{ancestor_inodes, is_without_path, path_ignored, LocalSnapshot};
use crate::outermost::is_covered;
use crate::path::{join_text, nested_in, Path};
use crate::snapshot_laws::tells_metadata;
use crate::status_laws::are_right;
use crate::statuses::{
    are_changed_dirs, dir_statuses, fresh_ignores, is_stale_dir, restated, restated_ids,
};
use std::sync::Arc;
use vstd::prelude::*;

verus! {

/// Of the paths of some events those are looked at that lie in no other one of them: each path of an
/// event lies in one that is looked at, only paths of events are, and none of them lies in another one.
pub proof fn law_outermost_paths_are_looked_at(events: Vec<Arc<Path>>, r: Vec<Arc<Path>>, k: int)
    requires
        0 <= k < events@.len(),
        call_ensures(paths_to_look_at, (events,), r),
    ensures
        exists|j: int|
            #![trigger r@[j]]
            0 <= j < r@.len() && nested_in(events@[k].comps(), r@[j].comps()),
        forall|j: int| #![trigger r@[j]] 0 <= j < r@.len() ==> events@.contains(r@[j]),
        forall|i: int, j: int|
            #![trigger r@[i], r@[j]]
            0 <= i < r@.len() && 0 <= j < r@.len() && i != j ==> !nested_in(
                r@[i].comps(),
                r@[j].comps(),
            ),
{
    assert(is_covered(events@[k].comps(), r@));
}

/// Handling an event: where the file system says something of the path, its entry is there with that,
/// ignored where the ignore files say so; where it says nothing, nothing changes. Every other entry is
/// as it was. A directory is to be read, unless it is one of those that it lies in.
#[verifier::rlimit(40)]
#[verifier::spinoff_prover]
pub proof fn law_event_entry_is_there(
    l: &mut LocalSnapshot,
    path: Arc<Path>,
    event: &FsEvent,
    next_entry_id: &mut usize,
    r: EventOutcome,
    p: Seq<Seq<char>>,
)
    requires
        call_ensures(LocalSnapshot::handle_event, (l, path, event, next_entry_id), r),
    ensures
        ({
            let now = final(l).paths_map();
            let was = old(l).paths_map();
            let here = path.comps();
            &&& event.metadata matches Some(m) ==> {
                &&& now.contains_key(here)
                &&& tells_metadata(now[here], here, m)
                &&& !m.is_dir ==> now[here].kind is File
                &&& now[here].is_ignored == path_ignored(
                    old(l).ignores(),
                    join_text(old(l).snap().root_path()@, path@),
                    m.is_dir,
                )
                &&& final(l).ids_map().contains_key(now[here].id@)
                &&& final(l).ids_map()[now[here].id@].scan_id == old(l).scan()
                &&& r.job is Some <==> m.is_dir && !ancestor_inodes(now, here).contains(m.inode)
                &&& r.job matches Some(job) ==> {
                    &&& job.path == path
                    &&& job.abs_path@ == join_text(old(l).snap().root_path()@, path@)
                    &&& job.ancestor_inodes@ == ancestor_inodes(now, here).insert(m.inode)
                    &&& job.ignore_stack@ is All <== now[here].is_ignored
                }
            }
            &&& event.metadata is None ==> *final(l) == *old(l) && r.job is None && r.reload is None
            &&& p != here ==> {
                &&& now.contains_key(p) == was.contains_key(p)
                &&& now.contains_key(p) ==> now[p] == was[p]
            }
            &&& final(l).scan() == old(l).scan()
        }),
{
}

/// The path of an event in the worktree.
pub open spec fn place_of_event(event: FsEvent, root: Seq<Seq<char>>) -> Seq<Seq<char>> {
    event.path.comps().skip(root.len() as int)
}

/// Whether a path lies in that of an event.
pub open spec fn is_hit(events: Seq<FsEvent>, root: Seq<Seq<char>>, i: int, p: Seq<Seq<char>>) -> bool {
    &&& 0 <= i < events.len()
    &&& nested_in(events[i].path.comps(), root)
    &&& nested_in(p, place_of_event(events[i], root))
}

/// Whether a path is that of an event of which the file system says something.
pub open spec fn is_seen(events: Seq<FsEvent>, root: Seq<Seq<char>>, i: int, p: Seq<Seq<char>>) -> bool {
    0 <= i < events.len() && sees(events[i], root, p)
}

/// Whether an event is for a path, and the file system says something of it.
pub open spec fn sees(event: FsEvent, root: Seq<Seq<char>>, p: Seq<Seq<char>>) -> bool {
    &&& nested_in(event.path.comps(), root)
    &&& p == place_of_event(event, root)
    &&& event.metadata is Some
}

/// Bringing in a batch of events: the path of an event of which the file system says something has its
/// entry, with what is said in the last event for it; any other path that lies in that of an event, at
/// any depth, has none; and every other entry is as it was.
#[verifier::rlimit(40)]
#[verifier::spinoff_prover]
pub proof fn law_events_change_what_they_hit(
    l: &mut LocalSnapshot,
    root: &Path,
    events: &Vec<FsEvent>,
    next_entry_id: &mut usize,
    r: Vec<EventOutcome>,
    p: Seq<Seq<char>>,
)
    requires
        call_ensures(LocalSnapshot::apply_events, (l, root, events, next_entry_id), r),
    ensures
        ({
            let now = final(l).paths_map();
            let was = old(l).paths_map();
            let top = root.comps();
            let seen = exists|i: int| #[trigger] is_seen(events@, top, i, p);
            let hit = exists|i: int| #[trigger] is_hit(events@, top, i, p);
            &&& forall|i: int| #[trigger]
                is_seen(events@, top, i, p) && (forall|j: int| j > i ==> !#[trigger] is_seen(
                    events@,
                    top,
                    j,
                    p,
                )) ==> now.contains_key(p) && tells_metadata(now[p], p, events@[i].metadata->0)
            &&& hit && !seen ==> !now.contains_key(p)
            &&& !hit ==> {
                &&& now.contains_key(p) == was.contains_key(p)
                &&& now.contains_key(p) ==> now[p] == was[p]
            }
            &&& r@.len() == events@.len()
            &&& final(l).scan() == old(l).scan()
        }),
{
    let top = root.comps();
    let evs = events@;
    let (removed, handled, ids) = choose|
        removed: Seq<LocalSnapshot>,
        handled: Seq<LocalSnapshot>,
        ids: Seq<usize>,
    | #[trigger]
        are_events_applied(
            *old(l),
            top,
            evs,
            *old(next_entry_id),
            r@,
            *final(l),
            *final(next_entry_id),
            removed,
            handled,
            ids,
        );
    lemma_applied(
        *old(l),
        top,
        evs,
        *old(next_entry_id),
        r@,
        *final(l),
        *final(next_entry_id),
        removed,
        handled,
        ids,
        p,
    );
}

#[verifier::rlimit(40)]
#[verifier::spinoff_prover]
proof fn lemma_applied(
    before: LocalSnapshot,
    root: Seq<Seq<char>>,
    events: Seq<FsEvent>,
    id: usize,
    outcomes: Seq<EventOutcome>,
    after: LocalSnapshot,
    next_id: usize,
    removed: Seq<LocalSnapshot>,
    handled: Seq<LocalSnapshot>,
    ids: Seq<usize>,
    p: Seq<Seq<char>>,
)
    requires
        are_events_applied(
            before,
            root,
            events,
            id,
            outcomes,
            after,
            next_id,
            removed,
            handled,
            ids,
        ),
    ensures
        ({
            let now = after.paths_map();
            let was = before.paths_map();
            let seen = exists|i: int| #[trigger] is_seen(events, root, i, p);
            let hit = exists|i: int| #[trigger] is_hit(events, root, i, p);
            &&& forall|i: int| #[trigger]
                is_seen(events, root, i, p) && (forall|j: int| j > i ==> !#[trigger] is_seen(
                    events,
                    root,
                    j,
                    p,
                )) ==> now.contains_key(p) && tells_metadata(now[p], p, events[i].metadata->0)
            &&& hit && !seen ==> !now.contains_key(p)
            &&& !hit ==> {
                &&& now.contains_key(p) == was.contains_key(p)
                &&& now.contains_key(p) ==> now[p] == was[p]
            }
            &&& outcomes.len() == events.len()
            &&& after.scan() == before.scan()
        }),
{
    let n = events.len() as int;
    lemma_removed_upto(removed, root, events, p, n);
    assert forall|k: int| #![trigger events[k]] 0 <= k < events.len() implies is_changed_by(
        handled[k],
        root,
        events[k],
        handled[k + 1],
        p,
    ) by {
        lemma_one_step(
            handled[k],
            root,
            events[k],
            ids[k],
            outcomes[k],
            handled[k + 1],
            ids[k + 1],
            p,
        );
    }
    lemma_handled_upto(handled, root, events, p, n);
    assert(handled[n] == after && removed[n] == handled[0]);
    assert forall|i: int| #[trigger] is_seen(events, root, i, p) implies is_hit(events, root, i, p) by {
        assert(p =~= p.subrange(0, p.len() as int));
    }
    if exists|i: int| #[trigger] is_seen(events, root, i, p) {
        let i = choose|i: int| #[trigger] is_seen(events, root, i, p);
        assert(is_hit(events, root, i, p));
    }
    if exists|i: int| #[trigger] is_hit(events, root, i, p) {
        let i = choose|i: int| #[trigger] is_hit(events, root, i, p);
        assert(i < n && is_hit(events, root, i, p));
    }
    assert forall|i: int| #[trigger]
        is_seen(events, root, i, p) && (forall|j: int| j > i ==> !#[trigger] is_seen(
            events,
            root,
            j,
            p,
        )) implies after.paths_map().contains_key(p) && tells_metadata(
        after.paths_map()[p],
        p,
        events[i].metadata->0,
    ) by {
        assert(i < n && is_seen(events, root, i, p));
        assert(forall|j: int| i < j < n ==> !#[trigger] is_seen(events, root, j, p));
    }
}

/// What is left of a path once the first `n` events were taken out.
proof fn lemma_removed_upto(
    states: Seq<LocalSnapshot>,
    root: Seq<Seq<char>>,
    events: Seq<FsEvent>,
    p: Seq<Seq<char>>,
    n: int,
)
    requires
        are_paths_removed(states, root, events),
        0 <= n <= events.len(),
    ensures
        ({
            let now = states[n].paths_map();
            let was = states[0].paths_map();
            let hit = exists|i: int| i < n && #[trigger] is_hit(events, root, i, p);
            &&& hit ==> !now.contains_key(p)
            &&& !hit ==> {
                &&& now.contains_key(p) == was.contains_key(p)
                &&& now.contains_key(p) ==> now[p] == was[p]
            }
            &&& states[n].scan() == states[0].scan()
        }),
    decreases n,
{
    if n > 0 {
        lemma_removed_upto(states, root, events, p, n - 1);
        let e = events[n - 1];
        let here = is_hit(events, root, n - 1, p);
        let before = exists|i: int| i < n - 1 && #[trigger] is_hit(events, root, i, p);
        if before {
            let i = choose|i: int| i < n - 1 && #[trigger] is_hit(events, root, i, p);
            assert(i < n && is_hit(events, root, i, p));
        }
        if exists|i: int| i < n && #[trigger] is_hit(events, root, i, p) {
            let i = choose|i: int| i < n && #[trigger] is_hit(events, root, i, p);
            if i == n - 1 {
                assert(here);
            } else {
                assert(i < n - 1 && is_hit(events, root, i, p));
            }
        }
        if nested_in(e.path.comps(), root) {
            assert(is_without_path(states[n - 1], place_of_event(e, root), states[n]));
        } else {
            assert(states[n - 1 + 1] == states[n - 1]);
        }
    }
}

/// What becomes of a path where an event is handled.
spec fn is_changed_by(
    before: LocalSnapshot,
    root: Seq<Seq<char>>,
    event: FsEvent,
    after: LocalSnapshot,
    p: Seq<Seq<char>>,
) -> bool {
    let now = after.paths_map();
    let was = before.paths_map();
    &&& sees(event, root, p) ==> now.contains_key(p) && tells_metadata(now[p], p, event.metadata->0)
    &&& !sees(event, root, p) ==> {
        &&& now.contains_key(p) == was.contains_key(p)
        &&& now.contains_key(p) ==> now[p] == was[p]
    }
    &&& after.scan() == before.scan()
}

/// What is at a path once the first `n` events were handled.
proof fn lemma_handled_upto(
    states: Seq<LocalSnapshot>,
    root: Seq<Seq<char>>,
    events: Seq<FsEvent>,
    p: Seq<Seq<char>>,
    n: int,
)
    requires
        states.len() == events.len() + 1,
        forall|k: int|
            #![trigger events[k]]
            0 <= k < events.len() ==> is_changed_by(states[k], root, events[k], states[k + 1], p),
        0 <= n <= events.len(),
    ensures
        ({
            let now = states[n].paths_map();
            let was = states[0].paths_map();
            let seen = exists|i: int| i < n && #[trigger] is_seen(events, root, i, p);
            &&& forall|i: int|
                i < n && #[trigger] is_seen(events, root, i, p) && (forall|j: int|
                    i < j < n ==> !#[trigger] is_seen(events, root, j, p)) ==> now.contains_key(p)
                    && tells_metadata(now[p], p, events[i].metadata->0)
            &&& !seen ==> {
                &&& now.contains_key(p) == was.contains_key(p)
                &&& now.contains_key(p) ==> now[p] == was[p]
            }
            &&& states[n].scan() == states[0].scan()
        }),
    decreases n,
{
    if n > 0 {
        lemma_handled_upto(states, root, events, p, n - 1);
        let k = n - 1;
        let after = states[n];
        let here = is_seen(events, root, k, p);
        assert(is_changed_by(states[k], root, events[k], states[k + 1], p));
        assert(here == sees(events[k], root, p));
        assert forall|i: int|
            i < n && #[trigger] is_seen(events, root, i, p) && (forall|j: int|
                i < j < n ==> !#[trigger] is_seen(events, root, j, p)) implies after.paths_map().contains_key(p)
            && tells_metadata(after.paths_map()[p], p, events[i].metadata->0) by {
            if i < k {
                assert(!is_seen(events, root, k, p));
                assert(forall|j: int| i < j < k ==> !#[trigger] is_seen(events, root, j, p));
            }
        }
        if exists|i: int| i < k && #[trigger] is_seen(events, root, i, p) {
            let i = choose|i: int| i < k && #[trigger] is_seen(events, root, i, p);
            assert(i < n && is_seen(events, root, i, p));
        }
        if here {
            assert(k < n && is_seen(events, root, k, p));
        }
    }
}

proof fn lemma_one_step(
    before: LocalSnapshot,
    root: Seq<Seq<char>>,
    event: FsEvent,
    id: usize,
    outcome: EventOutcome,
    after: LocalSnapshot,
    next_id: usize,
    p: Seq<Seq<char>>,
)
    requires
        is_step(before, root, event, id, outcome, after, next_id),
    ensures
        is_changed_by(before, root, event, after, p),
{
    if nested_in(event.path.comps(), root) {
        let path = choose|path: Arc<Path>|
            {
                &&& path.comps() == event.path.comps().skip(root.len() as int)
                &&& #[trigger] is_event_handled(before, path, event, id, outcome, after, next_id)
            };
        lemma_handled_one(before, path, event, id, outcome, after, next_id, p);
    }
}

proof fn lemma_handled_one(
    before: LocalSnapshot,
    path: Arc<Path>,
    event: FsEvent,
    id: usize,
    outcome: EventOutcome,
    after: LocalSnapshot,
    next_id: usize,
    p: Seq<Seq<char>>,
)
    requires
        is_event_handled(before, path, event, id, outcome, after, next_id),
    ensures
        event.metadata matches Some(m) ==> after.paths_map().contains_key(path.comps())
            && tells_metadata(after.paths_map()[path.comps()], path.comps(), m),
        p != path.comps() || event.metadata is None ==> {
            &&& after.paths_map().contains_key(p) == before.paths_map().contains_key(p)
            &&& after.paths_map().contains_key(p) ==> after.paths_map()[p] == before.paths_map()[p]
        },
        after.scan() == before.scan(),
{
}

/// Once a batch of events is finished, an ignore file of a directory of the worktree is known exactly
/// where it was and its entry is there; those above the root stay known. No entry comes or goes, nor
/// does any of them change in anything but its status; and the scan has ended.
#[verifier::rlimit(40)]
#[verifier::spinoff_prover]
pub proof fn law_finished_batch_forgets_gone_files(
    l: &mut LocalSnapshot,
    dir: Seq<Seq<char>>,
    p: Seq<Seq<char>>,
)
    requires
        call_ensures(LocalSnapshot::finish_events, (l,), ()),
    ensures
        ({
            let root = old(l).snap().root_path().comps();
            let was = old(l).ignores();
            let now = final(l).ignores();
            let file = dir.skip(root.len() as int).push(
                seq!['.', 'g', 'i', 't', 'i', 'g', 'n', 'o', 'r', 'e'],
            );
            let entries = final(l).paths_map();
            let had = old(l).paths_map();
            &&& now.contains_key(dir) <==> was.contains_key(dir) && (nested_in(dir, root)
                ==> had.contains_key(file))
            &&& now.contains_key(dir) ==> now[dir] == was[dir]
            &&& entries.contains_key(p) == had.contains_key(p)
            &&& had.contains_key(p) ==> {
                &&& entries[p].id == had[p].id
                &&& entries[p].path == had[p].path
                &&& entries[p].kind == had[p].kind
                &&& entries[p].inode == had[p].inode
                &&& entries[p].mtime == had[p].mtime
                &&& entries[p].is_symlink == had[p].is_symlink
            }
            &&& final(l).snap().completed_scan() == final(l).scan()
            &&& final(l).removed().dom().is_empty()
        }),
{
    lemma_git_names();
    assert(gitignore_name() =~= seq![
        '.',
        'g',
        'i',
        't',
        'i',
        'g',
        'n',
        'o',
        'r',
        'e',
    ]);
}

/// Once a batch of events is finished, every entry has the status that the ignore files give it, and
/// every ignore file of the worktree that is known is there. This holds where no directory is left to
/// be read.
#[verifier::rlimit(40)]
#[verifier::spinoff_prover]
pub proof fn law_finished_batch_is_settled(l: &mut LocalSnapshot)
    requires
        call_ensures(LocalSnapshot::finish_events, (l,), ()),
        old(l).wf(),
        is_tree(old(l).paths_map()),
        old(l).snap().root_path().comps().len() > 0,
        are_right_elsewhere(*old(l)),
        are_written(*old(l)),
    ensures
        are_right(final(l).paths_map(), final(l).ignores(), final(l).root_text()),
        forall|dir: Seq<Seq<char>>| !#[trigger] is_stale_dir(*final(l), dir),
{
    let dirs = choose|dirs: Seq<Arc<Path>>| #[trigger]
        are_changed_dirs(*old(l), dirs) && {
            let statuses = dir_statuses(
                *old(l),
                fresh_ignores(*old(l)),
                dirs,
                dirs.len() as int,
            );
            &&& final(l).paths_map() == restated(old(l).paths_map(), statuses)
            &&& final(l).ids_map() == restated_ids(
                old(l).ids_map(),
                old(l).paths_map(),
                statuses,
                old(l).scan(),
            )
        };
    law_finished_events_settle(*old(l), dirs, *final(l));
}

} // verus!
