//! The changes of the file system: how what happened to some paths is brought into a snapshot.
use crate::entry::{is_entry_for, Entry, Metadata};
use crate::ids::next_number;
use crate::ignore_stack::IgnoreRules;
use crate::local_snapshot::{
    ancestor_inodes, are_repos_touched, is_with_entry, is_without_path, path_ignored,
    repos_left, rules_for, GitRepositoryEntry, LocalSnapshot, Removed,
};
use crate::outermost::{are_outermost, outermost};
use crate::path::{join_text, nested_in, Path};
use crate::path_text::text_behind;
use crate::scanner::ScanJob;
use crate::snapshot::listed;
use crate::statuses::{are_changed_dirs, dir_statuses, fresh_ignores, restated, restated_ids};
use crate::sum_tree::SumTree;
use std::sync::Arc;
use vstd::prelude::*;

verus! {

/// Something that happened to a path.
pub struct FsEvent {
    /// The absolute path, with the links in the path of the worktree resolved.
    pub path: Arc<Path>,
    /// What the file system says of the path by now: nothing where it is gone or cannot be looked
    /// at.
    pub metadata: Option<Metadata>,
    /// The text of an ignore file that can be read.
    pub contents: Option<String>,
}

/// What a string holds, where there is one.
pub open spec fn text_of(contents: Option<String>) -> Option<Seq<char>> {
    match contents {
        Some(t) => Some(t@),
        None => None,
    }
}

/// What is left to do for an event.
pub struct EventOutcome {
    /// A directory that has to be read.
    pub job: Option<ScanJob>,
    /// The number of a repository whose index has to be read again.
    pub reload: Option<u64>,
}

/// The paths that have to be looked at for some events: what happened below a path is seen where
/// the path is looked at.
pub fn paths_to_look_at(events: Vec<Arc<Path>>) -> (r: Vec<Arc<Path>>)
    ensures
        are_outermost(events@, r@),
{
    outermost(events)
}

/// Whether an entry is the one that is put in for an event.
pub open spec fn is_event_entry(
    e: Entry,
    before: LocalSnapshot,
    path: Arc<Path>,
    metadata: Metadata,
    id: usize,
) -> bool {
    &&& is_entry_for(e, path@, metadata, before.snap().root_chars())
    &&& e.id@ == id
    &&& e.path == path
    &&& e.is_ignored == path_ignored(
        before.ignores(),
        join_text(before.root_text(), path@),
        metadata.is_dir,
    )
}

/// Whether a job is the one for a directory that an event speaks of.
pub open spec fn is_event_job(
    job: ScanJob,
    before: LocalSnapshot,
    path: Arc<Path>,
    metadata: Metadata,
    after: LocalSnapshot,
) -> bool {
    let abs = join_text(before.root_text(), path@);
    &&& job.abs_path@ == abs
    &&& job.path == path
    &&& job.ignore_stack@ == if path_ignored(before.ignores(), abs, metadata.is_dir) {
        IgnoreRules::All
    } else {
        rules_for(before.ignores(), abs)
    }
    &&& job.ancestor_inodes@ == ancestor_inodes(after.paths_map(), path.comps()).insert(
        metadata.inode,
    )
}

/// Whether a snapshot is what another one becomes where an event is handled: the entry for what
/// the file system says of the path is put in, and the repository in whose `.git` directory the
/// path lies is noted as changed.
pub open spec fn is_event_handled(
    before: LocalSnapshot,
    path: Arc<Path>,
    event: FsEvent,
    id: usize,
    outcome: EventOutcome,
    after: LocalSnapshot,
    next_id: usize,
) -> bool {
    match event.metadata {
        Some(metadata) => {
            &&& exists|e: Entry, r: Entry, between: LocalSnapshot|
                {
                    &&& #[trigger] is_event_entry(e, before, path, metadata, id)
                    &&& #[trigger] is_with_entry(
                        before,
                        e,
                        text_of(event.contents),
                        r,
                        between,
                    )
                    &&& after.snap() == between.snap()
                    &&& after.ignores() == between.ignores()
                    &&& after.removed() == between.removed()
                    &&& are_repos_touched(
                        between.repos(),
                        path.comps(),
                        before.scan(),
                        outcome.reload,
                        after.repos(),
                    )
                }
            &&& next_id == next_number(id)
            &&& outcome.job is Some <==> metadata.is_dir && !ancestor_inodes(
                after.paths_map(),
                path.comps(),
            ).contains(metadata.inode)
            &&& outcome.job matches Some(job) ==> is_event_job(job, before, path, metadata, after)
        },
        None => {
            &&& after == before
            &&& next_id == id
            &&& outcome.job is None
            &&& outcome.reload is None
        },
    }
}

/// Whether snapshots follow one another as the paths of events that lie in the worktree are taken
/// out.
pub open spec fn are_paths_removed(
    states: Seq<LocalSnapshot>,
    root: Seq<Seq<char>>,
    events: Seq<FsEvent>,
) -> bool {
    &&& states.len() == events.len() + 1
    &&& forall|i: int| #![trigger states[i]] 0 <= i < states.len() ==> states[i].wf()
    &&& forall|i: int|
        #![trigger events[i]]
        0 <= i < events.len() ==> if nested_in(events[i].path.comps(), root) {
            is_without_path(
                states[i],
                events[i].path.comps().skip(root.len() as int),
                states[i + 1],
            )
        } else {
            states[i + 1] == states[i]
        }
}

/// Whether one event, that may not lie in the worktree, is handled.
pub open spec fn is_step(
    before: LocalSnapshot,
    root: Seq<Seq<char>>,
    event: FsEvent,
    id: usize,
    outcome: EventOutcome,
    after: LocalSnapshot,
    next_id: usize,
) -> bool {
    if nested_in(event.path.comps(), root) {
        exists|path: Arc<Path>|
            {
                &&& path.comps() == event.path.comps().skip(root.len() as int)
                &&& path@ == text_behind(event.path@, root.len() as int)
                &&& #[trigger] is_event_handled(before, path, event, id, outcome, after, next_id)
            }
    } else {
        &&& after == before
        &&& next_id == id
        &&& outcome.job is None
        &&& outcome.reload is None
    }
}

/// Whether snapshots, and the identifiers that are taken, follow one another as events are
/// handled.
pub open spec fn are_events_handled(
    states: Seq<LocalSnapshot>,
    ids: Seq<usize>,
    root: Seq<Seq<char>>,
    events: Seq<FsEvent>,
    outcomes: Seq<EventOutcome>,
) -> bool {
    &&& states.len() == events.len() + 1
    &&& ids.len() == events.len() + 1
    &&& outcomes.len() == events.len()
    &&& forall|i: int|
        #![trigger events[i]]
        0 <= i < events.len() ==> is_step(
            states[i],
            root,
            events[i],
            ids[i],
            outcomes[i],
            states[i + 1],
            ids[i + 1],
        )
}

/// Whether a snapshot is what another one becomes where events are brought in: first all their
/// paths are taken out, then what the file system says of them is put in.
pub open spec fn are_events_applied(
    before: LocalSnapshot,
    root: Seq<Seq<char>>,
    events: Seq<FsEvent>,
    id: usize,
    outcomes: Seq<EventOutcome>,
    after: LocalSnapshot,
    next_id: usize,
    removed: Seq<LocalSnapshot>,
    handled: Seq<LocalSnapshot>,
    ids: Seq<usize>,
) -> bool {
    &&& are_paths_removed(removed, root, events)
    &&& removed[0] == before
    &&& are_events_handled(handled, ids, root, events, outcomes)
    &&& handled[0] == removed.last()
    &&& handled.last() == after
    &&& ids[0] == id
    &&& ids.last() == next_id
}

impl LocalSnapshot {
    /// Puts in what the file system says of a path that something happened to. Tells what is left
    /// to do.
    pub fn handle_event(&mut self, path: Arc<Path>, event: &FsEvent, next_entry_id: &mut usize) -> (r:
        EventOutcome)
        requires
            old(self).wf(),
        ensures
            final(self).wf(),
            is_event_handled(
                *old(self),
                path,
                *event,
                *old(next_entry_id),
                r,
                *final(self),
                *final(next_entry_id),
            ),
    {
        match event.metadata {
            None => EventOutcome { job: None, reload: None },
            Some(metadata) => {
                let abs_path = self.snapshot.abs_path.join(&path);
                let ignore_stack = self.ignore_stack_for_abs_path(&abs_path, metadata.is_dir);
                let mut entry = Entry::new(
                    path.clone(),
                    &metadata,
                    next_entry_id,
                    &self.snapshot.root_char_bag,
                );
                entry.is_ignored = ignore_stack.is_all();
                proof {
                    let abs = abs_path@;
                    assert(ignore_stack@ is All <==> path_ignored(
                        self.ignores(),
                        abs,
                        metadata.is_dir,
                    )) by {
                        if rules_for(self.ignores(), abs) is All {
                            assert(path_ignored(self.ignores(), abs, metadata.is_dir));
                        }
                    }
                }
                let ghost e = entry;
                let contents: Option<&str> = match &event.contents {
                    Some(contents) => Some(contents.as_str()),
                    None => None,
                };
                let inserted = self.insert_entry(entry, contents);
                let ghost between = *self;
                let reload = self.touch_dot_git(&path);
                proof {
                    assert(is_event_entry(e, *old(self), path, metadata, *old(next_entry_id)));
                    assert(is_with_entry(
                        *old(self),
                        e,
                        text_of(event.contents),
                        inserted,
                        between,
                    ));
                }
                let mut ancestor_inodes = self.ancestor_inodes_for_path(&path);
                let job = if metadata.is_dir && !ancestor_inodes.contains(&metadata.inode) {
                    ancestor_inodes.insert(metadata.inode);
                    Some(
                        ScanJob {
                            abs_path: Arc::new(abs_path),
                            path,
                            ignore_stack,
                            ancestor_inodes,
                        },
                    )
                } else {
                    None
                };
                EventOutcome { job, reload }
            },
        }
    }

    /// Brings events into the snapshot. `root_canonical_path` is the path of the worktree with its
    /// links resolved; events elsewhere are passed over. All paths are taken out before anything
    /// is put in, so that what was renamed keeps its identifier.
    pub fn apply_events(
        &mut self,
        root_canonical_path: &Path,
        events: &Vec<FsEvent>,
        next_entry_id: &mut usize,
    ) -> (r: Vec<EventOutcome>)
        requires
            old(self).wf(),
        ensures
            final(self).wf(),
            exists|removed: Seq<LocalSnapshot>, handled: Seq<LocalSnapshot>, ids: Seq<usize>| #[trigger]
                are_events_applied(
                    *old(self),
                    root_canonical_path.comps(),
                    events@,
                    *old(next_entry_id),
                    r@,
                    *final(self),
                    *final(next_entry_id),
                    removed,
                    handled,
                    ids,
                ),
    {
        let ghost root = root_canonical_path.comps();
        let ghost es = events@;
        let ghost mut removed: Seq<LocalSnapshot> = seq![*self];
        let mut i: usize = 0;
        while i < events.len()
            invariant
                i <= events.len(),
                es == events@,
                root == root_canonical_path.comps(),
                self.wf(),
                removed.len() == i + 1,
                removed[0] == *old(self),
                removed.last() == *self,
                are_paths_removed(removed, root, es.take(i as int)),
            decreases events.len() - i,
        {
            let ghost before = removed;
            match events[i].path.strip_prefix(root_canonical_path) {
                Some(path) => {
                    self.remove_path(&path);
                },
                None => {},
            }
            proof {
                removed = before.push(*self);
                assert forall|k: int|
                    #![trigger es.take(i + 1)[k]]
                    0 <= k < i + 1 implies if nested_in(es.take(i + 1)[k].path.comps(), root) {
                    is_without_path(
                        removed[k],
                        es.take(i + 1)[k].path.comps().skip(root.len() as int),
                        removed[k + 1],
                    )
                } else {
                    removed[k + 1] == removed[k]
                } by {
                    if k < i {
                        assert(es.take(i as int)[k] == es.take(i + 1)[k]);
                        assert(before[k + 1] == removed[k + 1]);
                    }
                }
            }
            i = i + 1;
        }
        assert(es.take(es.len() as int) =~= es);
        let ghost mut handled: Seq<LocalSnapshot> = seq![*self];
        let ghost mut ids: Seq<usize> = seq![*next_entry_id];
        let mut outcomes: Vec<EventOutcome> = Vec::new();
        let mut j: usize = 0;
        while j < events.len()
            invariant
                j <= events.len(),
                es == events@,
                root == root_canonical_path.comps(),
                self.wf(),
                handled.len() == j + 1,
                ids.len() == j + 1,
                handled[0] == removed.last(),
                handled.last() == *self,
                ids[0] == *old(next_entry_id),
                ids.last() == *next_entry_id,
                are_events_handled(handled, ids, root, es.take(j as int), outcomes@),
            decreases events.len() - j,
        {
            let ghost states_before = handled;
            let ghost ids_before = ids;
            let ghost outcomes_before = outcomes@;
            match events[j].path.strip_prefix(root_canonical_path) {
                Some(path) => {
                    let path = Arc::new(path);
                    let outcome = self.handle_event(path, &events[j], next_entry_id);
                    assert(is_event_handled(
                        states_before.last(),
                        path,
                        es[j as int],
                        ids_before.last(),
                        outcome,
                        *self,
                        *next_entry_id,
                    ));
                    outcomes.push(outcome);
                },
                None => {
                    outcomes.push(EventOutcome { job: None, reload: None });
                },
            }
            proof {
                handled = states_before.push(*self);
                ids = ids_before.push(*next_entry_id);
                let next = es.take(j + 1);
                assert forall|k: int| #![trigger next[k]] 0 <= k < next.len() implies is_step(
                    handled[k],
                    root,
                    next[k],
                    ids[k],
                    outcomes@[k],
                    handled[k + 1],
                    ids[k + 1],
                ) by {
                    if k < j {
                        assert(es.take(j as int)[k] == next[k]);
                        assert(states_before[k + 1] == handled[k + 1]);
                        assert(ids_before[k + 1] == ids[k + 1]);
                        assert(outcomes_before[k] == outcomes@[k]);
                    }
                }
            }
            j = j + 1;
        }
        assert(es.take(es.len() as int) =~= es);
        assert(are_events_applied(
            *old(self),
            root,
            es,
            *old(next_entry_id),
            outcomes@,
            *self,
            *next_entry_id,
            removed,
            handled,
            ids,
        ));
        outcomes
    }

    /// Ends the handling of a batch of events, once the directories that had to be read are read:
    /// renames are not followed beyond the batch, the statuses of entries and the repositories are
    /// brought up to date, and the scan has ended.
    pub fn finish_events(&mut self)
        requires
            old(self).wf(),
            listed(old(self).paths_map(), old(self).ids_map()),
        ensures
            final(self).wf(),
            final(self).snap().same_tree(old(self).snap()),
            final(self).scan() == old(self).scan(),
            final(self).snap().completed_scan() == old(self).scan(),
            final(self).removed() == Removed::empty(),
            final(self).ignores() == fresh_ignores(*old(self)),
            final(self).repos() == repos_left(old(self).repos(), old(self).paths_map()),
            exists|dirs: Seq<Arc<Path>>| #[trigger]
                are_changed_dirs(*old(self), dirs) && {
                    let statuses = dir_statuses(
                        *old(self),
                        fresh_ignores(*old(self)),
                        dirs,
                        dirs.len() as int,
                    );
                    &&& final(self).paths_map() == restated(old(self).paths_map(), statuses)
                    &&& final(self).ids_map() == restated_ids(
                        old(self).ids_map(),
                        old(self).paths_map(),
                        statuses,
                        old(self).scan(),
                    )
                },
    {
        self.removed_entry_ids = SumTree::new();
        assert(self.removed() =~= Removed::empty());
        let ghost begun = *self;
        self.update_ignore_statuses();
        proof {
            let dirs = choose|dirs: Seq<Arc<Path>>| #[trigger]
                are_changed_dirs(begun, dirs) && {
                    let statuses = dir_statuses(
                        begun,
                        fresh_ignores(begun),
                        dirs,
                        dirs.len() as int,
                    );
                    &&& self.paths_map() == restated(begun.paths_map(), statuses)
                    &&& self.ids_map() == restated_ids(
                        begun.ids_map(),
                        begun.paths_map(),
                        statuses,
                        begun.scan(),
                    )
                };
            assert(are_changed_dirs(begun, dirs));
            crate::statuses::lemma_changed_dirs_same(begun, *old(self), dirs);
        }
        let ghost updated = *self;
        self.update_git_repositories();
        proof {
            assert(updated.paths_map().dom() =~= old(self).paths_map().dom());
            let paths = updated.paths_map();
            let old_paths = old(self).paths_map();
            let keep = |r: GitRepositoryEntry| paths.contains_key(r.git_dir_path.comps());
            let keep_old = |r: GitRepositoryEntry| old_paths.contains_key(r.git_dir_path.comps());
            assert(keep =~= keep_old) by {
                assert forall|r: GitRepositoryEntry| #[trigger] keep(r) == keep_old(r) by {
                    assert(paths.dom().contains(r.git_dir_path.comps()) == old_paths.dom().contains(
                        r.git_dir_path.comps(),
                    ));
                }
            }
        }
        self.scan_completed();
    }
}

} // verus!
