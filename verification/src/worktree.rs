//! Worktrees, local and remote.
use crate::diagnostics::{DiagnosticSummary, Summaries};
use crate::entry::{Entry, Metadata};
use crate::ids::{next_number, WorktreeId};
use crate::local_worktree::{
    is_first_snapshot, is_polled, Diagnostics, Event, LocalWorktree, PollOutcome,
};
use crate::path::Path;
use crate::path_map::AtPath;
use crate::proto;
use crate::remote_worktree::RemoteWorktree;
use crate::snapshot::{ById, Snapshot};
use crate::sum_tree::sorted;
use crate::text::lower_text;
use std::sync::Arc;
use vstd::prelude::*;

verus! {

/// A tree of files, here or on another host.
#[allow(clippy::large_enum_variant)]
pub enum Worktree {
    Local(LocalWorktree),
    Remote(RemoteWorktree),
}

impl Worktree {
    /// What the worktree shows.
    pub open spec fn snap(&self) -> Snapshot {
        match self {
            Worktree::Local(worktree) => worktree.local().snap(),
            Worktree::Remote(worktree) => worktree.shows(),
        }
    }

    /// Whether the worktree is shown.
    pub open spec fn shown(&self) -> bool {
        match self {
            Worktree::Local(worktree) => worktree.shown(),
            Worktree::Remote(worktree) => worktree.shown(),
        }
    }

    /// The summaries of diagnostics in the order of their paths.
    pub open spec fn summary_list(&self) -> Seq<AtPath<DiagnosticSummary>> {
        match self {
            Worktree::Local(worktree) => worktree.summary_list(),
            Worktree::Remote(worktree) => worktree.summary_list(),
        }
    }

    /// Whether everything stands in order.
    pub open spec fn wf(&self) -> bool {
        match self {
            Worktree::Local(worktree) => worktree.wf(),
            Worktree::Remote(worktree) => worktree.wf(),
        }
    }

    /// A worktree of the local file system, before its first scan.
    pub fn local(
        id: WorktreeId,
        path: Arc<Path>,
        visible: bool,
        metadata: Option<Metadata>,
        next_entry_id: &mut usize,
    ) -> (r: Self)
        ensures
            r is Local,
            r.wf(),
            is_first_snapshot(
                r->Local_0.local(),
                id@,
                path,
                metadata,
                *old(next_entry_id),
            ),
            r->Local_0.found().same_as(r->Local_0.local()),
            r->Local_0.state() is Initializing,
            r->Local_0.shared_in() is None,
            r->Local_0.diagnostics_map() == Diagnostics::empty(),
            r->Local_0.summaries() == Summaries::empty(),
            r.shown() == visible,
            *final(next_entry_id) == if metadata is Some {
                next_number(*old(next_entry_id))
            } else {
                *old(next_entry_id)
            },
    {
        Worktree::Local(LocalWorktree::create(id, path, visible, metadata, next_entry_id))
    }

    /// Shows what was found or told so far, as the kind of the worktree has it.
    pub fn poll_snapshot(&mut self) -> (r: PollOutcome)
        requires
            old(self).wf(),
        ensures
            final(self).wf(),
            match *old(self) {
                Worktree::Local(before) => *final(self) matches Worktree::Local(after)
                    && is_polled(before, false, r, after),
                Worktree::Remote(before) => {
                    &&& *final(self) matches Worktree::Remote(after)
                    &&& after.shows().same_as(before.told())
                    &&& after.told() == before.told()
                    &&& after.waiting() == before.waiting()
                    &&& after.same_settings(before)
                    &&& r.events@.len() == 1
                    &&& r.events@[0] is UpdatedEntries
                    &&& !r.poll_again
                    &&& !r.publish
                },
            },
    {
        match self {
            Worktree::Local(worktree) => worktree.poll_snapshot(false),
            Worktree::Remote(worktree) => {
                let mut events: Vec<Event> = Vec::new();
                events.push(worktree.poll_snapshot());
                PollOutcome { events, poll_again: false, publish: false }
            },
        }
    }

    /// A worktree of another host.
    pub fn remote(project_remote_id: u64, replica_id: u16, worktree: proto::WorktreeMetadata) -> (r:
        Self)
        ensures
            r is Remote,
            r.wf(),
            r.shown() == worktree.visible,
            r.snap().tree_id() == worktree.id as usize,
            r.snap().root_path()@ == worktree.abs_path@,
            r.snap().name() == worktree.root_name@,
            r.snap().root_chars() == lower_text(worktree.root_name@),
            r.snap().list() == Seq::<Entry>::empty(),
            r.snap().ids_map() == ById::empty(),
            r.snap().is_consistent(),
            r.snap().scan() == 0,
            r.snap().completed_scan() == 0,
            r->Remote_0.project() == project_remote_id,
            r->Remote_0.replica() == replica_id,
            r->Remote_0.told().same_as(r->Remote_0.shows()),
            r->Remote_0.takes_updates(),
            !r->Remote_0.is_cut_off(),
            r->Remote_0.waiting() == Seq::<(usize, u64)>::empty(),
            r->Remote_0.summaries() == Summaries::empty(),
            r.summary_list() == Seq::<AtPath<DiagnosticSummary>>::empty(),
    {
        Worktree::Remote(RemoteWorktree::new(project_remote_id, replica_id, worktree))
    }

    /// The worktree where it is a local one.
    pub fn as_local(&self) -> (r: Option<&LocalWorktree>)
        ensures
            match r {
                Some(worktree) => *self == Worktree::Local(*worktree),
                None => self is Remote,
            },
    {
        match self {
            Worktree::Local(worktree) => Some(worktree),
            Worktree::Remote(_) => None,
        }
    }

    /// The worktree where it is a remote one.
    pub fn as_remote(&self) -> (r: Option<&RemoteWorktree>)
        ensures
            match r {
                Some(worktree) => *self == Worktree::Remote(*worktree),
                None => self is Local,
            },
    {
        match self {
            Worktree::Local(_) => None,
            Worktree::Remote(worktree) => Some(worktree),
        }
    }

    /// The worktree where it is a local one, to be changed.
    pub fn as_local_mut(&mut self) -> (r: Option<&mut LocalWorktree>)
        ensures
            match r {
                Some(worktree) => *old(self) == Worktree::Local(*worktree) && *final(self)
                    == Worktree::Local(*final(worktree)),
                None => *old(self) is Remote && *final(self) == *old(self),
            },
    {
        match self {
            Worktree::Local(worktree) => Some(worktree),
            Worktree::Remote(_) => None,
        }
    }

    /// The worktree where it is a remote one, to be changed.
    pub fn as_remote_mut(&mut self) -> (r: Option<&mut RemoteWorktree>)
        ensures
            match r {
                Some(worktree) => *old(self) == Worktree::Remote(*worktree) && *final(self)
                    == Worktree::Remote(*final(worktree)),
                None => *old(self) is Local && *final(self) == *old(self),
            },
    {
        match self {
            Worktree::Local(_) => None,
            Worktree::Remote(worktree) => Some(worktree),
        }
    }

    /// Whether the worktree is a local one.
    pub fn is_local(&self) -> (r: bool)
        ensures
            r == (self is Local),
    {
        match self {
            Worktree::Local(_) => true,
            Worktree::Remote(_) => false,
        }
    }

    /// Whether the worktree is a remote one.
    pub fn is_remote(&self) -> (r: bool)
        ensures
            r == (self is Remote),
    {
        !self.is_local()
    }

    /// What the worktree shows.
    pub fn snapshot(&self) -> (r: Snapshot)
        ensures
            r.same_as(self.snap()),
            self.wf() ==> r.wf(),
    {
        match self {
            Worktree::Local(worktree) => {
                let l = worktree.snapshot();
                l.snapshot
            },
            Worktree::Remote(worktree) => worktree.snapshot(),
        }
    }

    /// What the worktree shows, borrowed.
    pub fn current(&self) -> (r: &Snapshot)
        ensures
            *r == self.snap(),
            self.wf() ==> r.wf(),
    {
        match self {
            Worktree::Local(worktree) => worktree.current().snapshot(),
            Worktree::Remote(worktree) => worktree.current(),
        }
    }

    /// The identifier of the worktree.
    pub fn id(&self) -> (r: WorktreeId)
        ensures
            r@ == self.snap().tree_id(),
    {
        self.current().id()
    }

    /// The name of the worktree.
    pub fn root_name(&self) -> (r: &str)
        ensures
            r@ == self.snap().name(),
    {
        self.current().root_name()
    }

    /// The name of the worktree as an owned string.
    pub fn root_name_string(&self) -> (r: String)
        ensures
            r@ == self.snap().name(),
    {
        self.current().root_name.clone()
    }

    /// The number of the last scan that began.
    pub fn scan_id(&self) -> (r: usize)
        ensures
            r == self.snap().scan(),
    {
        self.current().scan_id()
    }

    /// The number of the last scan that ended.
    pub fn completed_scan_id(&self) -> (r: usize)
        ensures
            r == self.snap().completed_scan(),
    {
        self.current().completed_scan_id()
    }

    /// Whether the worktree is shown.
    pub fn is_visible(&self) -> (r: bool)
        ensures
            r == self.shown(),
    {
        match self {
            Worktree::Local(worktree) => worktree.is_visible(),
            Worktree::Remote(worktree) => worktree.is_visible(),
        }
    }

    /// The replica that this host is.
    pub fn replica_id(&self) -> (r: u16)
        ensures
            r == match self {
                Worktree::Local(_) => 0,
                Worktree::Remote(worktree) => worktree.replica(),
            },
    {
        match self {
            Worktree::Local(_) => 0,
            Worktree::Remote(worktree) => worktree.replica_id(),
        }
    }

    /// The summaries of diagnostics in the order of their paths.
    pub fn diagnostic_summaries(&self) -> (r: Vec<(Arc<Path>, DiagnosticSummary)>)
        requires
            self.wf(),
        ensures
            sorted(self.summary_list()),
            r@.len() == self.summary_list().len(),
            forall|i: int|
                #![trigger r@[i]]
                0 <= i < r@.len() ==> r@[i] == (
                    self.summary_list()[i].path,
                    self.summary_list()[i].value,
                ),
    {
        match self {
            Worktree::Local(worktree) => worktree.diagnostic_summaries(),
            Worktree::Remote(worktree) => worktree.diagnostic_summaries(),
        }
    }

    /// The absolute path of the worktree.
    pub fn abs_path(&self) -> (r: Arc<Path>)
        ensures
            r == self.snap().root_path(),
    {
        self.current().abs_path().clone()
    }
}

} // verus!
