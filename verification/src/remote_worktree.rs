//! A worktree of another host.
use crate::char_bag::CharBag;
use crate::diagnostics::{
    list_summaries, set_summary, summaries_of, with_summary, DiagnosticSummary, Summaries,
};
use crate::entry::{is_entry_of_message, Entry, WorktreeError};
use crate::ids::{ProjectEntryId, WorktreeId};
use crate::local_worktree::Event;
use crate::path::Path;
use crate::path_map::AtPath;
use crate::proto;
use crate::proto::{Timestamp, VectorClockEntry};
use crate::snapshot::{
    all_timed, first_unknown, ids_in, is_updated, kept_of, paths_in, Snapshot,
};
use crate::sum_tree::{sorted, SumTree};
use crate::text::lower_text;
use std::sync::Arc;
use vstd::prelude::*;

verus! {

/// What becomes of a request to wait for a scan.
#[derive(Copy, Clone, PartialEq, Eq, Debug, Structural)]
pub enum Waiting {
    /// The scan has been seen already.
    Ready,
    /// The host is gone, and the scan will not be seen.
    Cancelled,
    /// The request is kept until the scan is seen.
    Kept,
}

/// Whether requests stand in the order of the scans that they wait for.
pub open spec fn in_scan_order(s: Seq<(usize, u64)>) -> bool {
    forall|i: int, j: int| #![trigger s[i], s[j]] 0 <= i < j < s.len() ==> s[i].0 <= s[j].0
}

/// A worktree of another host.
pub struct RemoteWorktree {
    pub(crate) snapshot: Snapshot,
    background_snapshot: Snapshot,
    project_id: u64,
    updates_open: bool,
    snapshot_subscriptions: Vec<(usize, u64)>,
    replica_id: u16,
    pub(crate) diagnostic_summaries: SumTree<AtPath<DiagnosticSummary>>,
    visible: bool,
    disconnected: bool,
}

impl RemoteWorktree {
    /// What the worktree shows.
    pub closed spec fn shows(&self) -> Snapshot {
        self.snapshot
    }

    /// What the host has told so far.
    pub closed spec fn told(&self) -> Snapshot {
        self.background_snapshot
    }

    /// The project of the worktree.
    pub closed spec fn project(&self) -> u64 {
        self.project_id
    }

    /// Whether updates are still taken.
    pub closed spec fn takes_updates(&self) -> bool {
        self.updates_open
    }

    /// The requests that wait for scans: the number of the scan and that of the request.
    pub closed spec fn waiting(&self) -> Seq<(usize, u64)> {
        self.snapshot_subscriptions@
    }

    /// The replica that this host is.
    pub closed spec fn replica(&self) -> u16 {
        self.replica_id
    }

    /// The summaries of diagnostics in the order of their paths.
    pub closed spec fn summary_list(&self) -> Seq<AtPath<DiagnosticSummary>> {
        self.diagnostic_summaries@
    }

    /// The summaries of diagnostics.
    pub open spec fn summaries(&self) -> Summaries {
        summaries_of(self.summary_list())
    }

    /// Whether the worktree is shown.
    pub closed spec fn shown(&self) -> bool {
        self.visible
    }

    /// Whether the host is gone.
    pub closed spec fn is_cut_off(&self) -> bool {
        self.disconnected
    }

    /// Whether everything stands in order.
    pub closed spec fn wf(&self) -> bool {
        &&& self.snapshot.wf()
        &&& self.background_snapshot.wf()
        &&& self.diagnostic_summaries.wf()
        &&& in_scan_order(self.snapshot_subscriptions@)
    }

    /// Whether all but the two snapshots and the requests is as it was.
    pub open spec fn same_settings(&self, other: RemoteWorktree) -> bool {
        &&& self.project() == other.project()
        &&& self.takes_updates() == other.takes_updates()
        &&& self.replica() == other.replica()
        &&& self.summary_list() == other.summary_list()
        &&& self.shown() == other.shown()
        &&& self.is_cut_off() == other.is_cut_off()
    }

    /// A worktree of which nothing is known but what it is known by.
    pub fn new(project_id: u64, replica_id: u16, worktree: proto::WorktreeMetadata) -> (r: Self)
        ensures
            r.wf(),
            r.project() == project_id,
            r.replica() == replica_id,
            r.shown() == worktree.visible,
            r.takes_updates(),
            !r.is_cut_off(),
            r.waiting() == Seq::<(usize, u64)>::empty(),
            r.summaries() == Summaries::empty(),
            r.summary_list() == Seq::<AtPath<DiagnosticSummary>>::empty(),
            r.told().same_as(r.shows()),
            r.shows().tree_id() == worktree.id as usize,
            r.shows().root_path()@ == worktree.abs_path@,
            r.shows().name() == worktree.root_name@,
            r.shows().root_chars() == lower_text(worktree.root_name@),
            r.shows().list() == Seq::<Entry>::empty(),
            r.shows().ids_map() == crate::snapshot::ById::empty(),
            r.shows().is_consistent(),
            r.shows().scan() == 0,
            r.shows().completed_scan() == 0,
    {
        let root_char_bag = CharBag::from_text(worktree.root_name.as_str());
        let abs_path = Path::new(worktree.abs_path.as_str());
        let snapshot = Snapshot::new(
            WorktreeId::from_proto(worktree.id),
            Arc::new(abs_path),
            worktree.root_name,
            root_char_bag,
        );
        let background_snapshot = snapshot.clone();
        let r = RemoteWorktree {
            snapshot,
            background_snapshot,
            project_id,
            updates_open: true,
            snapshot_subscriptions: Vec::new(),
            replica_id,
            diagnostic_summaries: SumTree::new(),
            visible: worktree.visible,
            disconnected: false,
        };
        assert(r.summaries() =~= Summaries::empty());
        r
    }

    /// What the worktree shows.
    pub fn snapshot(&self) -> (r: Snapshot)
        ensures
            r.same_as(self.shows()),
            self.wf() ==> r.wf(),
    {
        self.snapshot.clone()
    }

    /// What the worktree shows, borrowed.
    pub fn current(&self) -> (r: &Snapshot)
        ensures
            *r == self.shows(),
            self.wf() ==> r.wf(),
    {
        &self.snapshot
    }

    /// Whether the worktree is shown.
    pub fn is_visible(&self) -> (r: bool)
        ensures
            r == self.shown(),
    {
        self.visible
    }

    /// The replica that this host is.
    pub fn replica_id(&self) -> (r: u16)
        ensures
            r == self.replica(),
    {
        self.replica_id
    }

    /// The summaries of diagnostics in the order of their paths.
    pub fn diagnostic_summaries(&self) -> (r: Vec<(Arc<Path>, DiagnosticSummary)>)
        requires
            self.wf(),
        ensures
            sorted(self.summary_list()),
            r@.len() == self.summary_list().len(),
            forall|i: int|
                #![trigger r@[i]]
                0 <= i < r@.len() ==> r@[i] == (
                    self.summary_list()[i].path,
                    self.summary_list()[i].value,
                ),
    {
        list_summaries(&self.diagnostic_summaries)
    }

    /// Shows what the host has told so far.
    pub fn poll_snapshot(&mut self) -> (r: Event)
        requires
            old(self).wf(),
        ensures
            final(self).wf(),
            final(self).shows().same_as(old(self).told()),
            final(self).told() == old(self).told(),
            final(self).waiting() == old(self).waiting(),
            final(self).same_settings(*old(self)),
            r is UpdatedEntries,
    {
        self.snapshot = self.background_snapshot.clone();
        Event::UpdatedEntries
    }

    /// Notes that the host is gone: no update is taken any more, and the requests that wait are
    /// dropped.
    pub fn disconnected_from_host(&mut self)
        requires
            old(self).wf(),
        ensures
            final(self).wf(),
            !final(self).takes_updates(),
            final(self).is_cut_off(),
            final(self).waiting() == Seq::<(usize, u64)>::empty(),
            final(self).shows() == old(self).shows(),
            final(self).told() == old(self).told(),
            final(self).project() == old(self).project(),
            final(self).replica() == old(self).replica(),
            final(self).summary_list() == old(self).summary_list(),
            final(self).shown() == old(self).shown(),
    {
        self.updates_open = false;
        self.snapshot_subscriptions.clear();
        self.disconnected = true;
    }

    /// The update that has to be applied, where updates are still taken.
    pub fn update_from_remote(&self, update: proto::UpdateWorktree) -> (r: Option<
        proto::UpdateWorktree,
    >)
        ensures
            r == if self.takes_updates() {
                Some(update)
            } else {
                None
            },
    {
        if self.updates_open {
            Some(update)
        } else {
            None
        }
    }

    /// Brings what the host has told up to date.
    pub fn apply_update(&mut self, update: proto::UpdateWorktree) -> (r: Result<(), WorktreeError>)
        requires
            old(self).wf(),
        ensures
            final(self).wf(),
            final(self).shows() == old(self).shows(),
            final(self).waiting() == old(self).waiting(),
            final(self).same_settings(*old(self)),
            match r {
                Ok(_) => {
                    &&& first_unknown(
                        old(self).told().paths_map(),
                        old(self).told().ids_map(),
                        update.removed_entries@,
                    ) is None
                    &&& all_timed(update.updated_entries@)
                    &&& exists|es: Seq<Entry>| #[trigger]
                        is_updated(old(self).told(), update, es, final(self).told())
                },
                Err(WorktreeError::UnknownEntry(id)) => {
                    &&& first_unknown(
                        old(self).told().paths_map(),
                        old(self).told().ids_map(),
                        update.removed_entries@,
                    ) == Some(id)
                    &&& final(self).told().same_as(old(self).told())
                },
                Err(WorktreeError::MissingMtime) => {
                    &&& first_unknown(
                        old(self).told().paths_map(),
                        old(self).told().ids_map(),
                        update.removed_entries@,
                    ) is None
                    &&& !all_timed(update.updated_entries@)
                    &&& final(self).told().same_as(old(self).told())
                },
                Err(_) => false,
            },
    {
        let ghost before = self.background_snapshot;
        let r = self.background_snapshot.apply_remote_update(update);
        proof {
            if r is Ok {
                let es = choose|es: Seq<Entry>|
                    is_updated(before, update, es, self.background_snapshot);
                assert(is_updated(old(self).told(), update, es, self.told()));
            }
        }
        r
    }

    /// Shows what the host has told so far, and gives the requests whose scans have been seen,
    /// those for earlier scans first.
    pub fn snapshot_updated(&mut self) -> (r: Vec<u64>)
        requires
            old(self).wf(),
        ensures
            final(self).wf(),
            final(self).shows().same_as(old(self).told()),
            final(self).told() == old(self).told(),
            final(self).same_settings(*old(self)),
            ({
                let n = r@.len() as int;
                &&& n <= old(self).waiting().len()
                &&& final(self).waiting() == old(self).waiting().skip(n)
                &&& forall|i: int|
                    #![trigger r@[i]]
                    0 <= i < n ==> r@[i] == old(self).waiting()[i].1
                &&& forall|i: int|
                    #![trigger old(self).waiting()[i]]
                    0 <= i < old(self).waiting().len() ==> (i < n <==> old(self).waiting()[i].0
                        <= old(self).told().completed_scan())
            }),
    {
        let _ = self.poll_snapshot();
        let ghost waiting = self.snapshot_subscriptions@;
        let mut r: Vec<u64> = Vec::new();
        let mut n: usize = 0;
        while n < self.snapshot_subscriptions.len() && self.observed_snapshot(
            self.snapshot_subscriptions[n].0,
        )
            invariant
                n <= waiting.len(),
                waiting == self.snapshot_subscriptions@,
                waiting == old(self).waiting(),
                in_scan_order(waiting),
                self.wf(),
                self.shows().same_as(old(self).told()),
                self.told() == old(self).told(),
                self.same_settings(*old(self)),
                r@.len() == n,
                forall|i: int| #![trigger r@[i]] 0 <= i < n ==> r@[i] == waiting[i].1,
                forall|i: int|
                    #![trigger waiting[i]]
                    0 <= i < n ==> waiting[i].0 <= self.shows().completed_scan(),
            decreases waiting.len() - n,
        {
            r.push(self.snapshot_subscriptions[n].1);
            n = n + 1;
        }
        let rest = self.snapshot_subscriptions.split_off(n);
        self.snapshot_subscriptions = rest;
        proof {
            assert(self.waiting() =~= waiting.skip(n as int));
            assert forall|i: int| #![trigger waiting[i]] 0 <= i < waiting.len() implies (i < n
                <==> waiting[i].0 <= self.shows().completed_scan()) by {
                if i > n {
                    assert(waiting[n as int].0 <= waiting[i].0);
                }
            }
        }
        r
    }

    /// Whether a scan has been seen.
    pub fn observed_snapshot(&self, scan_id: usize) -> (r: bool)
        ensures
            r == (scan_id <= self.shows().completed_scan()),
    {
        self.snapshot.completed_scan_id >= scan_id
    }

    /// Waits for a scan: keeps the request in its place where the scan has not been seen and the
    /// host is not gone.
    pub fn wait_for_snapshot(&mut self, scan_id: usize, request: u64) -> (r: Waiting)
        requires
            old(self).wf(),
        ensures
            final(self).wf(),
            final(self).shows() == old(self).shows(),
            final(self).told() == old(self).told(),
            final(self).same_settings(*old(self)),
            r == if scan_id <= old(self).shows().completed_scan() {
                Waiting::Ready
            } else if old(self).is_cut_off() {
                Waiting::Cancelled
            } else {
                Waiting::Kept
            },
            r is Kept ==> exists|i: int|
                0 <= i <= old(self).waiting().len() && final(self).waiting() == #[trigger] old(
                    self,
                ).waiting().insert(i, (scan_id, request)),
            !(r is Kept) ==> final(self).waiting() == old(self).waiting(),
            in_scan_order(final(self).waiting()),
    {
        if self.observed_snapshot(scan_id) {
            return Waiting::Ready;
        }
        if self.disconnected {
            return Waiting::Cancelled;
        }
        let ghost waiting = self.snapshot_subscriptions@;
        let mut low: usize = 0;
        let mut high: usize = self.snapshot_subscriptions.len();
        while low < high
            invariant
                low <= high <= waiting.len(),
                waiting == self.snapshot_subscriptions@,
                in_scan_order(waiting),
                forall|i: int| #![trigger waiting[i]] 0 <= i < low ==> waiting[i].0 < scan_id,
                forall|i: int|
                    #![trigger waiting[i]]
                    high <= i < waiting.len() ==> scan_id <= waiting[i].0,
            decreases high - low,
        {
            let mid: usize = low + (high - low) / 2;
            if self.snapshot_subscriptions[mid].0 < scan_id {
                proof {
                    assert forall|i: int| #![trigger waiting[i]] 0 <= i <= mid implies waiting[i].0
                        < scan_id by {
                        if i < mid {
                            assert(waiting[i].0 <= waiting[mid as int].0);
                        }
                    }
                }
                low = mid + 1;
            } else {
                proof {
                    assert forall|i: int| #![trigger waiting[i]] mid <= i < waiting.len() implies scan_id
                        <= waiting[i].0 by {
                        if i > mid {
                            assert(waiting[mid as int].0 <= waiting[i].0);
                        }
                    }
                }
                high = mid;
            }
        }
        self.snapshot_subscriptions.insert(low, (scan_id, request));
        proof {
            let after = waiting.insert(low as int, (scan_id, request));
            assert(self.waiting() =~= old(self).waiting().insert(low as int, (scan_id, request)));
            assert forall|i: int, j: int| #![trigger after[i], after[j]] 0 <= i < j < after.len() implies after[i].0
                <= after[j].0 by {
                let a = if i < low {
                    waiting[i].0
                } else if i == low {
                    scan_id
                } else {
                    waiting[i - 1].0
                };
                let b = if j < low {
                    waiting[j].0
                } else if j == low {
                    scan_id
                } else {
                    waiting[j - 1].0
                };
                assert(after[i].0 == a && after[j].0 == b);
            }
        }
        Waiting::Kept
    }

    /// Replaces the summary of the diagnostics of a file.
    pub fn update_diagnostic_summary(&mut self, path: Arc<Path>, summary: &proto::DiagnosticSummary)
        requires
            old(self).wf(),
        ensures
            final(self).wf(),
            final(self).summaries() == with_summary(
                old(self).summaries(),
                path.comps(),
                DiagnosticSummary {
                    language_server_id: summary.language_server_id as usize,
                    error_count: summary.error_count as usize,
                    warning_count: summary.warning_count as usize,
                },
            ),
            final(self).shows() == old(self).shows(),
            final(self).told() == old(self).told(),
            final(self).project() == old(self).project(),
            final(self).takes_updates() == old(self).takes_updates(),
            final(self).waiting() == old(self).waiting(),
            final(self).replica() == old(self).replica(),
            final(self).shown() == old(self).shown(),
            final(self).is_cut_off() == old(self).is_cut_off(),
    {
        let summary = DiagnosticSummary::from_proto(summary);
        let _ = set_summary(&mut self.diagnostic_summaries, path, summary);
    }

    /// Puts in an entry that the host made on request, once the scan that it belongs to has been
    /// seen.
    pub fn insert_entry(&mut self, entry: proto::Entry) -> (r: Result<Entry, WorktreeError>)
        requires
            old(self).wf(),
        ensures
            final(self).wf(),
            final(self).waiting() == old(self).waiting(),
            final(self).same_settings(*old(self)),
            final(self).shows().same_as(final(self).told()),
            r is Ok <==> entry.mtime is Some,
            r matches Ok(e) ==> {
                let before = old(self).told();
                let after = final(self).told();
                &&& is_entry_of_message(before.root_chars(), entry, e)
                &&& after.ids_map() == before.ids_map().insert(e.id@, kept_of(e, 0))
                &&& after.paths_map() == if before.ids_map().contains_key(e.id@) {
                    before.paths_map().remove(before.ids_map()[e.id@].path.comps()).insert(
                        e.comps(),
                        e,
                    )
                } else {
                    before.paths_map().insert(e.comps(), e)
                }
                &&& after.scan() == before.scan()
                &&& after.completed_scan() == before.completed_scan()
                &&& after.same_tree(before)
            },
            r matches Err(error) ==> error == WorktreeError::MissingMtime
                && final(self).told().same_as(old(self).told()),
    {
        let entry = self.background_snapshot.insert_entry(entry);
        self.snapshot = self.background_snapshot.clone();
        entry
    }

    /// Takes out an entry that the host deleted on request, once the scan that this belongs to
    /// has been seen.
    pub fn delete_entry(&mut self, id: ProjectEntryId)
        requires
            old(self).wf(),
        ensures
            final(self).wf(),
            final(self).waiting() == old(self).waiting(),
            final(self).same_settings(*old(self)),
            final(self).shows().same_as(final(self).told()),
            ({
                let before = old(self).told();
                let after = final(self).told();
                &&& if before.ids_map().contains_key(id@) {
                    let base = before.ids_map()[id@].path.comps();
                    &&& after.paths_map() == before.paths_map().remove_keys(paths_in(base))
                    &&& after.ids_map() == before.ids_map().remove(id@).remove_keys(
                        ids_in(before.paths_map(), base),
                    )
                } else {
                    after.paths_map() == before.paths_map() && after.ids_map()
                        == before.ids_map()
                }
                &&& after.scan() == before.scan()
                &&& after.completed_scan() == before.completed_scan()
                &&& after.same_tree(before)
            }),
    {
        let _ = self.background_snapshot.delete_entry(id);
        self.snapshot = self.background_snapshot.clone();
    }

    /// The request to save a buffer.
    pub fn save_buffer(&self, buffer_id: u64, version: Vec<VectorClockEntry>) -> (r: proto::SaveBuffer)
        ensures
            r.project_id == self.project(),
            r.buffer_id == buffer_id,
            r.version@ == version@,
    {
        proto::SaveBuffer { project_id: self.project_id, buffer_id, version }
    }

    /// When the file of a buffer was saved, as the host answers. An answer without a modification
    /// time is refused.
    pub fn buffer_saved(&self, response: &proto::BufferSaved) -> (r: Result<
        Timestamp,
        WorktreeError,
    >)
        ensures
            match r {
                Ok(mtime) => response.mtime == Some(mtime),
                Err(error) => response.mtime is None && error == WorktreeError::MissingMtime,
            },
    {
        match response.mtime {
            Some(mtime) => Ok(mtime),
            None => Err(WorktreeError::MissingMtime),
        }
    }
}

} // verus!
