//! Sharing: the updates by which a copy of a worktree is kept elsewhere.
use crate::char_bag::CharBag;
use crate::entry::{Entry, PathEntry};
use crate::ids::WorktreeId;
use crate::local_snapshot::LocalSnapshot;
use crate::path::{components, Path};
use crate::proto;
use crate::snapshot::{
    all_timed, are_entries_of_messages, entries_by_id, entries_by_path, entry_of_id, first_unknown,
    ids_taken_out, is_updated, listed, paths_taken_out, speaks_of, ById, ByPath, Snapshot,
};
use crate::sum_tree::{lemma_filter_sorted, KeyedItem};
use crate::update::{
    is_message_for, is_sent, is_update, law_update_is_accepted, law_update_makes_copy,
    lemma_entries_by_id, lemma_entries_by_path, mirrors, sent, update_fits,
};
use std::sync::Arc;
use vstd::prelude::*;

verus! {

/// A list in pieces of a given length, the last of which may be shorter.
pub open spec fn pieces<A>(s: Seq<A>, size: nat) -> Seq<Seq<A>>
    decreases s.len(),
{
    if size == 0 || s.len() <= size {
        seq![s]
    } else {
        seq![s.take(size as int)] + pieces(s.skip(size as int), size)
    }
}

/// The list that pieces make.
pub open spec fn joined<A>(ss: Seq<Seq<A>>) -> Seq<A>
    decreases ss.len(),
{
    if ss.len() == 0 {
        Seq::empty()
    } else {
        joined(ss.drop_last()) + ss.last()
    }
}

/// Whether an update is a piece of another: the first piece removes all that is to be removed,
/// and only the last one ends the update.
pub open spec fn is_piece(
    update: proto::UpdateWorktree,
    size: nat,
    i: int,
    piece: proto::UpdateWorktree,
) -> bool {
    let ps = pieces(update.updated_entries@, size);
    &&& piece.project_id == update.project_id
    &&& piece.worktree_id == update.worktree_id
    &&& piece.abs_path@ == update.abs_path@
    &&& piece.root_name@ == update.root_name@
    &&& piece.updated_entries@ == ps[i]
    &&& piece.removed_entries@ == if i == 0 {
        update.removed_entries@
    } else {
        Seq::empty()
    }
    &&& piece.scan_id == update.scan_id
    &&& piece.is_last_update == (i == ps.len() - 1 && update.is_last_update)
}

/// Whether updates are the pieces of another, in order.
pub open spec fn are_pieces(
    update: proto::UpdateWorktree,
    size: nat,
    list: Seq<proto::UpdateWorktree>,
) -> bool {
    &&& list.len() == pieces(update.updated_entries@, size).len()
    &&& forall|i: int| #![trigger list[i]] 0 <= i < list.len() ==> is_piece(update, size, i, list[i])
}

/// Splits an update into pieces that describe no more entries than given.
pub fn split_worktree_update(message: proto::UpdateWorktree, max_chunk_size: usize) -> (r: Vec<
    proto::UpdateWorktree,
>)
    requires
        max_chunk_size > 0,
    ensures
        are_pieces(message, max_chunk_size as nat, r@),
{
    let ghost whole = message.updated_entries@;
    let ghost size = max_chunk_size as nat;
    let ghost ps = pieces(whole, size);
    let ghost update = message;
    let proto::UpdateWorktree {
        project_id,
        worktree_id,
        abs_path,
        root_name,
        updated_entries,
        removed_entries,
        scan_id,
        is_last_update,
    } = message;
    let mut rest = updated_entries;
    let mut removed = removed_entries;
    let mut r: Vec<proto::UpdateWorktree> = Vec::new();
    assert(ps.skip(0) =~= ps);
    while rest.len() > max_chunk_size
        invariant
            max_chunk_size > 0,
            size == max_chunk_size,
            update.project_id == project_id,
            update.worktree_id == worktree_id,
            update.abs_path == abs_path,
            update.root_name == root_name,
            update.scan_id == scan_id,
            update.is_last_update == is_last_update,
            ps == pieces(update.updated_entries@, size),
            r@.len() < ps.len(),
            ps.skip(r@.len() as int) == pieces(rest@, size),
            removed@ == if r@.len() == 0 {
                update.removed_entries@
            } else {
                Seq::empty()
            },
            forall|i: int| #![trigger r@[i]] 0 <= i < r@.len() ==> is_piece(update, size, i, r@[i]),
        decreases rest.len(),
    {
        let ghost n = r@.len() as int;
        let ghost before = rest@;
        let tail = rest.split_off(max_chunk_size);
        proof {
            assert(rest@ =~= before.take(size as int));
            assert(tail@ =~= before.skip(size as int));
            let ahead = seq![rest@] + pieces(tail@, size);
            assert(pieces(before, size) == ahead);
            assert(ps[n] == ps.skip(n)[0]);
            assert(ps.skip(n + 1) =~= ps.skip(n).skip(1));
            assert(ahead.skip(1) =~= pieces(tail@, size));
            lemma_pieces_some(tail@, size);
        }
        r.push(
            proto::UpdateWorktree {
                project_id,
                worktree_id,
                abs_path: abs_path.clone(),
                root_name: root_name.clone(),
                updated_entries: rest,
                removed_entries: removed,
                scan_id,
                is_last_update: false,
            },
        );
        rest = tail;
        removed = Vec::new();
    }
    proof {
        let n = r@.len() as int;
        assert(ps[n] == ps.skip(n)[0]);
        assert(ps.skip(n).len() == 1);
    }
    r.push(
        proto::UpdateWorktree {
            project_id,
            worktree_id,
            abs_path,
            root_name,
            updated_entries: rest,
            removed_entries: removed,
            scan_id,
            is_last_update,
        },
    );
    r
}

/// There is always a piece.
proof fn lemma_pieces_some<A>(s: Seq<A>, size: nat)
    ensures
        pieces(s, size).len() > 0,
{
}

/// Pieces make the list that they are of.
proof fn lemma_pieces_join<A>(s: Seq<A>, size: nat)
    ensures
        joined(pieces(s, size)) == s,
    decreases s.len(),
{
    if size == 0 || s.len() <= size {
        assert(seq![s].drop_last() =~= Seq::<Seq<A>>::empty());
        assert(joined(seq![s].drop_last()) =~= Seq::<A>::empty());
        assert(joined(pieces(s, size)) =~= s);
    } else {
        let rest = s.skip(size as int);
        lemma_pieces_join(rest, size);
        lemma_joined_cons(s.take(size as int), pieces(rest, size));
        assert(s.take(size as int) + rest =~= s);
    }
}

proof fn lemma_joined_cons<A>(first: Seq<A>, rest: Seq<Seq<A>>)
    ensures
        joined(seq![first] + rest) == first + joined(rest),
    decreases rest.len(),
{
    let all = seq![first] + rest;
    if rest.len() == 0 {
        assert(all.drop_last() =~= Seq::<Seq<A>>::empty());
        assert(joined(all.drop_last()) =~= Seq::<A>::empty());
        assert(joined(all) =~= first + joined(rest));
    } else {
        assert(all.drop_last() =~= seq![first] + rest.drop_last());
        lemma_joined_cons(first, rest.drop_last());
        assert(joined(all) =~= first + joined(rest));
    }
}

impl LocalSnapshot {
    /// Whether the update that brings another snapshot up to this one can be built: whether every
    /// entry that it has to describe is there.
    pub fn can_build_update(&self, other: &Self, include_ignored: bool) -> (r: bool)
        requires
            self.wf(),
            other.wf(),
        ensures
            r == forall|i: int|
                #![trigger self.snap().id_list()[i]]
                0 <= i < self.snap().id_list().len() && is_sent(
                    self.snap().id_list()[i],
                    other.ids_map(),
                    include_ignored,
                ) ==> entry_of_id(
                    self.paths_map(),
                    self.ids_map(),
                    self.snap().id_list()[i].id@,
                ) is Some,
    {
        let ghost s = self.snap().id_list();
        let mut i: usize = 0;
        while i < self.snapshot.entries_by_id.len()
            invariant
                i <= s.len(),
                s == self.snap().id_list(),
                self.wf(),
                other.wf(),
                forall|j: int|
                    #![trigger s[j]]
                    0 <= j < i && is_sent(s[j], other.ids_map(), include_ignored) ==> entry_of_id(
                        self.paths_map(),
                        self.ids_map(),
                        s[j].id@,
                    ) is Some,
            decreases s.len() - i,
        {
            let kept = self.snapshot.entries_by_id.item(i);
            let sends: bool = if include_ignored || !kept.is_ignored {
                match other.snapshot.entries_by_id.get(&kept.id) {
                    Some(older) => !((include_ignored || !older.is_ignored) && older.scan_id
                        == kept.scan_id),
                    None => true,
                }
            } else {
                false
            };
            assert(sends == is_sent(s[i as int], other.ids_map(), include_ignored));
            if sends && self.snapshot.entry_for_id(kept.id).is_none() {
                return false;
            }
            i = i + 1;
        }
        true
    }
}

/// What was sent last of a worktree that is shared.
pub struct SharedSnapshot {
    project_id: u64,
    worktree_id: u64,
    prev_snapshot: LocalSnapshot,
}

impl SharedSnapshot {
    /// The project that the worktree is shared in.
    pub closed spec fn project(&self) -> u64 {
        self.project_id
    }

    /// The number of the worktree.
    pub closed spec fn worktree(&self) -> u64 {
        self.worktree_id
    }

    /// What was sent last.
    pub closed spec fn last(&self) -> LocalSnapshot {
        self.prev_snapshot
    }

    /// A worktree of which nothing was sent yet.
    pub fn new(project_id: u64, worktree_id: u64) -> (r: Self)
        ensures
            r.project() == project_id,
            r.worktree() == worktree_id,
            r.last().wf(),
            r.last().paths_map() == ByPath::empty(),
            r.last().ids_map() == ById::empty(),
            r.last().snap().is_consistent(),
            r.last().scan() == 0,
            r.last().snap().completed_scan() == 0,
    {
        let snapshot = Snapshot::new(
            WorktreeId::from_proto(worktree_id),
            Arc::new(Path::new("")),
            String::new(),
            CharBag::from_text(""),
        );
        SharedSnapshot { project_id, worktree_id, prev_snapshot: LocalSnapshot::new(snapshot) }
    }

    /// What was sent last.
    pub fn prev_snapshot(&self) -> (r: &LocalSnapshot)
        ensures
            *r == self.last(),
    {
        &self.prev_snapshot
    }

    /// The updates that bring those with whom the worktree is shared from what was sent last up to
    /// a snapshot, ignored entries among the rest.
    pub fn updates_for(&mut self, snapshot: LocalSnapshot, max_chunk_size: usize) -> (r: Vec<
        proto::UpdateWorktree,
    >)
        requires
            max_chunk_size > 0,
            snapshot.wf(),
            old(self).last().wf(),
            forall|i: int|
                #![trigger snapshot.snap().id_list()[i]]
                0 <= i < snapshot.snap().id_list().len() && is_sent(
                    snapshot.snap().id_list()[i],
                    old(self).last().ids_map(),
                    true,
                ) ==> entry_of_id(
                    snapshot.paths_map(),
                    snapshot.ids_map(),
                    snapshot.snap().id_list()[i].id@,
                ) is Some,
        ensures
            final(self).last() == snapshot,
            final(self).project() == old(self).project(),
            final(self).worktree() == old(self).worktree(),
            exists|update: proto::UpdateWorktree|
                {
                    &&& #[trigger] is_update(snapshot, old(self).last(), true, update)
                    &&& update.project_id == old(self).project()
                    &&& update.worktree_id == old(self).worktree()
                    &&& are_pieces(update, max_chunk_size as nat, r@)
                },
    {
        let update = snapshot.build_update(
            &self.prev_snapshot,
            self.project_id,
            self.worktree_id,
            true,
        );
        self.prev_snapshot = snapshot;
        split_worktree_update(update, max_chunk_size)
    }
}

/// What the sending of the pieces of an update does next. The number is that of the piece.
#[derive(Copy, Clone, PartialEq, Eq, Debug, Structural)]
pub enum SendStep {
    /// It forgets what it was told of going on before, sends the piece, and waits for the answer.
    Send(usize),
    /// It sends the piece again, and waits for the answer.
    Resend(usize),
    /// It waits until sending may go on.
    Wait(usize),
    /// All pieces are sent.
    Sent,
    /// Nothing is sent any more.
    Ended,
}

impl SendStep {
    /// What is done first for an update with some pieces.
    pub fn first(pieces: usize) -> (r: Self)
        ensures
            r == if pieces == 0 {
                SendStep::Sent
            } else {
                SendStep::Send(0)
            },
    {
        if pieces == 0 {
            SendStep::Sent
        } else {
            SendStep::Send(0)
        }
    }

    /// The step that follows. A piece that could not be sent is sent again once sending may go on.
    /// `went_well` tells whether the piece was sent, or whether sending may go on; where it never
    /// may, nothing is sent any more.
    pub fn next(self, pieces: usize, went_well: bool) -> (r: Self)
        requires
            self matches SendStep::Send(i) ==> i < pieces,
            self matches SendStep::Resend(i) ==> i < pieces,
        ensures
            r == step_after(self, pieces, went_well),
    {
        match self {
            SendStep::Send(i) | SendStep::Resend(i) => if !went_well {
                SendStep::Wait(i)
            } else if i + 1 < pieces {
                SendStep::Send(i + 1)
            } else {
                SendStep::Sent
            },
            SendStep::Wait(i) => if went_well {
                SendStep::Resend(i)
            } else {
                SendStep::Ended
            },
            SendStep::Sent => SendStep::Sent,
            SendStep::Ended => SendStep::Ended,
        }
    }
}

/// The step that follows another one.
pub open spec fn step_after(step: SendStep, pieces: usize, went_well: bool) -> SendStep {
    match step {
        SendStep::Send(i) | SendStep::Resend(i) => if !went_well {
            SendStep::Wait(i)
        } else if i + 1 < pieces {
            SendStep::Send((i + 1) as usize)
        } else {
            SendStep::Sent
        },
        SendStep::Wait(i) => if went_well {
            SendStep::Resend(i)
        } else {
            SendStep::Ended
        },
        SendStep::Sent => SendStep::Sent,
        SendStep::Ended => SendStep::Ended,
    }
}

/// The pieces that were sent in the first `n` of some steps, in order.
pub open spec fn pieces_sent(steps: Seq<SendStep>, outcomes: Seq<bool>, n: int) -> Seq<int>
    decreases n,
{
    if n <= 0 {
        Seq::empty()
    } else {
        let before = pieces_sent(steps, outcomes, n - 1);
        match steps[n - 1] {
            SendStep::Send(i) | SendStep::Resend(i) => if outcomes[n - 1] {
                before.push(i as int)
            } else {
                before
            },
            _ => before,
        }
    }
}

/// However often sending fails, the pieces of an update are sent in order, each once and none
/// left out, up to the one that is sent next; and all of them once all are sent.
pub proof fn law_pieces_are_sent_in_order(
    pieces: usize,
    steps: Seq<SendStep>,
    outcomes: Seq<bool>,
    n: int,
)
    requires
        steps.len() == outcomes.len() + 1,
        steps[0] == (if pieces == 0 {
            SendStep::Sent
        } else {
            SendStep::Send(0)
        }),
        forall|i: int|
            #![trigger outcomes[i]]
            0 <= i < outcomes.len() ==> steps[i + 1] == step_after(steps[i], pieces, outcomes[i]),
        0 <= n < steps.len(),
    ensures
        forall|i: int|
            #![trigger pieces_sent(steps, outcomes, n)[i]]
            0 <= i < pieces_sent(steps, outcomes, n).len() ==> pieces_sent(steps, outcomes, n)[i]
                == i,
        match steps[n] {
            SendStep::Send(i) => i < pieces && pieces_sent(steps, outcomes, n).len() == i,
            SendStep::Resend(i) => i < pieces && pieces_sent(steps, outcomes, n).len() == i,
            SendStep::Wait(i) => i < pieces && pieces_sent(steps, outcomes, n).len() == i,
            SendStep::Sent => pieces_sent(steps, outcomes, n).len() == pieces,
            SendStep::Ended => pieces_sent(steps, outcomes, n).len() < pieces,
        },
    decreases n,
{
    if n > 0 {
        law_pieces_are_sent_in_order(pieces, steps, outcomes, n - 1);
        let before = pieces_sent(steps, outcomes, n - 1);
        let after = pieces_sent(steps, outcomes, n);
        assert(steps[n - 1 + 1] == step_after(steps[n - 1], pieces, outcomes[n - 1]));
        assert forall|i: int| #![trigger after[i]] 0 <= i < after.len() implies after[i] == i by {
            if i < before.len() {
                assert(after[i] == before[i]);
            }
        }
    }
}

/// Whether what is removed and described makes a snapshot of another, scans aside.
spec fn is_changed(
    before: Snapshot,
    removed: Seq<u64>,
    updated: Seq<proto::Entry>,
    es: Seq<Entry>,
    after: Snapshot,
) -> bool {
    let paths = before.paths_map();
    let ids = before.ids_map();
    &&& are_entries_of_messages(before.root_chars(), updated, es)
    &&& after.paths_map() == paths.remove_keys(
        paths_taken_out(paths, ids, removed, updated),
    ).union_prefer_right(entries_by_path(es))
    &&& after.ids_map() == ids.remove_keys(
        ids_taken_out(paths, ids, removed),
    ).union_prefer_right(entries_by_id(es, 0))
    &&& after.same_tree(before)
}

/// Whether messages describe no entry twice.
pub open spec fn are_distinct(ms: Seq<proto::Entry>) -> bool {
    forall|i: int, j: int|
        #![trigger ms[i], ms[j]]
        0 <= i < j < ms.len() ==> ms[i].id as usize != ms[j].id as usize
}

/// Whether a message gives an entry the path that another entry, which a second message
/// describes, had so far.
pub open spec fn takes_path_of(ids: ById, first: proto::Entry, second: proto::Entry) -> bool {
    &&& ids.contains_key(second.id as usize)
    &&& ids[second.id as usize].path.comps() == components(first.path@)
}

/// Whether no message of a piece gives an entry the path of one that only a later piece
/// describes.
pub open spec fn no_path_taken(ids: ById, list: Seq<Seq<proto::Entry>>) -> bool {
    forall|a: int, b: int, i: int, j: int|
        #![trigger list[a][i], list[b][j]]
        0 <= a < b < list.len() && 0 <= i < list[a].len() && 0 <= j < list[b].len()
            ==> !takes_path_of(ids, list[a][i], list[b][j])
}

/// Two changes one after the other are one change, where the second removes nothing, no entry is
/// described twice, and none takes a path that only the second change frees.
proof fn lemma_changes_join(
    s0: Snapshot,
    removed: Seq<u64>,
    u1: Seq<proto::Entry>,
    e1: Seq<Entry>,
    s1: Snapshot,
    u2: Seq<proto::Entry>,
    e2: Seq<Entry>,
    s2: Snapshot,
)
    requires
        listed(s0.paths_map(), s0.ids_map()),
        is_changed(s0, removed, u1, e1, s1),
        is_changed(s1, Seq::empty(), u2, e2, s2),
        are_distinct(u1 + u2),
        forall|i: int, j: int|
            #![trigger u1[i], u2[j]]
            0 <= i < u1.len() && 0 <= j < u2.len() ==> !takes_path_of(s0.ids_map(), u1[i], u2[j]),
    ensures
        is_changed(s0, removed, u1 + u2, e1 + e2, s2),
{
    let none = Seq::<u64>::empty();
    let u = u1 + u2;
    let e = e1 + e2;
    let p0 = s0.paths_map();
    let i0 = s0.ids_map();
    let p1 = s1.paths_map();
    let i1 = s1.ids_map();
    let out_ids = ids_taken_out(p0, i0, removed);
    let t1 = paths_taken_out(p0, i0, removed, u1);
    let t2 = paths_taken_out(p1, i1, none, u2);
    let t = paths_taken_out(p0, i0, removed, u);
    assert(are_entries_of_messages(s0.root_chars(), u, e)) by {
        assert forall|i: int| #![trigger e[i]] 0 <= i < e.len() implies crate::entry::is_entry_of_message(
            s0.root_chars(),
            u[i],
            e[i],
        ) by {
            if i < e1.len() {
                assert(e[i] == e1[i] && u[i] == u1[i]);
            } else {
                assert(e[i] == e2[i - e1.len()] && u[i] == u2[i - e1.len()]);
            }
        }
    }
    assert(ids_taken_out(p1, i1, none) =~= Set::<usize>::empty());
    assert forall|id: usize| #![trigger s2.ids_map().contains_key(id)] true implies ({
        let m = i0.remove_keys(out_ids).union_prefer_right(entries_by_id(e, 0));
        &&& s2.ids_map().contains_key(id) <==> m.contains_key(id)
        &&& s2.ids_map().contains_key(id) ==> s2.ids_map()[id] == m[id]
    }) by {
        lemma_entries_by_id_add(e1, e2, id);
    }
    assert(s2.ids_map() =~= i0.remove_keys(out_ids).union_prefer_right(entries_by_id(e, 0)));
    assert forall|p: Seq<Seq<char>>| #![trigger s2.paths_map().contains_key(p)] true implies ({
        let m = p0.remove_keys(t).union_prefer_right(entries_by_path(e));
        &&& s2.paths_map().contains_key(p) <==> m.contains_key(p)
        &&& s2.paths_map().contains_key(p) ==> s2.paths_map()[p] == m[p]
    }) by {
        lemma_entries_by_path_add(e1, e2, p);
        lemma_taken_out(s0, removed, u1, e1, s1, u2, p);
    }
    assert(s2.paths_map() =~= p0.remove_keys(t).union_prefer_right(entries_by_path(e)));
}

/// What two changes, one after the other, take out.
proof fn lemma_taken_out(
    s0: Snapshot,
    removed: Seq<u64>,
    u1: Seq<proto::Entry>,
    e1: Seq<Entry>,
    s1: Snapshot,
    u2: Seq<proto::Entry>,
    p: Seq<Seq<char>>,
)
    requires
        listed(s0.paths_map(), s0.ids_map()),
        is_changed(s0, removed, u1, e1, s1),
        are_distinct(u1 + u2),
        forall|i: int, j: int|
            #![trigger u1[i], u2[j]]
            0 <= i < u1.len() && 0 <= j < u2.len() ==> !takes_path_of(s0.ids_map(), u1[i], u2[j]),
    ensures
        ({
            let p0 = s0.paths_map();
            let i0 = s0.ids_map();
            let t1 = paths_taken_out(p0, i0, removed, u1);
            let t2 = paths_taken_out(s1.paths_map(), s1.ids_map(), Seq::empty(), u2);
            let t = paths_taken_out(p0, i0, removed, u1 + u2);
            &&& p0.contains_key(p) ==> (t.contains(p) <==> t1.contains(p) || t2.contains(p))
            &&& entries_by_path(e1).contains_key(p) ==> !t2.contains(p)
        }),
{
    let none = Seq::<u64>::empty();
    let u = u1 + u2;
    let p0 = s0.paths_map();
    let i0 = s0.ids_map();
    let p1 = s1.paths_map();
    let i1 = s1.ids_map();
    let out_ids = ids_taken_out(p0, i0, removed);
    let t1 = paths_taken_out(p0, i0, removed, u1);
    let t2 = paths_taken_out(p1, i1, none, u2);
    let t = paths_taken_out(p0, i0, removed, u);
    if t2.contains(p) {
        let j = choose|j: int|
            #![trigger u2[j]]
            0 <= j < u2.len() && i1.contains_key(u2[j].id as usize)
                && i1[u2[j].id as usize].path.comps() == p;
        let id = u2[j].id as usize;
        assert(u[u1.len() + j] == u2[j]);
        lemma_entries_by_id(e1, 0, id);
        if entries_by_id(e1, 0).contains_key(id) {
            let i = choose|i: int| #![trigger e1[i]] 0 <= i < e1.len() && e1[i].id@ == id;
            assert(u[i] == u1[i]);
            assert(false);
        }
        assert(i0.contains_key(id) && i1[id] == i0[id]);
        assert(t.contains(p));
        lemma_entries_by_path(e1, p);
        if entries_by_path(e1).contains_key(p) {
            let i = choose|i: int| #![trigger e1[i]] 0 <= i < e1.len() && e1[i].comps() == p;
            assert(takes_path_of(i0, u1[i], u2[j]));
        }
    }
    if t1.contains(p) {
        if exists|i: int|
            #![trigger u1[i]]
            0 <= i < u1.len() && i0.contains_key(u1[i].id as usize)
                && i0[u1[i].id as usize].path.comps() == p {
            let i = choose|i: int|
                #![trigger u1[i]]
                0 <= i < u1.len() && i0.contains_key(u1[i].id as usize)
                    && i0[u1[i].id as usize].path.comps() == p;
            assert(u[i] == u1[i]);
        }
        assert(t.contains(p));
    }
    if t.contains(p) && p0.contains_key(p) && !t1.contains(p) {
        let k = choose|k: int|
            #![trigger u[k]]
            0 <= k < u.len() && i0.contains_key(u[k].id as usize)
                && i0[u[k].id as usize].path.comps() == p;
        if k < u1.len() {
            assert(u[k] == u1[k]);
        } else {
            let j = k - u1.len();
            assert(u[k] == u2[j]);
            let id = u2[j].id as usize;
            lemma_entries_by_id(e1, 0, id);
            if entries_by_id(e1, 0).contains_key(id) {
                let i = choose|i: int| #![trigger e1[i]] 0 <= i < e1.len() && e1[i].id@ == id;
                assert(u[i] == u1[i]);
                assert(false);
            }
            if out_ids.contains(id) {
                let r = choose|r: int|
                    #![trigger removed[r]]
                    0 <= r < removed.len() && (entry_of_id(p0, i0, removed[r] as usize) matches Some(
                        x,
                    ) && x.id@ == id);
                let q = i0[removed[r] as usize].path.comps();
                assert(p0.contains_key(q) && speaks_of(i0[p0[q].id@], p0[q]));
                assert(t1.contains(p));
            }
            assert(i1.contains_key(id) && i1[id] == i0[id]);
            assert(t2.contains(p));
        }
    }
}

proof fn lemma_entries_by_path_add(a: Seq<Entry>, b: Seq<Entry>, p: Seq<Seq<char>>)
    ensures
        ({
            let m = entries_by_path(a).union_prefer_right(entries_by_path(b));
            &&& entries_by_path(a + b).contains_key(p) <==> m.contains_key(p)
            &&& m.contains_key(p) ==> entries_by_path(a + b)[p] == m[p]
        }),
    decreases b.len(),
{
    if b.len() == 0 {
        assert(a + b =~= a);
    } else {
        lemma_entries_by_path_add(a, b.drop_last(), p);
        assert((a + b).drop_last() =~= a + b.drop_last());
    }
}

proof fn lemma_entries_by_id_add(a: Seq<Entry>, b: Seq<Entry>, id: usize)
    ensures
        ({
            let m = entries_by_id(a, 0).union_prefer_right(entries_by_id(b, 0));
            &&& entries_by_id(a + b, 0).contains_key(id) <==> m.contains_key(id)
            &&& m.contains_key(id) ==> entries_by_id(a + b, 0)[id] == m[id]
        }),
    decreases b.len(),
{
    if b.len() == 0 {
        assert(a + b =~= a);
    } else {
        lemma_entries_by_id_add(a, b.drop_last(), id);
        assert((a + b).drop_last() =~= a + b.drop_last());
    }
}

/// Whether snapshots are what comes of one where updates are applied one after the other.
pub open spec fn are_applied(
    list: Seq<proto::UpdateWorktree>,
    ess: Seq<Seq<Entry>>,
    copies: Seq<Snapshot>,
) -> bool {
    &&& copies.len() == list.len() + 1
    &&& ess.len() == list.len()
    &&& forall|i: int|
        #![trigger list[i]]
        0 <= i < list.len() ==> is_updated(copies[i], list[i], ess[i], copies[i + 1])
}

/// The entries that each of some updates describes.
pub open spec fn described(list: Seq<proto::UpdateWorktree>) -> Seq<Seq<proto::Entry>> {
    list.map_values(|u: proto::UpdateWorktree| u.updated_entries@)
}

/// The pieces of an update, applied one after the other, make of a snapshot what the update makes
/// of it, where the update describes no entry twice and gives no entry a path that another one
/// has until a later piece.
pub proof fn law_pieces_make_whole(
    update: proto::UpdateWorktree,
    size: nat,
    list: Seq<proto::UpdateWorktree>,
    ess: Seq<Seq<Entry>>,
    copies: Seq<Snapshot>,
)
    requires
        are_pieces(update, size, list),
        are_applied(list, ess, copies),
        copies[0].is_consistent(),
        are_distinct(update.updated_entries@),
        no_path_taken(copies[0].ids_map(), described(list)),
    ensures
        is_updated(copies[0], update, joined(ess), copies.last()),
{
    let ps = pieces(update.updated_entries@, size);
    lemma_pieces_join(update.updated_entries@, size);
    lemma_pieces_some(update.updated_entries@, size);
    let n = list.len() as int;
    lemma_first_pieces(update, size, list, ess, copies, n);
    assert(ps.take(n) =~= ps);
    assert(ess.take(n) =~= ess);
    assert(list[n - 1] == list.last());
    assert(copies[n] == copies.last());
}

/// The first pieces of an update make what they describe together.
proof fn lemma_first_pieces(
    update: proto::UpdateWorktree,
    size: nat,
    list: Seq<proto::UpdateWorktree>,
    ess: Seq<Seq<Entry>>,
    copies: Seq<Snapshot>,
    n: int,
)
    requires
        are_pieces(update, size, list),
        are_applied(list, ess, copies),
        copies[0].is_consistent(),
        are_distinct(update.updated_entries@),
        no_path_taken(copies[0].ids_map(), described(list)),
        1 <= n <= list.len(),
    ensures
        is_changed(
            copies[0],
            update.removed_entries@,
            joined(pieces(update.updated_entries@, size).take(n)),
            joined(ess.take(n)),
            copies[n],
        ),
        copies[n].scan() == update.scan_id as usize,
        copies[n].completed_scan() == if n == list.len() && update.is_last_update {
            update.scan_id as usize
        } else {
            copies[0].completed_scan()
        },
    decreases n,
{
    let ps = pieces(update.updated_entries@, size);
    let k = n - 1;
    assert(is_piece(update, size, k, list[k]));
    assert(is_updated(copies[k], list[k], ess[k], copies[k + 1]));
    assert(ps.take(n).drop_last() =~= ps.take(k));
    assert(ess.take(n).drop_last() =~= ess.take(k));
    assert(is_changed(copies[k], list[k].removed_entries@, ps[k], ess[k], copies[n]));
    if k == 0 {
        assert(joined(ps.take(0)) =~= Seq::<proto::Entry>::empty());
        assert(joined(ess.take(0)) =~= Seq::<Entry>::empty());
        assert(joined(ps.take(n)) =~= ps[0]);
        assert(joined(ess.take(n)) =~= ess[0]);
    } else {
        lemma_first_pieces(update, size, list, ess, copies, k);
        lemma_pieces_join(update.updated_entries@, size);
        let u1 = joined(ps.take(k));
        let whole = update.updated_entries@;
        let ids = copies[0].ids_map();
        lemma_joined_prefix(ps, n);
        assert(joined(ps.take(n)) == u1 + ps[k]);
        assert(are_distinct(u1 + ps[k])) by {
            assert forall|i: int, j: int|
                #![trigger (u1 + ps[k])[i], (u1 + ps[k])[j]]
                0 <= i < j < (u1 + ps[k]).len() implies (u1 + ps[k])[i].id as usize != (u1
                + ps[k])[j].id as usize by {
                assert((u1 + ps[k])[i] == whole[i]);
                assert((u1 + ps[k])[j] == whole[j]);
            }
        }
        assert forall|i: int, j: int|
            #![trigger u1[i], ps[k][j]]
            0 <= i < u1.len() && 0 <= j < ps[k].len() implies !takes_path_of(
            ids,
            u1[i],
            ps[k][j],
        ) by {
            let (a, x) = lemma_joined_index(ps.take(k), i);
            assert(described(list)[a] == list[a].updated_entries@);
            assert(is_piece(update, size, a, list[a]));
            assert(described(list)[k] == ps[k]);
            assert(described(list)[a][x] == u1[i]);
            assert(!takes_path_of(ids, described(list)[a][x], described(list)[k][j]));
        }
        lemma_changes_join(
            copies[0],
            update.removed_entries@,
            u1,
            joined(ess.take(k)),
            copies[k],
            ps[k],
            ess[k],
            copies[n],
        );
        assert(joined(ess.take(n)) == joined(ess.take(k)) + ess[k]);
    }
}

/// The first pieces make the beginning of what all of them make.
proof fn lemma_joined_prefix<A>(ss: Seq<Seq<A>>, n: int)
    requires
        0 <= n <= ss.len(),
    ensures
        joined(ss.take(n)).len() <= joined(ss).len(),
        forall|i: int|
            #![trigger joined(ss.take(n))[i]]
            0 <= i < joined(ss.take(n)).len() ==> joined(ss.take(n))[i] == joined(ss)[i],
    decreases ss.len(),
{
    if n == ss.len() {
        assert(ss.take(n) =~= ss);
    } else {
        lemma_joined_prefix(ss.drop_last(), n);
        assert(ss.drop_last().take(n) =~= ss.take(n));
    }
}

/// What stands in a joined list stands in one of its pieces.
proof fn lemma_joined_index<A>(ss: Seq<Seq<A>>, i: int) -> (r: (int, int))
    requires
        0 <= i < joined(ss).len(),
    ensures
        0 <= r.0 < ss.len(),
        0 <= r.1 < ss[r.0].len(),
        ss[r.0][r.1] == joined(ss)[i],
    decreases ss.len(),
{
    let before = joined(ss.drop_last());
    if i < before.len() {
        lemma_joined_index(ss.drop_last(), i)
    } else {
        (ss.len() - 1, i - before.len())
    }
}

/// Those with whom a worktree is shared have a copy of it: where they have a copy of what was
/// sent last, and are sent the update to a newer snapshot in pieces, every piece is accepted, and
/// they have a copy of the newer snapshot then. This holds where no entry gets a path that
/// another one has until a later piece.
pub proof fn law_pieces_make_copy(
    newer: LocalSnapshot,
    older: LocalSnapshot,
    include_ignored: bool,
    update: proto::UpdateWorktree,
    size: nat,
    list: Seq<proto::UpdateWorktree>,
    ess: Seq<Seq<Entry>>,
    copies: Seq<Snapshot>,
)
    requires
        update_fits(newer, older, include_ignored, update, copies[0]),
        are_pieces(update, size, list),
        are_applied(list, ess, copies),
        no_path_taken(copies[0].ids_map(), described(list)),
        copies.last().wf(),
    ensures
        mirrors(copies.last(), newer.snap(), include_ignored),
        copies.last().scan() == newer.scan(),
        forall|i: int|
            #![trigger list[i]]
            0 <= i < list.len() ==> {
                &&& first_unknown(
                    copies[i].paths_map(),
                    copies[i].ids_map(),
                    list[i].removed_entries@,
                ) is None
                &&& all_timed(list[i].updated_entries@)
            },
{
    let ps = pieces(update.updated_entries@, size);
    let ms = update.updated_entries@;
    law_update_is_accepted(newer, older, include_ignored, update, copies[0]);
    assert(are_distinct(ms)) by {
        lemma_messages_distinct(newer, older, include_ignored, update);
    }
    law_pieces_make_whole(update, size, list, ess, copies);
    law_update_makes_copy(
        newer,
        older,
        include_ignored,
        update,
        copies[0],
        joined(ess),
        copies.last(),
    );
    lemma_pieces_join(ms, size);
    assert forall|i: int| #![trigger list[i]] 0 <= i < list.len() implies first_unknown(
        copies[i].paths_map(),
        copies[i].ids_map(),
        list[i].removed_entries@,
    ) is None && all_timed(list[i].updated_entries@) by {
        assert(is_piece(update, size, i, list[i]));
        assert forall|j: int|
            #![trigger ps[i][j]]
            0 <= j < ps[i].len() implies ps[i][j].mtime is Some by {
            let x = lemma_joined_find(ps, i, j);
            assert(ms[x] == ps[i][j]);
        }
    }
}

/// Where what stands in a piece stands in the joined list.
proof fn lemma_joined_find<A>(ss: Seq<Seq<A>>, a: int, j: int) -> (x: int)
    requires
        0 <= a < ss.len(),
        0 <= j < ss[a].len(),
    ensures
        0 <= x < joined(ss).len(),
        joined(ss)[x] == ss[a][j],
    decreases ss.len(),
{
    if a == ss.len() - 1 {
        joined(ss.drop_last()).len() + j
    } else {
        lemma_joined_find(ss.drop_last(), a, j)
    }
}

/// An update describes no entry twice.
proof fn lemma_messages_distinct(
    newer: LocalSnapshot,
    older: LocalSnapshot,
    include_ignored: bool,
    update: proto::UpdateWorktree,
)
    requires
        newer.wf(),
        newer.snap().is_consistent(),
        is_update(newer, older, include_ignored, update),
    ensures
        are_distinct(update.updated_entries@),
{
    let ms = update.updated_entries@;
    let s = newer.snap().id_list();
    let sends = |k: PathEntry| is_sent(k, older.ids_map(), include_ignored);
    let ks = sent(s, older.ids_map(), include_ignored);
    lemma_filter_sorted(s, sends);
    assert forall|i: int, j: int|
        #![trigger ms[i], ms[j]]
        0 <= i < j < ms.len() implies ms[i].id as usize != ms[j].id as usize by {
        assert(is_message_for(newer.paths_map(), newer.ids_map(), ks[i].id@, ms[i]));
        assert(is_message_for(newer.paths_map(), newer.ids_map(), ks[j].id@, ms[j]));
        assert(PathEntry::key_lt(ks[i].item_key(), ks[j].item_key()));
    }
}

} // verus!
