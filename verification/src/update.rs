//! Updates: what one snapshot says of another, older one.
use crate::entry::{is_message_of_entry, Entry, PathEntry};
use crate::local_snapshot::LocalSnapshot;
use crate::proto;
use crate::proto::Timestamp;
use crate::snapshot::{
    all_timed, are_entries_of_messages, consistent, entries_by_id, entries_by_path, entry_of_id,
    first_unknown, ids_taken_out, is_updated, kept_of, paths_taken_out, speaks_of, updated_ids,
    updated_paths, ById, ByPath, Snapshot,
};
use crate::sum_tree::{
    by_key, has_key, lemma_filter_sorted, lemma_filter_step, lemma_item_with, lemma_key_index,
    sorted,
};
use vstd::prelude::*;

verus! {

/// Whether an update speaks of an entry at all: ignored entries can be left out.
pub open spec fn takes(kept: PathEntry, include_ignored: bool) -> bool {
    include_ignored || !kept.is_ignored
}

/// Whether an update describes an entry: it does unless the older snapshot has the same entry
/// from the same scan.
pub open spec fn is_sent(kept: PathEntry, older: ById, include_ignored: bool) -> bool {
    takes(kept, include_ignored) && !(older.contains_key(kept.id@) && takes(
        older[kept.id@],
        include_ignored,
    ) && older[kept.id@].scan_id == kept.scan_id)
}

/// Whether an update removes an entry of the older snapshot: it does where the newer one lacks
/// it.
pub open spec fn is_dropped(kept: PathEntry, newer: ById, include_ignored: bool) -> bool {
    takes(kept, include_ignored) && !(newer.contains_key(kept.id@) && takes(
        newer[kept.id@],
        include_ignored,
    ))
}

/// The entries that an update describes, in the order of their identifiers.
pub open spec fn sent(newer: Seq<PathEntry>, older: ById, include_ignored: bool) -> Seq<PathEntry> {
    newer.filter(|k: PathEntry| is_sent(k, older, include_ignored))
}

/// The entries that an update removes, in the order of their identifiers.
pub open spec fn dropped(older: Seq<PathEntry>, newer: ById, include_ignored: bool) -> Seq<PathEntry> {
    older.filter(|k: PathEntry| is_dropped(k, newer, include_ignored))
}

/// Whether a message describes the entry with an identifier.
pub open spec fn is_message_for(paths: ByPath, ids: ById, id: usize, m: proto::Entry) -> bool {
    match entry_of_id(paths, ids, id) {
        Some(e) => is_message_of_entry(e, m),
        None => false,
    }
}

/// Whether messages describe the entries with the given identifiers.
pub open spec fn are_messages(
    paths: ByPath,
    ids: ById,
    kept: Seq<PathEntry>,
    ms: Seq<proto::Entry>,
) -> bool {
    &&& ms.len() == kept.len()
    &&& forall|i: int|
        #![trigger ms[i]]
        0 <= i < ms.len() ==> is_message_for(paths, ids, kept[i].id@, ms[i])
}

/// Whether numbers are the identifiers of entries.
pub open spec fn are_ids(kept: Seq<PathEntry>, ids: Seq<u64>) -> bool {
    &&& ids.len() == kept.len()
    &&& forall|i: int| #![trigger ids[i]] 0 <= i < ids.len() ==> ids[i] == kept[i].id@
}

/// Whether an update brings an older snapshot up to a newer one.
pub open spec fn is_update(
    newer: LocalSnapshot,
    older: LocalSnapshot,
    include_ignored: bool,
    update: proto::UpdateWorktree,
) -> bool {
    &&& are_messages(
        newer.paths_map(),
        newer.ids_map(),
        sent(newer.snap().id_list(), older.ids_map(), include_ignored),
        update.updated_entries@,
    )
    &&& are_ids(
        dropped(older.snap().id_list(), newer.ids_map(), include_ignored),
        update.removed_entries@,
    )
    &&& update.scan_id == newer.scan()
    &&& update.is_last_update == (newer.snap().completed_scan() == newer.scan())
    &&& update.abs_path@ == newer.root_text()
    &&& update.root_name@ == newer.snap().name()
}

/// Entries that are kept by identifier have distinct identifiers in order.
proof fn lemma_ids_ordered(s: Seq<PathEntry>, i: int, j: int)
    requires
        sorted(s),
        0 <= i < s.len(),
        0 <= j < s.len(),
    ensures
        s[i].id@ < s[j].id@ <==> i < j,
        s[i].id@ == s[j].id@ <==> i == j,
{
}

impl LocalSnapshot {
    /// The update that describes every entry.
    pub fn build_initial_update(&self, project_id: u64) -> (r: proto::UpdateWorktree)
        ensures
            r.project_id == project_id,
            r.worktree_id == self.snap().tree_id(),
            r.abs_path@ == self.root_text(),
            r.root_name@ == self.snap().name(),
            r.updated_entries@.len() == self.snap().list().len(),
            forall|i: int|
                #![trigger r.updated_entries@[i]]
                0 <= i < r.updated_entries@.len() ==> is_message_of_entry(
                    self.snap().list()[i],
                    r.updated_entries@[i],
                ),
            r.removed_entries@.len() == 0,
            r.scan_id == self.scan(),
            r.is_last_update,
    {
        let mut updated_entries: Vec<proto::Entry> = Vec::new();
        let ghost s = self.snapshot.list();
        let mut i: usize = 0;
        while i < self.snapshot.entries_by_path.len()
            invariant
                i <= s.len(),
                s == self.snapshot.list(),
                updated_entries@.len() == i,
                forall|j: int|
                    #![trigger updated_entries@[j]]
                    0 <= j < i ==> is_message_of_entry(s[j], updated_entries@[j]),
            decreases s.len() - i,
        {
            updated_entries.push(self.snapshot.entries_by_path.item(i).to_proto());
            i = i + 1;
        }
        proto::UpdateWorktree {
            project_id,
            worktree_id: self.snapshot.id.to_proto(),
            abs_path: self.snapshot.abs_path.to_text(),
            root_name: self.snapshot.root_name.clone(),
            updated_entries,
            removed_entries: Vec::new(),
            scan_id: self.snapshot.scan_id as u64,
            is_last_update: true,
        }
    }

    /// The update that brings `other` up to this snapshot.
    pub fn build_update(
        &self,
        other: &Self,
        project_id: u64,
        worktree_id: u64,
        include_ignored: bool,
    ) -> (r: proto::UpdateWorktree)
        requires
            self.wf(),
            other.wf(),
            forall|i: int|
                #![trigger self.snap().id_list()[i]]
                0 <= i < self.snap().id_list().len() && is_sent(
                    self.snap().id_list()[i],
                    other.ids_map(),
                    include_ignored,
                ) ==> entry_of_id(
                    self.paths_map(),
                    self.ids_map(),
                    self.snap().id_list()[i].id@,
                ) is Some,
        ensures
            is_update(*self, *other, include_ignored, r),
            r.project_id == project_id,
            r.worktree_id == worktree_id,
    {
        let ghost mine = self.snapshot.id_list();
        let ghost theirs = other.snapshot.id_list();
        let ghost paths = self.paths_map();
        let ghost mm = self.ids_map();
        let ghost tm = other.ids_map();
        let ghost sends = |k: PathEntry| is_sent(k, tm, include_ignored);
        let ghost drops = |k: PathEntry| is_dropped(k, mm, include_ignored);
        let mut updated_entries: Vec<proto::Entry> = Vec::new();
        let mut removed_entries: Vec<u64> = Vec::new();
        let mut i: usize = 0;
        let mut j: usize = 0;
        proof {
            assert(mine.take(0) =~= Seq::empty());
            assert(theirs.take(0) =~= Seq::empty());
            reveal(Seq::filter);
        }
        loop
            invariant
                i <= mine.len(),
                j <= theirs.len(),
                self.wf(),
                other.wf(),
                mine == self.snapshot.id_list(),
                theirs == other.snapshot.id_list(),
                paths == self.paths_map(),
                mm == self.ids_map(),
                tm == other.ids_map(),
                sends == (|k: PathEntry| is_sent(k, tm, include_ignored)),
                drops == (|k: PathEntry| is_dropped(k, mm, include_ignored)),
                forall|a: int|
                    #![trigger mine[a]]
                    0 <= a < mine.len() && is_sent(mine[a], tm, include_ignored) ==> entry_of_id(
                        paths,
                        mm,
                        mine[a].id@,
                    ) is Some,
                are_messages(paths, mm, mine.take(i as int).filter(sends), updated_entries@),
                are_ids(theirs.take(j as int).filter(drops), removed_entries@),
                forall|a: int, b: int|
                    #![trigger mine[a], theirs[b]]
                    0 <= a < i && j <= b < theirs.len() && takes(mine[a], include_ignored) && takes(
                        theirs[b],
                        include_ignored,
                    ) ==> mine[a].id@ < theirs[b].id@,
                forall|a: int, b: int|
                    #![trigger mine[a], theirs[b]]
                    i <= a < mine.len() && 0 <= b < j && takes(mine[a], include_ignored) && takes(
                        theirs[b],
                        include_ignored,
                    ) ==> theirs[b].id@ < mine[a].id@,
            ensures
                i == mine.len(),
                j == theirs.len(),
            decreases mine.len() - i + theirs.len() - j,
        {
            let has_mine: bool = i < self.snapshot.entries_by_id.len();
            let has_theirs: bool = j < other.snapshot.entries_by_id.len();
            if !has_mine && !has_theirs {
                break;
            }
            if has_mine {
                let kept = self.snapshot.entries_by_id.item(i);
                if !(include_ignored || !kept.is_ignored) {
                    proof {
                        lemma_filter_step(mine, i as int, sends);
                    }
                    i = i + 1;
                    continue;
                }
            }
            if has_theirs {
                let kept = other.snapshot.entries_by_id.item(j);
                if !(include_ignored || !kept.is_ignored) {
                    proof {
                        lemma_filter_step(theirs, j as int, drops);
                    }
                    j = j + 1;
                    continue;
                }
            }
            let send: bool;
            let take_mine: bool;
            let take_theirs: bool;
            if has_mine && has_theirs {
                let a = self.snapshot.entries_by_id.item(i);
                let b = other.snapshot.entries_by_id.item(j);
                if a.id.to_usize() < b.id.to_usize() {
                    take_mine = true;
                    take_theirs = false;
                    send = true;
                } else if a.id.to_usize() == b.id.to_usize() {
                    take_mine = true;
                    take_theirs = true;
                    send = a.scan_id != b.scan_id;
                } else {
                    take_mine = false;
                    take_theirs = true;
                    send = false;
                }
            } else {
                take_mine = has_mine;
                take_theirs = has_theirs;
                send = has_mine;
            }
            proof {
                if take_mine {
                    lemma_item_with(mine, i as int);
                    if has_key(theirs, mine[i as int].id@) {
                        let b = lemma_key_index(theirs, mine[i as int].id@);
                        lemma_item_with(theirs, b);
                        if has_theirs {
                            lemma_ids_ordered(theirs, b, j as int);
                        }
                    }
                    assert(send == is_sent(mine[i as int], tm, include_ignored));
                    lemma_filter_step(mine, i as int, sends);
                }
                if take_theirs {
                    lemma_item_with(theirs, j as int);
                    if has_key(mine, theirs[j as int].id@) {
                        let a = lemma_key_index(mine, theirs[j as int].id@);
                        lemma_item_with(mine, a);
                        if has_mine {
                            lemma_ids_ordered(mine, a, i as int);
                        }
                    }
                    assert(!take_mine == is_dropped(theirs[j as int], mm, include_ignored));
                    lemma_filter_step(theirs, j as int, drops);
                }
            }
            let ghost ms = updated_entries@;
            let ghost done = mine.take(i as int).filter(sends);
            if take_mine && send {
                let id = self.snapshot.entries_by_id.item(i).id;
                match self.snapshot.entry_for_id(id) {
                    Some(entry) => {
                        updated_entries.push(entry.to_proto());
                    },
                    None => {
                        assert(entry_of_id(paths, mm, mine[i as int].id@) is Some);
                    },
                }
            }
            if take_theirs && !take_mine {
                removed_entries.push(other.snapshot.entries_by_id.item(j).id.to_proto());
            }
            if take_mine {
                proof {
                    let next = mine.take(i + 1).filter(sends);
                    assert forall|k: int|
                        #![trigger updated_entries@[k]]
                        0 <= k < updated_entries@.len() implies is_message_for(
                        paths,
                        mm,
                        next[k].id@,
                        updated_entries@[k],
                    ) by {
                        if k < ms.len() {
                            assert(ms[k] == updated_entries@[k]);
                            assert(next[k] == done[k]);
                        } else {
                            assert(next[k] == mine[i as int]);
                        }
                    }
                }
                i = i + 1;
            }
            if take_theirs {
                j = j + 1;
            }
        }
        assert(mine.take(mine.len() as int) =~= mine);
        assert(theirs.take(theirs.len() as int) =~= theirs);
        proto::UpdateWorktree {
            project_id,
            worktree_id,
            abs_path: self.snapshot.abs_path.to_text(),
            root_name: self.snapshot.root_name.clone(),
            updated_entries,
            removed_entries,
            scan_id: self.snapshot.scan_id as u64,
            is_last_update: self.snapshot.completed_scan_id == self.snapshot.scan_id,
        }
    }
}

/// What a snapshot tells of an entry, whatever was read of it so far.
pub struct Row {
    pub id: usize,
    pub inode: u64,
    pub mtime: Timestamp,
    pub is_symlink: bool,
    pub is_ignored: bool,
    pub is_file: bool,
}

/// What is told of an entry.
pub open spec fn row_of(e: Entry) -> Row {
    Row {
        id: e.id@,
        inode: e.inode,
        mtime: e.mtime,
        is_symlink: e.is_symlink,
        is_ignored: e.is_ignored,
        is_file: e.is_file_entry(),
    }
}

/// What is told of entries, by their paths. Ignored entries can be left out.
pub open spec fn rows(paths: ByPath, include_ignored: bool) -> Map<Seq<Seq<char>>, Row> {
    Map::new(
        |p: Seq<Seq<char>>| paths.contains_key(p) && (include_ignored || !paths[p].is_ignored),
        |p: Seq<Seq<char>>| row_of(paths[p]),
    )
}

/// Whether an entry that two snapshots keep from one scan is the same in both.
pub open spec fn stamped(np: ByPath, ni: ById, op: ByPath, oi: ById) -> bool {
    forall|id: usize|
        #![trigger ni[id]]
        #![trigger oi[id]]
        ni.contains_key(id) && oi.contains_key(id) && ni[id].scan_id == oi[id].scan_id ==> {
            &&& ni[id].path.comps() == oi[id].path.comps()
            &&& row_of(np[ni[id].path.comps()]) == row_of(op[oi[id].path.comps()])
        }
}

/// Whether one snapshot is a copy of another, less the ignored entries where they are left out.
pub open spec fn mirrors(copy: Snapshot, source: Snapshot, include_ignored: bool) -> bool {
    &&& copy.wf()
    &&& copy.is_consistent()
    &&& rows(copy.paths_map(), true) == rows(source.paths_map(), include_ignored)
}

/// Whether every entry stands at its own path.
pub open spec fn keyed(paths: ByPath) -> bool {
    forall|p: Seq<Seq<char>>| #[trigger] paths.contains_key(p) ==> paths[p].comps() == p
}

/// The entries of a list stand at their own paths.
pub proof fn lemma_keyed(s: Seq<Entry>)
    ensures
        keyed(by_key(s)),
{
    assert forall|p: Seq<Seq<char>>| #[trigger] by_key(s).contains_key(p) implies by_key(
        s,
    )[p].comps() == p by {
        let i = lemma_key_index(s, p);
    }
}

proof fn lemma_kept(s: Seq<PathEntry>, id: usize)
    requires
        by_key(s).contains_key(id),
    ensures
        by_key(s)[id].id@ == id,
        s.contains(by_key(s)[id]),
{
    let i = lemma_key_index(s, id);
    assert(s[i] == by_key(s)[id]);
}

/// A copy finds by identifier what its source does.
proof fn lemma_mirror_ids(cp: ByPath, ci: ById, op: ByPath, oi: ById, include_ignored: bool, id: usize)
    requires
        consistent(cp, ci),
        consistent(op, oi),
        keyed(op),
        rows(cp, true) == rows(op, include_ignored),
    ensures
        ci.contains_key(id) <==> oi.contains_key(id) && takes(oi[id], include_ignored),
        ci.contains_key(id) ==> {
            let p = ci[id].path.comps();
            &&& p == oi[id].path.comps()
            &&& cp.contains_key(p)
            &&& op.contains_key(p)
            &&& cp[p].id@ == id
            &&& row_of(cp[p]) == row_of(op[p])
            &&& speaks_of(ci[id], cp[p])
        },
{
    if ci.contains_key(id) {
        let p = ci[id].path.comps();
        assert(cp.contains_key(p) && cp[p].id@ == id);
        assert(rows(cp, true).contains_key(p));
        assert(rows(op, include_ignored).contains_key(p));
        assert(rows(cp, true)[p] == row_of(cp[p]));
        assert(rows(op, include_ignored)[p] == row_of(op[p]));
        assert(row_of(cp[p]) == row_of(op[p]));
        assert(row_of(cp[p]).id == row_of(op[p]).id);
        assert(op[p].id@ == id);
        assert(speaks_of(ci[cp[p].id@], cp[p]));
        assert(speaks_of(oi[op[p].id@], op[p]));
    }
    if oi.contains_key(id) && takes(oi[id], include_ignored) {
        let p = oi[id].path.comps();
        assert(op.contains_key(p) && op[p].id@ == id);
        assert(speaks_of(oi[id], op[p]));
        assert(rows(op, include_ignored).contains_key(p));
        assert(rows(cp, true).contains_key(p));
        assert(rows(cp, true)[p] == row_of(cp[p]));
        assert(rows(op, include_ignored)[p] == row_of(op[p]));
        assert(row_of(cp[p]) == row_of(op[p]));
        assert(row_of(cp[p]).id == row_of(op[p]).id);
        assert(cp.contains_key(p) && cp[p].id@ == id);
    }
}

/// What stands in a list of entries, by path.
pub proof fn lemma_entries_by_path(es: Seq<Entry>, p: Seq<Seq<char>>)
    ensures
        entries_by_path(es).contains_key(p) <==> exists|i: int|
            #![trigger es[i]]
            0 <= i < es.len() && es[i].comps() == p,
        entries_by_path(es).contains_key(p) ==> exists|i: int|
            #![trigger es[i]]
            0 <= i < es.len() && es[i].comps() == p && entries_by_path(es)[p] == es[i],
    decreases es.len(),
{
    if es.len() > 0 {
        let before = es.drop_last();
        lemma_entries_by_path(before, p);
        if es.last().comps() == p {
            assert(es[es.len() - 1] == es.last());
        } else {
            if entries_by_path(before).contains_key(p) {
                let i = choose|i: int|
                    #![trigger before[i]]
                    0 <= i < before.len() && before[i].comps() == p && entries_by_path(before)[p]
                        == before[i];
                assert(es[i] == before[i]);
            }
            if exists|i: int| #![trigger es[i]] 0 <= i < es.len() && es[i].comps() == p {
                let i = choose|i: int| #![trigger es[i]] 0 <= i < es.len() && es[i].comps() == p;
                assert(before[i] == es[i]);
            }
        }
    }
}

/// What stands in a list of entries, by identifier.
pub proof fn lemma_entries_by_id(es: Seq<Entry>, scan_id: usize, id: usize)
    ensures
        entries_by_id(es, scan_id).contains_key(id) <==> exists|i: int|
            #![trigger es[i]]
            0 <= i < es.len() && es[i].id@ == id,
        entries_by_id(es, scan_id).contains_key(id) ==> exists|i: int|
            #![trigger es[i]]
            0 <= i < es.len() && es[i].id@ == id && entries_by_id(es, scan_id)[id] == kept_of(
                es[i],
                scan_id,
            ),
    decreases es.len(),
{
    if es.len() > 0 {
        let before = es.drop_last();
        lemma_entries_by_id(before, scan_id, id);
        if es.last().id@ == id {
            assert(es[es.len() - 1] == es.last());
        } else {
            if entries_by_id(before, scan_id).contains_key(id) {
                let i = choose|i: int|
                    #![trigger before[i]]
                    0 <= i < before.len() && before[i].id@ == id && entries_by_id(
                        before,
                        scan_id,
                    )[id] == kept_of(before[i], scan_id);
                assert(es[i] == before[i]);
            }
            if exists|i: int| #![trigger es[i]] 0 <= i < es.len() && es[i].id@ == id {
                let i = choose|i: int| #![trigger es[i]] 0 <= i < es.len() && es[i].id@ == id;
                assert(before[i] == es[i]);
            }
        }
    }
}

/// What an update, its messages read as entries, has to do with the newer snapshot.
spec fn describes(
    newer: LocalSnapshot,
    older: LocalSnapshot,
    include_ignored: bool,
    root: Seq<char>,
    update: proto::UpdateWorktree,
    es: Seq<Entry>,
) -> bool {
    &&& newer.wf()
    &&& older.wf()
    &&& consistent(newer.paths_map(), newer.ids_map())
    &&& consistent(older.paths_map(), older.ids_map())
    &&& is_update(newer, older, include_ignored, update)
    &&& are_entries_of_messages(root, update.updated_entries@, es)
}

/// The entry that a message of an update describes is that of the newer snapshot.
proof fn lemma_described(
    newer: LocalSnapshot,
    older: LocalSnapshot,
    include_ignored: bool,
    root: Seq<char>,
    update: proto::UpdateWorktree,
    es: Seq<Entry>,
    i: int,
)
    requires
        describes(newer, older, include_ignored, root, update, es),
        0 <= i < es.len(),
    ensures
        ({
            let np = newer.paths_map();
            let ni = newer.ids_map();
            let p = es[i].comps();
            let id = es[i].id@;
            &&& np.contains_key(p)
            &&& ni.contains_key(id)
            &&& ni[id].path.comps() == p
            &&& row_of(es[i]) == row_of(np[p])
            &&& np[p].id@ == id
            &&& is_sent(ni[id], older.ids_map(), include_ignored)
            &&& update.updated_entries@[i].id as usize == id
        }),
{
    let np = newer.paths_map();
    let ni = newer.ids_map();
    let ks = sent(newer.snap().id_list(), older.ids_map(), include_ignored);
    let sends = |k: PathEntry| is_sent(k, older.ids_map(), include_ignored);
    lemma_filter_sorted(newer.snap().id_list(), sends);
    let k = ks[i];
    let m = update.updated_entries@[i];
    assert(is_message_for(np, ni, k.id@, m));
    let j = choose|j: int| 0 <= j < newer.snap().id_list().len() && newer.snap().id_list()[j] == k;
    lemma_item_with(newer.snap().id_list(), j);
    assert(ni[k.id@] == k);
    let q = k.path.comps();
    let e = np[q];
    lemma_keyed(newer.snap().list());
    assert(e.id@ == k.id@);
    assert(es[i].comps() == q);
}

/// Every entry that the newer snapshot has and the older one has not from the same scan stands in
/// the update.
proof fn lemma_sent_described(
    newer: LocalSnapshot,
    older: LocalSnapshot,
    include_ignored: bool,
    root: Seq<char>,
    update: proto::UpdateWorktree,
    es: Seq<Entry>,
    id: usize,
) -> (i: int)
    requires
        describes(newer, older, include_ignored, root, update, es),
        newer.ids_map().contains_key(id),
        is_sent(newer.ids_map()[id], older.ids_map(), include_ignored),
    ensures
        0 <= i < es.len(),
        es[i].id@ == id,
        es[i].comps() == newer.ids_map()[id].path.comps(),
{
    let ni = newer.ids_map();
    let s = newer.snap().id_list();
    let sends = |k: PathEntry| is_sent(k, older.ids_map(), include_ignored);
    let ks = sent(s, older.ids_map(), include_ignored);
    lemma_filter_sorted(s, sends);
    lemma_kept(s, id);
    assert(sends(ni[id]));
    assert(ks.contains(ni[id]));
    let i = choose|i: int| 0 <= i < ks.len() && ks[i] == ni[id];
    lemma_described(newer, older, include_ignored, root, update, es, i);
    assert(is_message_for(newer.paths_map(), ni, ks[i].id@, update.updated_entries@[i]));
    let q = ni[id].path.comps();
    assert(newer.paths_map()[q].id@ == id);
    i
}

/// An identifier is removed by an update exactly where the older snapshot has it and the newer
/// one has not.
proof fn lemma_removed_ids(
    newer: LocalSnapshot,
    older: LocalSnapshot,
    include_ignored: bool,
    update: proto::UpdateWorktree,
    id: usize,
)
    requires
        older.wf(),
        newer.wf(),
        is_update(newer, older, include_ignored, update),
    ensures
        (exists|r: int|
            #![trigger update.removed_entries@[r]]
            0 <= r < update.removed_entries@.len() && update.removed_entries@[r] as usize == id)
            <==> older.ids_map().contains_key(id) && is_dropped(
            older.ids_map()[id],
            newer.ids_map(),
            include_ignored,
        ),
{
    let oi = older.ids_map();
    let s = older.snap().id_list();
    let drops = |k: PathEntry| is_dropped(k, newer.ids_map(), include_ignored);
    let ks = dropped(s, newer.ids_map(), include_ignored);
    let removed = update.removed_entries@;
    lemma_filter_sorted(s, drops);
    if oi.contains_key(id) && is_dropped(oi[id], newer.ids_map(), include_ignored) {
        lemma_kept(s, id);
        assert(drops(oi[id]));
        assert(ks.contains(oi[id]));
        let r = choose|r: int| 0 <= r < ks.len() && ks[r] == oi[id];
        assert(removed[r] == ks[r].id@);
        assert(removed[r] as usize == id);
    }
    if exists|r: int| #![trigger removed[r]] 0 <= r < removed.len() && removed[r] as usize == id {
        let r = choose|r: int| #![trigger removed[r]] 0 <= r < removed.len() && removed[r] as usize == id;
        assert(removed[r] == ks[r].id@);
        let j = choose|j: int| 0 <= j < s.len() && s[j] == ks[r];
        lemma_item_with(s, j);
        assert(oi[id] == ks[r]);
    }
}

/// What makes an update, applied to a copy of the older snapshot, tell of the newer one.
pub open spec fn update_fits(
    newer: LocalSnapshot,
    older: LocalSnapshot,
    include_ignored: bool,
    update: proto::UpdateWorktree,
    copy: Snapshot,
) -> bool {
    &&& newer.wf()
    &&& older.wf()
    &&& newer.snap().is_consistent()
    &&& older.snap().is_consistent()
    &&& stamped(newer.paths_map(), newer.ids_map(), older.paths_map(), older.ids_map())
    &&& is_update(newer, older, include_ignored, update)
    &&& mirrors(copy, older.snap(), include_ignored)
}

/// What an update leaves where it was, or takes out.
proof fn lemma_kept_path(
    newer: LocalSnapshot,
    older: LocalSnapshot,
    include_ignored: bool,
    update: proto::UpdateWorktree,
    copy: Snapshot,
    es: Seq<Entry>,
    p: Seq<Seq<char>>,
)
    requires
        update_fits(newer, older, include_ignored, update, copy),
        are_entries_of_messages(copy.root_chars(), update.updated_entries@, es),
        copy.paths_map().contains_key(p),
    ensures
        ({
            let id = copy.paths_map()[p].id@;
            let ni = newer.ids_map();
            paths_taken_out(
                copy.paths_map(),
                copy.ids_map(),
                update.removed_entries@,
                update.updated_entries@,
            ).contains(p) <==> !(ni.contains_key(id) && takes(ni[id], include_ignored)) || is_sent(
                ni[id],
                older.ids_map(),
                include_ignored,
            )
        }),
{
    let cp = copy.paths_map();
    let ci = copy.ids_map();
    let op = older.paths_map();
    let oi = older.ids_map();
    let ni = newer.ids_map();
    let removed = update.removed_entries@;
    let updated = update.updated_entries@;
    let root = copy.root_chars();
    let id = cp[p].id@;
    lemma_keyed(older.snap().list());
    lemma_keyed(copy.list());
    assert(ci.contains_key(id) && speaks_of(ci[id], cp[p]));
    assert(ci[id].path.comps() == p);
    lemma_mirror_ids(cp, ci, op, oi, include_ignored, id);
    let out = paths_taken_out(cp, ci, removed, updated);
    if !(ni.contains_key(id) && takes(ni[id], include_ignored)) {
        lemma_removed_ids(newer, older, include_ignored, update, id);
        let r = choose|r: int| #![trigger removed[r]] 0 <= r < removed.len() && removed[r] as usize == id;
        assert(entry_of_id(cp, ci, removed[r] as usize) == Some(cp[p]));
        assert(out.contains(p));
    } else if is_sent(ni[id], oi, include_ignored) {
        let i = lemma_sent_described(newer, older, include_ignored, root, update, es, id);
        lemma_described(newer, older, include_ignored, root, update, es, i);
        assert(updated[i].id as usize == id);
        assert(out.contains(p));
    } else {
        if exists|r: int|
            #![trigger removed[r]]
            0 <= r < removed.len() && (entry_of_id(cp, ci, removed[r] as usize) matches Some(e)
                && e.comps() == p) {
            let r = choose|r: int|
                #![trigger removed[r]]
                0 <= r < removed.len() && (entry_of_id(cp, ci, removed[r] as usize) matches Some(e)
                    && e.comps() == p);
            let rid = removed[r] as usize;
            let q = ci[rid].path.comps();
            assert(cp.contains_key(q));
            assert(cp[q].comps() == q);
            assert(q == p);
            assert(rid == id);
            lemma_removed_ids(newer, older, include_ignored, update, id);
        }
        if exists|i: int|
            #![trigger updated[i]]
            0 <= i < updated.len() && ci.contains_key(updated[i].id as usize)
                && ci[updated[i].id as usize].path.comps() == p {
            let i = choose|i: int|
                #![trigger updated[i]]
                0 <= i < updated.len() && ci.contains_key(updated[i].id as usize)
                    && ci[updated[i].id as usize].path.comps() == p;
            lemma_described(newer, older, include_ignored, root, update, es, i);
            assert(es[i].id@ == id);
        }
        assert(!out.contains(p));
    }
}

/// What an update makes of the entries of a copy.
proof fn lemma_updated_rows(
    newer: LocalSnapshot,
    older: LocalSnapshot,
    include_ignored: bool,
    update: proto::UpdateWorktree,
    copy: Snapshot,
    es: Seq<Entry>,
    p: Seq<Seq<char>>,
)
    requires
        update_fits(newer, older, include_ignored, update, copy),
        are_entries_of_messages(copy.root_chars(), update.updated_entries@, es),
    ensures
        ({
            let ap = updated_paths(copy.paths_map(), copy.ids_map(), update, es);
            let np = newer.paths_map();
            &&& ap.contains_key(p) <==> np.contains_key(p) && (include_ignored
                || !np[p].is_ignored)
            &&& ap.contains_key(p) ==> row_of(ap[p]) == row_of(np[p])
        }),
{
    let cp = copy.paths_map();
    let ci = copy.ids_map();
    let op = older.paths_map();
    let oi = older.ids_map();
    let np = newer.paths_map();
    let ni = newer.ids_map();
    let root = copy.root_chars();
    let ap = updated_paths(cp, ci, update, es);
    lemma_keyed(older.snap().list());
    lemma_keyed(newer.snap().list());
    lemma_keyed(copy.list());
    lemma_entries_by_path(es, p);
    if entries_by_path(es).contains_key(p) {
        let i = choose|i: int|
            #![trigger es[i]]
            0 <= i < es.len() && es[i].comps() == p && entries_by_path(es)[p] == es[i];
        lemma_described(newer, older, include_ignored, root, update, es, i);
        assert(speaks_of(ni[np[p].id@], np[p]));
        assert(ap[p] == es[i]);
    } else {
        if cp.contains_key(p) {
            lemma_kept_path(newer, older, include_ignored, update, copy, es, p);
            let id = cp[p].id@;
            assert(ci.contains_key(id) && speaks_of(ci[id], cp[p]));
            lemma_mirror_ids(cp, ci, op, oi, include_ignored, id);
            if ap.contains_key(p) {
                assert(ap[p] == cp[p]);
                assert(ni[id].scan_id == oi[id].scan_id);
                assert(ni[id].path.comps() == p);
                assert(row_of(np[p]) == row_of(op[p]));
                assert(row_of(np[p]).is_ignored == row_of(op[p]).is_ignored);
                assert(np.contains_key(p));
                assert(speaks_of(ni[np[p].id@], np[p]));
            }
        }
        if np.contains_key(p) && (include_ignored || !np[p].is_ignored) {
            let id = np[p].id@;
            assert(ni.contains_key(id) && speaks_of(ni[id], np[p]));
            if is_sent(ni[id], oi, include_ignored) {
                let i = lemma_sent_described(newer, older, include_ignored, root, update, es, id);
                assert(es[i].comps() == p);
            } else {
                assert(oi.contains_key(id) && oi[id].scan_id == ni[id].scan_id);
                lemma_mirror_ids(cp, ci, op, oi, include_ignored, id);
                assert(ci[id].path.comps() == p);
                assert(cp.contains_key(p) && cp[p].id@ == id);
                lemma_kept_path(newer, older, include_ignored, update, copy, es, p);
                assert(ap.contains_key(p));
            }
        }
    }
}

/// What an update makes of what a copy keeps by identifier.
proof fn lemma_updated_ids(
    newer: LocalSnapshot,
    older: LocalSnapshot,
    include_ignored: bool,
    update: proto::UpdateWorktree,
    copy: Snapshot,
    es: Seq<Entry>,
    id: usize,
)
    requires
        update_fits(newer, older, include_ignored, update, copy),
        are_entries_of_messages(copy.root_chars(), update.updated_entries@, es),
    ensures
        ({
            let ai = updated_ids(copy.paths_map(), copy.ids_map(), update, es);
            let ni = newer.ids_map();
            &&& ai.contains_key(id) <==> ni.contains_key(id) && takes(ni[id], include_ignored)
            &&& ai.contains_key(id) ==> {
                &&& ai[id].id@ == id
                &&& ai[id].path.comps() == ni[id].path.comps()
                &&& ai[id].is_ignored == ni[id].is_ignored
            }
        }),
{
    let cp = copy.paths_map();
    let ci = copy.ids_map();
    let op = older.paths_map();
    let oi = older.ids_map();
    let np = newer.paths_map();
    let ni = newer.ids_map();
    let root = copy.root_chars();
    let removed = update.removed_entries@;
    let ai = updated_ids(cp, ci, update, es);
    let out = ids_taken_out(cp, ci, removed);
    lemma_keyed(older.snap().list());
    lemma_keyed(newer.snap().list());
    lemma_keyed(copy.list());
    lemma_entries_by_id(es, 0, id);
    if entries_by_id(es, 0).contains_key(id) {
        let i = choose|i: int|
            #![trigger es[i]]
            0 <= i < es.len() && es[i].id@ == id && entries_by_id(es, 0)[id] == kept_of(es[i], 0);
        lemma_described(newer, older, include_ignored, root, update, es, i);
        let p = es[i].comps();
        assert(speaks_of(ni[np[p].id@], np[p]));
        assert(row_of(es[i]).is_ignored == row_of(np[p]).is_ignored);
        assert(ai[id] == kept_of(es[i], 0));
    } else {
        lemma_mirror_ids(cp, ci, op, oi, include_ignored, id);
        lemma_removed_ids(newer, older, include_ignored, update, id);
        if ci.contains_key(id) {
            let p = ci[id].path.comps();
            assert(out.contains(id) <==> is_dropped(oi[id], ni, include_ignored)) by {
                if is_dropped(oi[id], ni, include_ignored) {
                    let r = choose|r: int|
                        #![trigger removed[r]]
                        0 <= r < removed.len() && removed[r] as usize == id;
                    assert(entry_of_id(cp, ci, removed[r] as usize) == Some(cp[p]));
                }
                if out.contains(id) {
                    let r = choose|r: int|
                        #![trigger removed[r]]
                        0 <= r < removed.len() && (entry_of_id(
                            cp,
                            ci,
                            removed[r] as usize,
                        ) matches Some(e) && e.id@ == id);
                    let rid = removed[r] as usize;
                    assert(cp[ci[rid].path.comps()].id@ == rid);
                    assert(rid == id);
                }
            }
        }
        if ni.contains_key(id) && is_sent(ni[id], oi, include_ignored) {
            let i = lemma_sent_described(newer, older, include_ignored, root, update, es, id);
            assert(es[i].id@ == id);
        }
        if ai.contains_key(id) {
            let p = ci[id].path.comps();
            assert(ai[id] == ci[id]);
            assert(ni.contains_key(id) && ni[id].scan_id == oi[id].scan_id);
            assert(ni[id].path.comps() == p);
            assert(row_of(np[p]).is_ignored == row_of(op[p]).is_ignored);
            assert(row_of(cp[p]).is_ignored == row_of(op[p]).is_ignored);
            assert(np.contains_key(p) && np[p].id@ == id);
            assert(speaks_of(ni[np[p].id@], np[p]));
            assert(ci[id].id@ == id);
        }
    }
}

/// An update, applied to a copy of the older snapshot, makes it a copy of the newer one. A copy
/// that was told of every scan so far has then been told of the last scan of the newer snapshot,
/// and of its end where it has ended.
pub proof fn law_update_makes_copy(
    newer: LocalSnapshot,
    older: LocalSnapshot,
    include_ignored: bool,
    update: proto::UpdateWorktree,
    copy: Snapshot,
    es: Seq<Entry>,
    after: Snapshot,
)
    requires
        update_fits(newer, older, include_ignored, update, copy),
        is_updated(copy, update, es, after),
        after.wf(),
    ensures
        mirrors(after, newer.snap(), include_ignored),
        after.scan() == newer.scan(),
        after.completed_scan() == if newer.snap().completed_scan() == newer.scan() {
            newer.scan()
        } else {
            copy.completed_scan()
        },
{
    let np = newer.paths_map();
    let ni = newer.ids_map();
    let ap = after.paths_map();
    let ai = after.ids_map();
    assert(rows(ap, true) =~= rows(np, include_ignored)) by {
        assert forall|p: Seq<Seq<char>>| #[trigger] rows(ap, true).contains_key(p) <==> rows(
            np,
            include_ignored,
        ).contains_key(p) by {
            lemma_updated_rows(newer, older, include_ignored, update, copy, es, p);
        }
        assert forall|p: Seq<Seq<char>>| #[trigger] rows(ap, true).contains_key(p) implies rows(
            ap,
            true,
        )[p] == rows(np, include_ignored)[p] by {
            lemma_updated_rows(newer, older, include_ignored, update, copy, es, p);
        }
    }
    lemma_keyed(newer.snap().list());
    lemma_keyed(after.list());
    assert forall|p: Seq<Seq<char>>| #[trigger] ap.contains_key(p) implies ai.contains_key(
        ap[p].id@,
    ) && speaks_of(ai[ap[p].id@], ap[p]) by {
        lemma_updated_rows(newer, older, include_ignored, update, copy, es, p);
        assert(row_of(ap[p]).id == row_of(np[p]).id);
        assert(row_of(ap[p]).is_ignored == row_of(np[p]).is_ignored);
        let id = np[p].id@;
        assert(ni.contains_key(id) && speaks_of(ni[id], np[p]));
        lemma_updated_ids(newer, older, include_ignored, update, copy, es, id);
    }
    assert forall|id: usize| #[trigger] ai.contains_key(id) implies ap.contains_key(
        ai[id].path.comps(),
    ) && ap[ai[id].path.comps()].id@ == id by {
        lemma_updated_ids(newer, older, include_ignored, update, copy, es, id);
        let p = ni[id].path.comps();
        assert(np.contains_key(p) && np[p].id@ == id);
        assert(speaks_of(ni[np[p].id@], np[p]));
        lemma_updated_rows(newer, older, include_ignored, update, copy, es, p);
        assert(row_of(ap[p]).id == row_of(np[p]).id);
    }
}

/// A copy of the older snapshot takes an update: every entry that the update removes is there,
/// and every entry that it describes has a modification time.
pub proof fn law_update_is_accepted(
    newer: LocalSnapshot,
    older: LocalSnapshot,
    include_ignored: bool,
    update: proto::UpdateWorktree,
    copy: Snapshot,
)
    requires
        update_fits(newer, older, include_ignored, update, copy),
    ensures
        first_unknown(copy.paths_map(), copy.ids_map(), update.removed_entries@) is None,
        all_timed(update.updated_entries@),
{
    let removed = update.removed_entries@;
    let cp = copy.paths_map();
    let ci = copy.ids_map();
    lemma_keyed(older.snap().list());
    assert forall|r: int| #![trigger removed[r]] 0 <= r < removed.len() implies entry_of_id(
        cp,
        ci,
        removed[r] as usize,
    ) is Some by {
        let id = removed[r] as usize;
        lemma_removed_ids(newer, older, include_ignored, update, id);
        lemma_mirror_ids(cp, ci, older.paths_map(), older.ids_map(), include_ignored, id);
    }
    lemma_all_known(cp, ci, removed);
    let updated = update.updated_entries@;
    assert forall|i: int| #![trigger updated[i]] 0 <= i < updated.len() implies updated[i].mtime is Some by {
        let ks = sent(newer.snap().id_list(), older.ids_map(), include_ignored);
        assert(is_message_for(newer.paths_map(), newer.ids_map(), ks[i].id@, updated[i]));
    }
}

proof fn lemma_all_known(cp: ByPath, ci: ById, removed: Seq<u64>)
    requires
        forall|r: int|
            #![trigger removed[r]]
            0 <= r < removed.len() ==> entry_of_id(cp, ci, removed[r] as usize) is Some,
    ensures
        first_unknown(cp, ci, removed) is None,
    decreases removed.len(),
{
    if removed.len() > 0 {
        let before = removed.drop_last();
        assert forall|r: int| #![trigger before[r]] 0 <= r < before.len() implies entry_of_id(
            cp,
            ci,
            before[r] as usize,
        ) is Some by {
            assert(before[r] == removed[r]);
        }
        lemma_all_known(cp, ci, before);
        assert(removed[removed.len() - 1] == removed.last());
    }
}

} // verus!
