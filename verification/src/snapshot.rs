//! What a worktree holds at one time.
use crate::char_bag::CharBag;
use crate::entry::{
    is_entry_of_message, total_counts, Entry, EntrySummary, PathEntry, PathKey, WorktreeError,
};
use crate::ids::{ProjectEntryId, WorktreeId};
use crate::path::{names_lt, nested_in, Path};
use crate::proto;
use crate::sum_tree::{
    by_key, in_range, inserts, lemma_edits_push, lemma_item_with, lemma_key_index, lemma_no_edits,
    lemma_remove_range, removes, sorted, Edit, SumTree,
};
use crate::traversal::{
    after_subtree, lemma_components_empty, lemma_counts_bounded, lemma_counts_selected,
    lemma_counts_step, lemma_seek_path, lemma_subtree_block, selected, Bias, ChildEntriesIter,
    Traversal, TraversalTarget,
};
use std::sync::Arc;
use vstd::prelude::*;

verus! {

/// Entries by the components of their paths.
pub type ByPath = Map<Seq<Seq<char>>, Entry>;

/// What is kept of entries, by their identifiers.
pub type ById = Map<usize, PathEntry>;

/// The entry with an identifier: the one at the path that is kept for it.
pub open spec fn entry_of_id(by_path: ByPath, by_id: ById, id: usize) -> Option<Entry> {
    if by_id.contains_key(id) && by_path.contains_key(by_id[id].path.comps()) {
        Some(by_path[by_id[id].path.comps()])
    } else {
        None
    }
}

/// Whether what is kept by identifier speaks of an entry.
pub open spec fn speaks_of(kept: PathEntry, e: Entry) -> bool {
    &&& kept.id@ == e.id@
    &&& kept.path.comps() == e.comps()
    &&& kept.is_ignored == e.is_ignored
}

/// Whether every entry is found by its identifier.
pub open spec fn listed(by_path: ByPath, by_id: ById) -> bool {
    forall|p: Seq<Seq<char>>| #[trigger]
        by_path.contains_key(p) ==> by_id.contains_key(by_path[p].id@) && speaks_of(
            by_id[by_path[p].id@],
            by_path[p],
        )
}

/// Whether every entry is found by its identifier, and nothing else is.
pub open spec fn consistent(by_path: ByPath, by_id: ById) -> bool {
    &&& listed(by_path, by_id)
    &&& forall|id: usize| #[trigger]
        by_id.contains_key(id) ==> by_path.contains_key(by_id[id].path.comps())
            && by_path[by_id[id].path.comps()].id@ == id
}

/// What is kept of an entry that a scan found.
pub open spec fn kept_of(e: Entry, scan_id: usize) -> PathEntry {
    PathEntry { id: e.id, path: e.path, is_ignored: e.is_ignored, scan_id }
}

/// Entries by their paths, of two with one path the later.
pub open spec fn entries_by_path(es: Seq<Entry>) -> ByPath
    decreases es.len(),
{
    if es.len() == 0 {
        Map::empty()
    } else {
        entries_by_path(es.drop_last()).insert(es.last().comps(), es.last())
    }
}

/// What is kept of entries that a scan found, by their identifiers, of two with one identifier
/// the later.
pub open spec fn entries_by_id(es: Seq<Entry>, scan_id: usize) -> ById
    decreases es.len(),
{
    if es.len() == 0 {
        Map::empty()
    } else {
        entries_by_id(es.drop_last(), scan_id).insert(es.last().id@, kept_of(es.last(), scan_id))
    }
}

/// Whether entries are those that messages describe.
pub open spec fn are_entries_of_messages(root: Seq<char>, ms: Seq<proto::Entry>, es: Seq<Entry>) -> bool {
    &&& es.len() == ms.len()
    &&& forall|i: int| #![trigger es[i]] 0 <= i < es.len() ==> is_entry_of_message(root, ms[i], es[i])
}

/// The paths that an update takes out: those of the entries that it removes, and those that the
/// entries that it changes had before.
pub open spec fn paths_taken_out(
    by_path: ByPath,
    by_id: ById,
    removed: Seq<u64>,
    updated: Seq<proto::Entry>,
) -> Set<Seq<Seq<char>>> {
    Set::new(
        |p: Seq<Seq<char>>|
            {
                ||| exists|i: int|
                    #![trigger removed[i]]
                    0 <= i < removed.len() && (entry_of_id(by_path, by_id, removed[i] as usize) matches Some(
                        e,
                    ) && e.comps() == p)
                ||| exists|i: int|
                    #![trigger updated[i]]
                    0 <= i < updated.len() && by_id.contains_key(updated[i].id as usize)
                        && by_id[updated[i].id as usize].path.comps() == p
            },
    )
}

/// The identifiers that an update takes out.
pub open spec fn ids_taken_out(by_path: ByPath, by_id: ById, removed: Seq<u64>) -> Set<usize> {
    Set::new(
        |id: usize|
            exists|i: int|
                #![trigger removed[i]]
                0 <= i < removed.len() && (entry_of_id(by_path, by_id, removed[i] as usize) matches Some(
                    e,
                ) && e.id@ == id),
    )
}

/// The first of the identifiers to remove that no entry has.
pub open spec fn first_unknown(by_path: ByPath, by_id: ById, removed: Seq<u64>) -> Option<u64>
    decreases removed.len(),
{
    if removed.len() == 0 {
        None
    } else {
        match first_unknown(by_path, by_id, removed.drop_last()) {
            Some(id) => Some(id),
            None => if entry_of_id(by_path, by_id, removed.last() as usize) is None {
                Some(removed.last())
            } else {
                None
            },
        }
    }
}

/// Whether each message has a modification time.
pub open spec fn all_timed(ms: Seq<proto::Entry>) -> bool {
    forall|i: int| #![trigger ms[i]] 0 <= i < ms.len() ==> ms[i].mtime is Some
}

/// A snapshot of a worktree.
#[derive(Debug)]
pub struct Snapshot {
    pub(crate) id: WorktreeId,
    pub(crate) abs_path: Arc<Path>,
    pub(crate) root_name: String,
    pub(crate) root_char_bag: CharBag,
    pub(crate) entries_by_path: SumTree<Entry>,
    pub(crate) entries_by_id: SumTree<PathEntry>,
    pub(crate) scan_id: usize,
    pub(crate) completed_scan_id: usize,
}

impl Clone for Snapshot {
    fn clone(&self) -> (r: Self)
        ensures
            r.same_as(*self),
    {
        let r = Snapshot {
            id: self.id,
            abs_path: self.abs_path.clone(),
            root_name: self.root_name.clone(),
            root_char_bag: self.root_char_bag.clone(),
            entries_by_path: self.entries_by_path.clone(),
            entries_by_id: self.entries_by_id.clone(),
            scan_id: self.scan_id,
            completed_scan_id: self.completed_scan_id,
        };
        assert(r.entries_by_path@ =~= self.entries_by_path@);
        assert(r.entries_by_id@ =~= self.entries_by_id@);
        r
    }
}

impl Snapshot {
    /// The entries in the order of their paths.
    pub open(crate) spec fn list(&self) -> Seq<Entry> {
        self.entries_by_path@
    }

    /// What is kept of the entries, in the order of their identifiers.
    pub open(crate) spec fn id_list(&self) -> Seq<PathEntry> {
        self.entries_by_id@
    }

    /// The entries by their paths.
    pub open spec fn paths_map(&self) -> ByPath {
        by_key(self.list())
    }

    /// What is kept of the entries, by their identifiers.
    pub open spec fn ids_map(&self) -> ById {
        by_key(self.id_list())
    }

    /// The number of the last scan that began.
    pub open(crate) spec fn scan(&self) -> usize {
        self.scan_id
    }

    /// The number of the last scan that ended.
    pub open(crate) spec fn completed_scan(&self) -> usize {
        self.completed_scan_id
    }

    /// The absolute path of the worktree.
    pub open(crate) spec fn root_path(&self) -> Arc<Path> {
        self.abs_path
    }

    /// The name of the root.
    pub open(crate) spec fn name(&self) -> Seq<char> {
        self.root_name@
    }

    /// The characters of the name of the root.
    pub open(crate) spec fn root_chars(&self) -> Seq<char> {
        self.root_char_bag@
    }

    /// The identifier of the worktree.
    pub open(crate) spec fn tree_id(&self) -> usize {
        self.id@
    }

    /// Whether the entries stand in order.
    pub open spec fn wf(&self) -> bool {
        sorted(self.list()) && sorted(self.id_list())
    }

    /// Whether every entry is found by its identifier, and nothing else is.
    pub open spec fn is_consistent(&self) -> bool {
        consistent(self.paths_map(), self.ids_map())
    }

    /// Whether two snapshots belong to one worktree: whether all but their entries and scans is
    /// the same.
    pub open spec fn same_tree(&self, other: Snapshot) -> bool {
        &&& self.tree_id() == other.tree_id()
        &&& self.root_path() == other.root_path()
        &&& self.name() == other.name()
        &&& self.root_chars() == other.root_chars()
    }

    /// Whether two snapshots hold the same.
    pub open spec fn same_as(&self, other: Snapshot) -> bool {
        &&& self.same_tree(other)
        &&& self.list() == other.list()
        &&& self.id_list() == other.id_list()
        &&& self.scan() == other.scan()
        &&& self.completed_scan() == other.completed_scan()
    }

    /// A snapshot without entries, before the first scan.
    pub fn new(id: WorktreeId, abs_path: Arc<Path>, root_name: String, root_char_bag: CharBag) -> (r:
        Self)
        ensures
            r.wf(),
            r.list() == Seq::<Entry>::empty(),
            r.id_list() == Seq::<PathEntry>::empty(),
            r.paths_map() == ByPath::empty(),
            r.ids_map() == ById::empty(),
            r.is_consistent(),
            r.scan() == 0,
            r.completed_scan() == 0,
            r.tree_id() == id@,
            r.root_path() == abs_path,
            r.name() == root_name@,
            r.root_chars() == root_char_bag@,
    {
        Snapshot {
            id,
            abs_path,
            root_name,
            root_char_bag,
            entries_by_path: SumTree::new(),
            entries_by_id: SumTree::new(),
            scan_id: 0,
            completed_scan_id: 0,
        }
    }

    /// The identifier of the worktree.
    pub fn id(&self) -> (r: WorktreeId)
        ensures
            r@ == self.tree_id(),
    {
        self.id
    }

    /// The absolute path of the worktree.
    pub fn abs_path(&self) -> (r: &Arc<Path>)
        ensures
            *r == self.root_path(),
    {
        &self.abs_path
    }

    /// The name of the root.
    pub fn root_name(&self) -> (r: &str)
        ensures
            r@ == self.name(),
    {
        self.root_name.as_str()
    }

    /// The number of the last scan that began.
    pub fn scan_id(&self) -> (r: usize)
        ensures
            r == self.scan(),
    {
        self.scan_id
    }

    /// The number of the last scan that ended.
    pub fn completed_scan_id(&self) -> (r: usize)
        ensures
            r == self.completed_scan(),
    {
        self.completed_scan_id
    }

    /// Notes that a scan begins.
    pub fn scan_started(&mut self)
        requires
            old(self).scan() < usize::MAX,
        ensures
            final(self).scan() == old(self).scan() + 1,
            final(self).completed_scan() == old(self).completed_scan(),
            final(self).same_tree(*old(self)),
            final(self).list() == old(self).list(),
            final(self).id_list() == old(self).id_list(),
    {
        self.scan_id = self.scan_id + 1;
    }

    /// Notes that the scan that began last has ended.
    pub fn scan_completed(&mut self)
        ensures
            final(self).scan() == old(self).scan(),
            final(self).completed_scan() == old(self).scan(),
            final(self).same_tree(*old(self)),
            final(self).list() == old(self).list(),
            final(self).id_list() == old(self).id_list(),
    {
        self.completed_scan_id = self.scan_id;
    }

    /// Whether an entry has the given identifier.
    pub fn contains_entry(&self, entry_id: ProjectEntryId) -> (r: bool)
        requires
            self.wf(),
        ensures
            r == self.ids_map().contains_key(entry_id@),
    {
        self.entries_by_id.get(&entry_id).is_some()
    }

    /// The entry at a path.
    pub fn entry_for_path(&self, path: &Path) -> (r: Option<&Entry>)
        requires
            self.wf(),
        ensures
            r is Some <==> self.paths_map().contains_key(path.comps()),
            r matches Some(e) ==> *e == self.paths_map()[path.comps()],
            r matches Some(e) ==> e.comps() == path.comps(),
    {
        let r = self.entries_by_path.get(path);
        proof {
            if r.is_some() {
                let i = lemma_key_index(self.list(), path.comps());
            }
        }
        r
    }

    /// The entry with an identifier.
    pub fn entry_for_id(&self, id: ProjectEntryId) -> (r: Option<&Entry>)
        requires
            self.wf(),
        ensures
            match r {
                Some(e) => entry_of_id(self.paths_map(), self.ids_map(), id@) == Some(*e),
                None => entry_of_id(self.paths_map(), self.ids_map(), id@) is None,
            },
    {
        match self.entries_by_id.get(&id) {
            Some(kept) => self.entry_for_path(&kept.path),
            None => None,
        }
    }

    /// Whether every entry is found by its identifier.
    pub fn is_listed(&self) -> (r: bool)
        requires
            self.wf(),
        ensures
            r == listed(self.paths_map(), self.ids_map()),
    {
        let ghost s = self.list();
        let ghost ids = self.ids_map();
        let mut i: usize = 0;
        while i < self.entries_by_path.len()
            invariant
                i <= s.len(),
                s == self.list(),
                ids == self.ids_map(),
                self.wf(),
                forall|k: int|
                    #![trigger s[k]]
                    0 <= k < i ==> ids.contains_key(s[k].id@) && speaks_of(ids[s[k].id@], s[k]),
            decreases s.len() - i,
        {
            let entry = self.entries_by_path.item(i);
            proof {
                lemma_item_with(s, i as int);
            }
            match self.entries_by_id.get(&entry.id) {
                Some(kept) => {
                    proof {
                        let j = lemma_key_index(self.id_list(), entry.id@);
                    }
                    if !kept.path.same(&entry.path) || kept.is_ignored != entry.is_ignored {
                        return false;
                    }
                },
                None => {
                    return false;
                },
            }
            i = i + 1;
        }
        proof {
            assert forall|p: Seq<Seq<char>>| #[trigger]
                self.paths_map().contains_key(p) implies ids.contains_key(
                self.paths_map()[p].id@,
            ) && speaks_of(ids[self.paths_map()[p].id@], self.paths_map()[p]) by {
                let k = lemma_key_index(s, p);
                assert(s[k] == self.paths_map()[p]);
            }
        }
        true
    }

    /// The inode of the entry at a path.
    pub fn inode_for_path(&self, path: &Path) -> (r: Option<u64>)
        requires
            self.wf(),
        ensures
            r == if self.paths_map().contains_key(path.comps()) {
                Some(self.paths_map()[path.comps()].inode)
            } else {
                None
            },
    {
        match self.entry_for_path(path) {
            Some(e) => Some(e.inode),
            None => None,
        }
    }

    /// The entry of the root.
    pub fn root_entry(&self) -> (r: Option<&Entry>)
        requires
            self.wf(),
        ensures
            r is Some <==> self.paths_map().contains_key(Seq::empty()),
            r matches Some(e) ==> *e == self.paths_map()[Seq::empty()],
    {
        proof {
            reveal_strlit("");
            lemma_components_empty();
        }
        let path = Path::new("");
        assert(path@ =~= Seq::<char>::empty());
        self.entry_for_path(&path)
    }

    /// How much all entries count.
    pub fn summary(&self) -> (r: EntrySummary)
        ensures
            r.counts() == total_counts(self.list()),
    {
        let mut summary = EntrySummary::default();
        let ghost s = self.list();
        let n: usize = self.entries_by_path.len();
        let mut i: usize = 0;
        assert(s.take(0) =~= Seq::empty());
        while i < n
            invariant
                i <= n,
                n == s.len(),
                s == self.entries_by_path@,
                summary.counts() == total_counts(s.take(i as int)),
            decreases n - i,
        {
            let next = self.entries_by_path.item(i).summary();
            proof {
                lemma_counts_step(s, i as int, true, true);
                lemma_counts_bounded(s.take(i + 1));
            }
            summary.add_summary(&next);
            i = i + 1;
        }
        assert(s.take(n as int) =~= s);
        summary
    }

    /// The number of files.
    pub fn file_count(&self) -> (r: usize)
        ensures
            r == selected(self.list(), false, true).len(),
    {
        proof {
            lemma_counts_selected(self.list(), false, true);
        }
        self.summary().file_count()
    }

    /// The number of files that are not ignored.
    pub fn visible_file_count(&self) -> (r: usize)
        ensures
            r == selected(self.list(), false, false).len(),
    {
        proof {
            lemma_counts_selected(self.list(), false, false);
        }
        self.summary().visible_file_count()
    }

    /// A walk that begins where it has stopped `start_offset` times.
    pub fn traverse_from_offset(
        &self,
        include_dirs: bool,
        include_ignored: bool,
        start_offset: usize,
    ) -> (r: Traversal<'_>)
        requires
            self.wf(),
        ensures
            r.wf(),
            r.items() == self.list(),
            r.takes_dirs() == include_dirs,
            r.takes_ignored() == include_ignored,
            r.settled(),
            0 <= r.index() <= self.list().len(),
            r.index() < self.list().len() <==> start_offset < r.stops().len(),
            r.index() < self.list().len() ==> r.passed() == start_offset,
    {
        let mut traversal = Traversal::new(&self.entries_by_path, include_dirs, include_ignored);
        proof {
            assert(self.list().take(0) =~= Seq::empty());
        }
        let _ = traversal.advance_to_offset(start_offset);
        traversal
    }

    /// A walk that begins at the first entry that does not come before a path.
    pub fn traverse_from_path(&self, include_dirs: bool, include_ignored: bool, path: &Arc<Path>) -> (r:
        Traversal<'_>)
        requires
            self.wf(),
        ensures
            r.wf(),
            r.items() == self.list(),
            r.takes_dirs() == include_dirs,
            r.takes_ignored() == include_ignored,
            0 <= r.index() <= self.list().len(),
            forall|j: int| #![trigger self.list()[j]] 0 <= j < r.index() ==> names_lt(
                self.list()[j].comps(),
                path.comps(),
            ),
            forall|j: int|
                #![trigger self.list()[j]]
                r.index() <= j < self.list().len() ==> self.list()[j].comps() == path.comps()
                    || names_lt(path.comps(), self.list()[j].comps()),
    {
        let mut traversal = Traversal::new(&self.entries_by_path, include_dirs, include_ignored);
        let target = TraversalTarget::Path(path.clone());
        proof {
            lemma_seek_path(self.list(), *path, Bias::Left);
        }
        let _ = traversal.seek_forward(&target, Bias::Left);
        traversal
    }

    /// A walk over the files, from the one with the given number on.
    pub fn files(&self, include_ignored: bool, start: usize) -> (r: Traversal<'_>)
        requires
            self.wf(),
        ensures
            r.wf(),
            r.items() == self.list(),
            !r.takes_dirs(),
            r.takes_ignored() == include_ignored,
            r.settled(),
            0 <= r.index() <= self.list().len(),
            r.index() < self.list().len() <==> start < r.stops().len(),
            r.index() < self.list().len() ==> r.passed() == start,
    {
        self.traverse_from_offset(false, include_ignored, start)
    }

    /// A walk over the entries.
    pub fn entries(&self, include_ignored: bool) -> (r: Traversal<'_>)
        requires
            self.wf(),
        ensures
            r.wf(),
            r.items() == self.list(),
            r.takes_dirs(),
            r.takes_ignored() == include_ignored,
            r.settled(),
            0 <= r.index() <= self.list().len(),
            r.passed() == 0,
    {
        let r = self.traverse_from_offset(true, include_ignored, 0);
        proof {
            lemma_counts_selected(r.items(), r.takes_dirs(), r.takes_ignored());
            assert(r.items().take(r.items().len() as int) =~= r.items());
        }
        r
    }

    /// The paths of all entries but the root, in order.
    pub fn paths(&self) -> (r: Vec<Arc<Path>>)
        requires
            self.wf(),
        ensures
            r@ == paths_of(self.list()),
    {
        let mut r: Vec<Arc<Path>> = Vec::new();
        let ghost s = self.list();
        let n: usize = self.entries_by_path.len();
        let mut i: usize = 0;
        assert(s.take(0) =~= Seq::empty());
        while i < n
            invariant
                i <= n,
                n == s.len(),
                s == self.entries_by_path@,
                r@ == paths_of(s.take(i as int)),
            decreases n - i,
        {
            let e = self.entries_by_path.item(i);
            assert(s.take(i + 1).drop_last() =~= s.take(i as int));
            if e.path.depth() != 0 {
                r.push(e.path.clone());
            }
            i = i + 1;
        }
        assert(s.take(n as int) =~= s);
        r
    }

    /// The entries that lie directly in a path, one after the other.
    pub fn child_entries(&self, parent_path: &Arc<Path>) -> (r: ChildEntriesIter<'_>)
        requires
            self.wf(),
        ensures
            r.wf(),
            r.items() == self.list(),
            r.parent() == parent_path.comps(),
            0 <= r.index() <= self.list().len(),
            forall|j: int| #![trigger self.list()[j]] 0 <= j < r.index() ==> names_lt(
                self.list()[j].comps(),
                parent_path.comps(),
            ) || self.list()[j].comps() == parent_path.comps(),
            forall|j: int| #![trigger self.list()[j]] r.index() <= j < self.list().len() ==> names_lt(
                parent_path.comps(),
                self.list()[j].comps(),
            ),
    {
        ChildEntriesIter::new(&self.entries_by_path, parent_path.clone())
    }
}

/// The paths of all entries of a list but the root, in order.
pub open spec fn paths_of(s: Seq<Entry>) -> Seq<Arc<Path>>
    decreases s.len(),
{
    if s.len() == 0 {
        Seq::empty()
    } else if s.last().comps().len() == 0 {
        paths_of(s.drop_last())
    } else {
        paths_of(s.drop_last()).push(s.last().path)
    }
}

/// The identifiers of the entries that lie in a path.
pub open spec fn ids_in(by_path: ByPath, base: Seq<Seq<char>>) -> Set<usize> {
    Set::new(
        |id: usize|
            exists|p: Seq<Seq<char>>| #[trigger]
                by_path.contains_key(p) && nested_in(p, base) && by_path[p].id@ == id,
    )
}

/// The paths that lie in a path.
pub open spec fn paths_in(base: Seq<Seq<char>>) -> Set<Seq<Seq<char>>> {
    Set::new(|p: Seq<Seq<char>>| nested_in(p, base))
}

/// Taking out everything that lies in a path.
pub proof fn lemma_take_out_subtree(s: Seq<Entry>, base: Seq<Seq<char>>, from: int)
    requires
        sorted(s),
        0 <= from <= s.len(),
        forall|j: int| #![trigger s[j]] 0 <= j < from ==> names_lt(s[j].comps(), base),
        forall|j: int| #![trigger s[j]] from <= j < s.len() ==> s[j].comps() == base || names_lt(
            base,
            s[j].comps(),
        ),
    ensures
        ({
            let to = after_subtree(s, base, from);
            let rest = s.subrange(0, from) + s.subrange(to, s.len() as int);
            &&& from <= to <= s.len()
            &&& sorted(rest)
            &&& by_key(rest) == by_key(s).remove_keys(paths_in(base))
            &&& sorted(s.subrange(from, to))
            &&& by_key(s.subrange(from, to)) == by_key(s).restrict(paths_in(base))
        }),
{
    let to = after_subtree(s, base, from);
    let rest = s.subrange(0, from) + s.subrange(to, s.len() as int);
    let gone = s.subrange(from, to);
    lemma_subtree_block(s, base, from);
    lemma_remove_range(s, from, to);
    assert forall|k: Seq<Seq<char>>| #[trigger]
        by_key(s).contains_key(k) implies (in_range(s, k, from, to) <==> nested_in(k, base)) by {
        let i = lemma_key_index(s, k);
        lemma_item_with(s, i);
        if in_range(s, k, from, to) {
            let j = choose|j: int| #![trigger s[j]] from <= j < to && s[j].comps() == k;
            assert(nested_in(s[j].comps(), base));
        }
    }
    assert forall|k: Seq<Seq<char>>| in_range(s, k, from, to) implies #[trigger] by_key(
        s,
    ).contains_key(k) by {
        let j = choose|j: int| #![trigger s[j]] from <= j < to && s[j].comps() == k;
        lemma_item_with(s, j);
    }
    assert(by_key(rest) =~= by_key(s).remove_keys(paths_in(base))) by {
        assert forall|k: Seq<Seq<char>>| #[trigger] by_key(rest).contains_key(k) <==> by_key(
            s,
        ).remove_keys(paths_in(base)).contains_key(k) by {
            assert(by_key(s).contains_key(k) ==> (in_range(s, k, from, to) <==> nested_in(k, base)));
        }
    }
    assert(by_key(gone) =~= by_key(s).restrict(paths_in(base))) by {
        assert forall|k: Seq<Seq<char>>| #[trigger] by_key(gone).contains_key(k) <==> by_key(
            s,
        ).restrict(paths_in(base)).contains_key(k) by {
            assert(by_key(s).contains_key(k) ==> (in_range(s, k, from, to) <==> nested_in(k, base)));
        }
    }
}

impl Snapshot {
    /// Puts in the entry that a message describes. Where an entry with its identifier is there
    /// already, it leaves its path.
    pub fn insert_entry(&mut self, entry: proto::Entry) -> (r: Result<Entry, WorktreeError>)
        requires
            old(self).wf(),
        ensures
            final(self).wf(),
            r is Ok <==> entry.mtime is Some,
            r matches Ok(e) ==> {
                &&& is_entry_of_message(old(self).root_chars(), entry, e)
                &&& final(self).ids_map() == old(self).ids_map().insert(e.id@, kept_of(e, 0))
                &&& final(self).paths_map() == if old(self).ids_map().contains_key(e.id@) {
                    old(self).paths_map().remove(
                        old(self).ids_map()[e.id@].path.comps(),
                    ).insert(e.comps(), e)
                } else {
                    old(self).paths_map().insert(e.comps(), e)
                }
                &&& final(self).scan() == old(self).scan()
                &&& final(self).completed_scan() == old(self).completed_scan()
                &&& final(self).same_tree(*old(self))
            },
            r matches Err(error) ==> error == WorktreeError::MissingMtime && final(self).same_as(
                *old(self),
            ),
    {
        match Entry::try_from(&self.root_char_bag, entry) {
            Ok(entry) => {
                let kept = PathEntry {
                    id: entry.id,
                    path: entry.path.clone(),
                    is_ignored: entry.is_ignored,
                    scan_id: 0,
                };
                match self.entries_by_id.insert_or_replace(kept) {
                    Some(old_entry) => {
                        let _ = self.entries_by_path.remove(&old_entry.path);
                    },
                    None => {},
                }
                let _ = self.entries_by_path.insert_or_replace(entry.clone());
                Ok(entry)
            },
            Err(error) => Err(error),
        }
    }

    /// Takes out the entry with an identifier and everything that lies in it. Tells whether
    /// there was such an entry.
    pub fn delete_entry(&mut self, entry_id: ProjectEntryId) -> (r: bool)
        requires
            old(self).wf(),
        ensures
            final(self).wf(),
            r == old(self).ids_map().contains_key(entry_id@),
            r ==> {
                let base = old(self).ids_map()[entry_id@].path.comps();
                &&& final(self).paths_map() == old(self).paths_map().remove_keys(paths_in(base))
                &&& final(self).ids_map() == old(self).ids_map().remove(entry_id@).remove_keys(
                    ids_in(old(self).paths_map(), base),
                )
            },
            !r ==> final(self).paths_map() == old(self).paths_map() && final(self).ids_map()
                == old(self).ids_map(),
            final(self).scan() == old(self).scan(),
            final(self).completed_scan() == old(self).completed_scan(),
            final(self).same_tree(*old(self)),
    {
        let ghost ids = self.ids_map();
        let ghost paths = self.paths_map();
        let ghost s = self.list();
        match self.entries_by_id.remove(&entry_id) {
            None => {
                assert(ids.remove(entry_id@) =~= ids);
                false
            },
            Some(removed) => {
                let ghost base = removed.path.comps();
                let (from, to) = self.subtree_range(&removed.path);
                let gone = self.entries_by_path.remove_range(from, to);
                proof {
                    lemma_take_out_subtree(s, base, from as int);
                    lemma_ids_between_block(s, base, from as int, to as int);
                    assert(gone@ =~= s.subrange(from as int, to as int));
                    assert(self.ids_map() =~= ids.remove(entry_id@).remove_keys(
                        ids_between(s, from as int, from as int),
                    ));
                }
                let mut i: usize = 0;
                while i < gone.len()
                    invariant
                        i <= gone.len(),
                        from + gone.len() == to,
                        to <= s.len(),
                        gone@ == s.subrange(from as int, to as int),
                        self.entries_by_path.wf(),
                        self.entries_by_id.wf(),
                        self.same_tree(*old(self)),
                        self.scan() == old(self).scan(),
                        self.completed_scan() == old(self).completed_scan(),
                        self.paths_map() == paths.remove_keys(paths_in(base)),
                        self.ids_map() == ids.remove(entry_id@).remove_keys(
                            ids_between(s, from as int, from + i),
                        ),
                    decreases gone.len() - i,
                {
                    let _ = self.entries_by_id.remove(&gone[i].id);
                    proof {
                        assert(gone@[i as int] == s[from + i]);
                        lemma_ids_between_push(s, from as int, from + i);
                        assert(self.ids_map() =~= ids.remove(entry_id@).remove_keys(
                            ids_between(s, from as int, from + i + 1),
                        ));
                    }
                    i = i + 1;
                }
                true
            },
        }
    }
}

impl Snapshot {
    /// The places between which the entries that lie in a path stand.
    pub(crate) fn subtree_range(&self, path: &Path) -> (r: (usize, usize))
        requires
            self.wf(),
        ensures
            r.0 <= r.1 <= self.list().len(),
            r.1 == after_subtree(self.list(), path.comps(), r.0 as int),
            forall|j: int| #![trigger self.list()[j]] 0 <= j < r.0 ==> names_lt(
                self.list()[j].comps(),
                path.comps(),
            ),
            forall|j: int|
                #![trigger self.list()[j]]
                r.0 <= j < self.list().len() ==> self.list()[j].comps() == path.comps()
                    || names_lt(path.comps(), self.list()[j].comps()),
            forall|j: int|
                #![trigger self.list()[j]]
                0 <= j < self.list().len() ==> (nested_in(self.list()[j].comps(), path.comps())
                    <==> r.0 <= j < r.1),
    {
        let ghost s = self.list();
        let ghost base = path.comps();
        let (from, _) = self.entries_by_path.search(path);
        proof {
            lemma_subtree_block(s, base, from as int);
        }
        let mut to: usize = from;
        while to < self.entries_by_path.len() && self.entries_by_path.item(to).path.starts_with(path)
            invariant
                from <= to <= after_subtree(s, base, from as int) <= s.len(),
                s == self.list(),
                base == path.comps(),
                forall|j: int|
                    #![trigger s[j]]
                    0 <= j < s.len() ==> (nested_in(s[j].comps(), base) <==> from <= j
                        < after_subtree(s, base, from as int)),
            decreases s.len() - to,
        {
            to = to + 1;
        }
        (from, to)
    }
}

/// The identifiers of the entries between two places.
pub open spec fn ids_between(s: Seq<Entry>, from: int, to: int) -> Set<usize> {
    Set::new(|id: usize| exists|j: int| #![trigger s[j]] from <= j < to && s[j].id@ == id)
}

/// The identifiers of the entries that lie in a path are those of the entries that stand between
/// its places.
pub proof fn lemma_ids_between_block(s: Seq<Entry>, base: Seq<Seq<char>>, from: int, to: int)
    requires
        sorted(s),
        0 <= from <= to <= s.len(),
        forall|j: int|
            #![trigger s[j]]
            0 <= j < s.len() ==> (nested_in(s[j].comps(), base) <==> from <= j < to),
    ensures
        ids_between(s, from, to) == ids_in(by_key(s), base),
{
    let paths = by_key(s);
    assert forall|id: usize| ids_between(s, from, to).contains(id) <==> ids_in(
        paths,
        base,
    ).contains(id) by {
        if ids_between(s, from, to).contains(id) {
            let j = choose|j: int| #![trigger s[j]] from <= j < to && s[j].id@ == id;
            lemma_item_with(s, j);
            assert(paths.contains_key(s[j].comps()));
        }
        if ids_in(paths, base).contains(id) {
            let p = choose|p: Seq<Seq<char>>| #[trigger]
                paths.contains_key(p) && nested_in(p, base) && paths[p].id@ == id;
            let j = lemma_key_index(s, p);
            lemma_item_with(s, j);
            assert(s[j].id@ == id);
        }
    }
    assert(ids_between(s, from, to) =~= ids_in(paths, base));
}

pub proof fn lemma_ids_between_push(s: Seq<Entry>, from: int, to: int)
    requires
        from <= to,
    ensures
        ids_between(s, from, to + 1) == ids_between(s, from, to).insert(s[to].id@),
{
    assert forall|id: usize| ids_between(s, from, to + 1).contains(id) <==> ids_between(
        s,
        from,
        to,
    ).insert(s[to].id@).contains(id) by {
        if ids_between(s, from, to + 1).contains(id) {
            let j = choose|j: int| #![trigger s[j]] from <= j < to + 1 && s[j].id@ == id;
            if j < to {
                assert(ids_between(s, from, to).contains(id));
            }
        }
        if ids_between(s, from, to).contains(id) {
            let j = choose|j: int| #![trigger s[j]] from <= j < to && s[j].id@ == id;
            assert(from <= j < to + 1 && s[j].id@ == id);
        }
        assert(from <= to < to + 1 && s[to].id@ == s[to].id@);
    }
    assert(ids_between(s, from, to + 1) =~= ids_between(s, from, to).insert(s[to].id@));
}

proof fn lemma_paths_taken_out_removed(by_path: ByPath, by_id: ById, removed: Seq<u64>, i: int, p: Seq<Seq<char>>)
    requires
        0 <= i < removed.len(),
    ensures
        paths_taken_out(by_path, by_id, removed.take(i + 1), Seq::empty()).contains(p)
            <==> paths_taken_out(by_path, by_id, removed.take(i), Seq::empty()).contains(p) || (
        entry_of_id(by_path, by_id, removed[i] as usize) matches Some(e) && e.comps() == p),
{
    let a = removed.take(i);
    let b = removed.take(i + 1);
    let updated = Seq::<proto::Entry>::empty();
    if paths_taken_out(by_path, by_id, b, updated).contains(p) {
        let j = choose|j: int|
            #![trigger b[j]]
            0 <= j < b.len() && (entry_of_id(by_path, by_id, b[j] as usize) matches Some(e)
                && e.comps() == p);
        if j < i {
            assert(a[j] == b[j]);
        }
    }
    if paths_taken_out(by_path, by_id, a, updated).contains(p) {
        let j = choose|j: int|
            #![trigger a[j]]
            0 <= j < a.len() && (entry_of_id(by_path, by_id, a[j] as usize) matches Some(e)
                && e.comps() == p);
        assert(b[j] == a[j]);
    }
    assert(b[i] == removed[i]);
}

proof fn lemma_ids_taken_out(by_path: ByPath, by_id: ById, removed: Seq<u64>, i: int, id: usize)
    requires
        0 <= i < removed.len(),
    ensures
        ids_taken_out(by_path, by_id, removed.take(i + 1)).contains(id) <==> ids_taken_out(
            by_path,
            by_id,
            removed.take(i),
        ).contains(id) || (entry_of_id(by_path, by_id, removed[i] as usize) matches Some(e) && e.id@
            == id),
{
    let a = removed.take(i);
    let b = removed.take(i + 1);
    if ids_taken_out(by_path, by_id, b).contains(id) {
        let j = choose|j: int|
            #![trigger b[j]]
            0 <= j < b.len() && (entry_of_id(by_path, by_id, b[j] as usize) matches Some(e)
                && e.id@ == id);
        if j < i {
            assert(a[j] == b[j]);
        }
    }
    if ids_taken_out(by_path, by_id, a).contains(id) {
        let j = choose|j: int|
            #![trigger a[j]]
            0 <= j < a.len() && (entry_of_id(by_path, by_id, a[j] as usize) matches Some(e)
                && e.id@ == id);
        assert(b[j] == a[j]);
    }
    assert(b[i] == removed[i]);
}

proof fn lemma_paths_taken_out_updated(
    by_path: ByPath,
    by_id: ById,
    removed: Seq<u64>,
    updated: Seq<proto::Entry>,
    i: int,
    p: Seq<Seq<char>>,
)
    requires
        0 <= i < updated.len(),
    ensures
        paths_taken_out(by_path, by_id, removed, updated.take(i + 1)).contains(p)
            <==> paths_taken_out(by_path, by_id, removed, updated.take(i)).contains(p) || (
        by_id.contains_key(updated[i].id as usize) && by_id[updated[i].id as usize].path.comps()
            == p),
{
    let a = updated.take(i);
    let b = updated.take(i + 1);
    if exists|j: int|
        #![trigger b[j]]
        0 <= j < b.len() && by_id.contains_key(b[j].id as usize)
            && by_id[b[j].id as usize].path.comps() == p {
        let j = choose|j: int|
            #![trigger b[j]]
            0 <= j < b.len() && by_id.contains_key(b[j].id as usize)
                && by_id[b[j].id as usize].path.comps() == p;
        if j < i {
            assert(a[j] == b[j]);
        }
    }
    if exists|j: int|
        #![trigger a[j]]
        0 <= j < a.len() && by_id.contains_key(a[j].id as usize)
            && by_id[a[j].id as usize].path.comps() == p {
        let j = choose|j: int|
            #![trigger a[j]]
            0 <= j < a.len() && by_id.contains_key(a[j].id as usize)
                && by_id[a[j].id as usize].path.comps() == p;
        assert(b[j] == a[j]);
    }
    assert(b[i] == updated[i]);
}

/// What an update makes of the entries: what it takes out goes, and the entries that it
/// describes come.
pub open spec fn updated_paths(
    by_path: ByPath,
    by_id: ById,
    update: proto::UpdateWorktree,
    es: Seq<Entry>,
) -> ByPath {
    by_path.remove_keys(
        paths_taken_out(by_path, by_id, update.removed_entries@, update.updated_entries@),
    ).union_prefer_right(entries_by_path(es))
}

/// What an update makes of what is kept by identifier.
pub open spec fn updated_ids(
    by_path: ByPath,
    by_id: ById,
    update: proto::UpdateWorktree,
    es: Seq<Entry>,
) -> ById {
    by_id.remove_keys(ids_taken_out(by_path, by_id, update.removed_entries@)).union_prefer_right(
        entries_by_id(es, 0),
    )
}

/// Whether a snapshot is what an update makes of another, where the update describes the given
/// entries.
pub open spec fn is_updated(
    before: Snapshot,
    update: proto::UpdateWorktree,
    es: Seq<Entry>,
    after: Snapshot,
) -> bool {
    &&& are_entries_of_messages(before.root_chars(), update.updated_entries@, es)
    &&& after.paths_map() == updated_paths(before.paths_map(), before.ids_map(), update, es)
    &&& after.ids_map() == updated_ids(before.paths_map(), before.ids_map(), update, es)
    &&& after.scan() == update.scan_id as usize
    &&& after.completed_scan() == if update.is_last_update {
        update.scan_id as usize
    } else {
        before.completed_scan()
    }
    &&& after.same_tree(before)
}

impl Snapshot {
    /// Brings the snapshot up to date with what an update says. An update that removes an entry
    /// that is not there, or that describes one without a modification time, is refused as a
    /// whole.
    pub fn apply_remote_update(&mut self, update: proto::UpdateWorktree) -> (r: Result<
        (),
        WorktreeError,
    >)
        requires
            old(self).wf(),
        ensures
            final(self).wf(),
            match r {
                Ok(_) => {
                    &&& first_unknown(
                        old(self).paths_map(),
                        old(self).ids_map(),
                        update.removed_entries@,
                    ) is None
                    &&& all_timed(update.updated_entries@)
                    &&& exists|es: Seq<Entry>| #[trigger]
                        is_updated(*old(self), update, es, *final(self))
                },
                Err(WorktreeError::UnknownEntry(id)) => {
                    &&& first_unknown(
                        old(self).paths_map(),
                        old(self).ids_map(),
                        update.removed_entries@,
                    ) == Some(id)
                    &&& final(self).same_as(*old(self))
                },
                Err(WorktreeError::MissingMtime) => {
                    &&& first_unknown(
                        old(self).paths_map(),
                        old(self).ids_map(),
                        update.removed_entries@,
                    ) is None
                    &&& !all_timed(update.updated_entries@)
                    &&& final(self).same_as(*old(self))
                },
                Err(_) => false,
            },
    {
        let ghost paths = self.paths_map();
        let ghost ids = self.ids_map();
        let ghost removed = update.removed_entries@;
        let ghost updated = update.updated_entries@;
        let ghost root = self.root_chars();
        let ghost whole = update;
        let mut path_edits: Vec<Edit<Entry>> = Vec::new();
        let mut id_edits: Vec<Edit<PathEntry>> = Vec::new();
        proof {
            lemma_no_edits::<Entry>();
            lemma_no_edits::<PathEntry>();
        }
        assert(removed.take(0) =~= Seq::empty());
        let mut i: usize = 0;
        while i < update.removed_entries.len()
            invariant
                i <= update.removed_entries.len(),
                self.wf(),
                self.same_as(*old(self)),
                paths == self.paths_map(),
                ids == self.ids_map(),
                removed == update.removed_entries@,
                update == whole,
                first_unknown(paths, ids, removed.take(i as int)) is None,
                forall|p: Seq<Seq<char>>|
                    #![trigger removes(path_edits@, p)]
                    removes(path_edits@, p) <==> paths_taken_out(
                        paths,
                        ids,
                        removed.take(i as int),
                        Seq::empty(),
                    ).contains(p),
                forall|id: usize|
                    #![trigger removes(id_edits@, id)]
                    removes(id_edits@, id) <==> ids_taken_out(
                        paths,
                        ids,
                        removed.take(i as int),
                    ).contains(id),
                inserts(path_edits@) == ByPath::empty(),
                inserts(id_edits@) == ById::empty(),
            decreases update.removed_entries.len() - i,
        {
            let entry_id: u64 = update.removed_entries[i];
            assert(removed.take(i + 1).drop_last() =~= removed.take(i as int));
            match self.entry_for_id(ProjectEntryId::from_proto(entry_id)) {
                None => {
                    proof {
                        lemma_first_unknown(paths, ids, removed, i + 1);
                    }
                    return Err(WorktreeError::UnknownEntry(entry_id));
                },
                Some(entry) => {
                    let path_edit = Edit::Remove(PathKey::new(entry.path.clone()));
                    let id_edit = Edit::Remove(entry.id);
                    proof {
                        lemma_edits_push(path_edits@, path_edit);
                        lemma_edits_push(id_edits@, id_edit);
                        assert forall|p: Seq<Seq<char>>|
                            #![trigger removes(path_edits@.push(path_edit), p)]
                            removes(path_edits@.push(path_edit), p) <==> paths_taken_out(
                                paths,
                                ids,
                                removed.take(i + 1),
                                Seq::empty(),
                            ).contains(p) by {
                            lemma_paths_taken_out_removed(paths, ids, removed, i as int, p);
                            assert(removes(path_edits@, p) <==> paths_taken_out(
                                paths,
                                ids,
                                removed.take(i as int),
                                Seq::empty(),
                            ).contains(p));
                        }
                        assert forall|id: usize|
                            #![trigger removes(id_edits@.push(id_edit), id)]
                            removes(id_edits@.push(id_edit), id) <==> ids_taken_out(
                                paths,
                                ids,
                                removed.take(i + 1),
                            ).contains(id) by {
                            lemma_ids_taken_out(paths, ids, removed, i as int, id);
                            assert(removes(id_edits@, id) <==> ids_taken_out(
                                paths,
                                ids,
                                removed.take(i as int),
                            ).contains(id));
                        }
                    }
                    path_edits.push(path_edit);
                    id_edits.push(id_edit);
                },
            }
            i = i + 1;
        }
        assert(removed.take(removed.len() as int) =~= removed);
        assert(updated.take(0) =~= Seq::empty());
        let scan_id: u64 = update.scan_id;
        let is_last_update: bool = update.is_last_update;
        let ghost mut es: Seq<Entry> = Seq::empty();
        for message in it: update.updated_entries
            invariant
                it.seq() == updated,
                whole == update,
                self.wf(),
                self.same_as(*old(self)),
                paths == self.paths_map(),
                ids == self.ids_map(),
                root == self.root_chars(),
                removed == whole.removed_entries@,
                updated == whole.updated_entries@,
                first_unknown(paths, ids, removed) is None,
                es.len() == it.index(),
                are_entries_of_messages(root, updated.take(it.index()), es),
                all_timed(updated.take(it.index())),
                forall|p: Seq<Seq<char>>|
                    #![trigger removes(path_edits@, p)]
                    removes(path_edits@, p) <==> paths_taken_out(
                        paths,
                        ids,
                        removed,
                        updated.take(it.index()),
                    ).contains(p),
                forall|id: usize|
                    #![trigger removes(id_edits@, id)]
                    removes(id_edits@, id) <==> ids_taken_out(paths, ids, removed).contains(id),
                inserts(path_edits@) == entries_by_path(es),
                inserts(id_edits@) == entries_by_id(es, 0),
        {
            let ghost j = it.index();
            let ghost m = message;
            assert(updated[j] == m);
            match Entry::try_from(&self.root_char_bag, message) {
                Err(error) => {
                    assert(!all_timed(updated)) by {
                        assert(updated[j].mtime is None);
                    }
                    return Err(error);
                },
                Ok(entry) => {
                    let ghost edits_before = path_edits@;
                    match self.entries_by_id.get(&entry.id) {
                        Some(kept) => {
                            let edit = Edit::Remove(PathKey::new(kept.path.clone()));
                            proof {
                                lemma_edits_push(path_edits@, edit);
                            }
                            path_edits.push(edit);
                        },
                        None => {},
                    }
                    assert forall|p: Seq<Seq<char>>|
                        #![trigger removes(path_edits@, p)]
                        removes(path_edits@, p) <==> paths_taken_out(
                            paths,
                            ids,
                            removed,
                            updated.take(j + 1),
                        ).contains(p) by {
                        lemma_paths_taken_out_updated(paths, ids, removed, updated, j, p);
                        assert(removes(edits_before, p) <==> paths_taken_out(
                            paths,
                            ids,
                            removed,
                            updated.take(j),
                        ).contains(p));
                    }
                    let kept = PathEntry {
                        id: entry.id,
                        path: entry.path.clone(),
                        is_ignored: entry.is_ignored,
                        scan_id: 0,
                    };
                    let id_edit = Edit::Insert(kept);
                    let ghost edits_between = path_edits@;
                    proof {
                        lemma_edits_push(id_edits@, id_edit);
                        lemma_edits_push(path_edits@, Edit::Insert(entry));
                        let next = es.push(entry);
                        assert(next.drop_last() =~= es);
                        assert forall|k: int| #![trigger next[k]] 0 <= k < next.len() implies is_entry_of_message(
                            root,
                            updated.take(j + 1)[k],
                            next[k],
                        ) by {
                            if k < j {
                                assert(next[k] == es[k]);
                                assert(updated.take(j)[k] == updated.take(j + 1)[k]);
                            }
                        }
                        assert forall|k: int|
                            #![trigger updated.take(j + 1)[k]]
                            0 <= k < j + 1 implies updated.take(j + 1)[k].mtime is Some by {
                            if k < j {
                                assert(updated.take(j)[k] == updated.take(j + 1)[k]);
                            }
                        }
                        es = next;
                    }
                    id_edits.push(id_edit);
                    path_edits.push(Edit::Insert(entry));
                    assert forall|p: Seq<Seq<char>>|
                        #![trigger removes(path_edits@, p)]
                        removes(path_edits@, p) <==> paths_taken_out(
                            paths,
                            ids,
                            removed,
                            updated.take(j + 1),
                        ).contains(p) by {
                        assert(removes(edits_between, p) <==> paths_taken_out(
                            paths,
                            ids,
                            removed,
                            updated.take(j + 1),
                        ).contains(p));
                    }
                },
            }
        }
        assert(updated.take(updated.len() as int) =~= updated);
        self.entries_by_path.edit(path_edits);
        self.entries_by_id.edit(id_edits);
        self.scan_id = scan_id as usize;
        if is_last_update {
            self.completed_scan_id = scan_id as usize;
        }
        proof {
            assert(self.paths_map() =~= updated_paths(paths, ids, whole, es)) by {
                assert forall|p: Seq<Seq<char>>| #[trigger]
                    self.paths_map().contains_key(p) <==> updated_paths(
                        paths,
                        ids,
                        whole,
                        es,
                    ).contains_key(p) by {
                    assert(removes(path_edits@, p) <==> paths_taken_out(
                        paths,
                        ids,
                        removed,
                        updated,
                    ).contains(p));
                }
            }
            assert(self.ids_map() =~= updated_ids(paths, ids, whole, es)) by {
                assert forall|id: usize| #[trigger]
                    self.ids_map().contains_key(id) <==> updated_ids(
                        paths,
                        ids,
                        whole,
                        es,
                    ).contains_key(id) by {
                    assert(removes(id_edits@, id) <==> ids_taken_out(paths, ids, removed).contains(
                        id,
                    ));
                }
            }
            assert(is_updated(*old(self), whole, es, *self));
        }
        Ok(())
    }
}

/// Once an identifier is unknown, the first unknown one stays what it is.
proof fn lemma_first_unknown(by_path: ByPath, by_id: ById, removed: Seq<u64>, i: int)
    requires
        0 <= i <= removed.len(),
        first_unknown(by_path, by_id, removed.take(i)) is Some,
    ensures
        first_unknown(by_path, by_id, removed) == first_unknown(by_path, by_id, removed.take(i)),
    decreases removed.len() - i,
{
    if i == removed.len() {
        assert(removed.take(i) =~= removed);
    } else {
        assert(removed.take(i + 1).drop_last() =~= removed.take(i));
        lemma_first_unknown(by_path, by_id, removed, i + 1);
    }
}

} // verus!
