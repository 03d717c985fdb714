//! Walks over the entries of a snapshot, in the order of their paths.
use crate::entry::{entry_counts, total_counts, Counts, Entry, EntrySummary};
use crate::path::{names_lt, nested_in, KeyOrder, Path};
use crate::path_lemmas::{
    lemma_names_lt_asymmetric, lemma_names_lt_irreflexive, lemma_names_lt_total,
    lemma_names_lt_transitive, lemma_nested_is_after, lemma_nested_is_block,
};
use crate::sum_tree::{sorted, SumTree};
use std::sync::Arc;
use vstd::prelude::*;

verus! {

/// Whether a traversal that takes directories and ignored entries or not stops at an entry.
pub open spec fn included(e: Entry, include_dirs: bool, include_ignored: bool) -> bool {
    (include_dirs || e.is_file_entry()) && (include_ignored || !e.is_ignored)
}

/// The entries at which a traversal stops, in order.
pub open spec fn selected(s: Seq<Entry>, include_dirs: bool, include_ignored: bool) -> Seq<Entry> {
    s.filter(|e: Entry| included(e, include_dirs, include_ignored))
}

/// What lies before a place of a list, or up to its end: the path of the last entry, and how
/// much all of them count.
#[derive(Debug)]
pub struct TraversalProgress {
    max_path: Arc<Path>,
    count: usize,
    visible_count: usize,
    file_count: usize,
    visible_file_count: usize,
}

impl Clone for TraversalProgress {
    fn clone(&self) -> (r: Self)
        ensures
            r == *self,
    {
        TraversalProgress {
            max_path: self.max_path.clone(),
            count: self.count,
            visible_count: self.visible_count,
            file_count: self.file_count,
            visible_file_count: self.visible_file_count,
        }
    }
}

impl Default for TraversalProgress {
    fn default() -> (r: Self)
        ensures
            r.counts() == Counts::zero(),
            r.last_path() == Seq::<char>::empty(),
    {
        proof {
            reveal_strlit("");
        }
        let path = Path::new("");
        assert(path@ =~= Seq::<char>::empty());
        TraversalProgress {
            max_path: Arc::new(path),
            count: 0,
            visible_count: 0,
            file_count: 0,
            visible_file_count: 0,
        }
    }
}

impl TraversalProgress {
    /// How much the entries so far count.
    pub closed spec fn counts(&self) -> Counts {
        Counts {
            count: self.count as nat,
            visible_count: self.visible_count as nat,
            file_count: self.file_count as nat,
            visible_file_count: self.visible_file_count as nat,
        }
    }

    /// The path of the last entry so far.
    pub closed spec fn last_path(&self) -> Seq<char> {
        self.max_path@
    }

    /// The number of entries so far at which a traversal stops.
    pub fn count(&self, include_dirs: bool, include_ignored: bool) -> (r: usize)
        ensures
            r == self.counts().select(include_dirs, include_ignored),
    {
        match (include_ignored, include_dirs) {
            (true, true) => self.count,
            (true, false) => self.file_count,
            (false, true) => self.visible_count,
            (false, false) => self.visible_file_count,
        }
    }

    /// Goes on past the entries of a summary.
    pub fn add_summary(&mut self, summary: &EntrySummary)
        requires
            old(self).counts().plus(summary.counts()).fits(),
        ensures
            final(self).counts() == old(self).counts().plus(summary.counts()),
            final(self).last_path() == summary.last_path(),
    {
        proof {
            summary.lemma_counts();
        }
        self.max_path = summary.max_path.clone();
        self.count = self.count + summary.count;
        self.visible_count = self.visible_count + summary.visible_count;
        self.file_count = self.file_count + summary.file_count;
        self.visible_file_count = self.visible_file_count + summary.visible_file_count;
    }
}

/// Where a walk is to go.
#[derive(Debug)]
pub enum TraversalTarget {
    /// To a path.
    Path(Arc<Path>),
    /// Past everything that lies in a path.
    PathSuccessor(Arc<Path>),
    /// To the entry before which a traversal has stopped so many times.
    Count { count: usize, include_ignored: bool, include_dirs: bool },
}

/// Which side of an equal target a walk stops at.
#[derive(Copy, Clone, PartialEq, Eq, Debug, Structural)]
pub enum Bias {
    Left,
    Right,
}

/// How a target stands to the end of a run of entries, given by its last path and its counts.
pub open spec fn target_order(t: TraversalTarget, path: Seq<Seq<char>>, counts: Counts) -> KeyOrder {
    match t {
        TraversalTarget::Path(p) => if p.comps() == path {
            KeyOrder::Same
        } else if names_lt(p.comps(), path) {
            KeyOrder::Less
        } else {
            KeyOrder::Greater
        },
        TraversalTarget::PathSuccessor(p) => if nested_in(path, p.comps()) {
            KeyOrder::Greater
        } else {
            KeyOrder::Same
        },
        TraversalTarget::Count { count, include_ignored, include_dirs } => {
            let n = counts.select(include_dirs, include_ignored);
            if count < n {
                KeyOrder::Less
            } else if count == n {
                KeyOrder::Same
            } else {
                KeyOrder::Greater
            }
        },
    }
}

/// Whether a walk to a target goes past an entry at which the run ends so.
pub open spec fn goes_past(o: KeyOrder, bias: Bias) -> bool {
    o is Greater || (o is Same && bias is Right)
}

/// Whether a walk to a target goes past the entry at a place.
pub open spec fn passes(s: Seq<Entry>, t: TraversalTarget, bias: Bias, i: int) -> bool {
    goes_past(target_order(t, s[i].comps(), total_counts(s.take(i + 1))), bias)
}

/// Where a walk to a target that is at a place ends: at the first entry that it does not go
/// past.
pub open spec fn seek_index(s: Seq<Entry>, t: TraversalTarget, bias: Bias, from: int) -> int
    decreases s.len() - from,
{
    if 0 <= from < s.len() && passes(s, t, bias, from) {
        seek_index(s, t, bias, from + 1)
    } else {
        from
    }
}

impl TraversalTarget {
    /// How the target stands to the end of a run of entries.
    pub fn compare(&self, end: &TraversalProgress) -> (r: KeyOrder)
        ensures
            r == target_order(*self, crate::path::components(end.last_path()), end.counts()),
    {
        match self {
            TraversalTarget::Path(path) => {
                let r = path.compare(&end.max_path);
                proof {
                    match r {
                        KeyOrder::Less => {},
                        KeyOrder::Same => {},
                        KeyOrder::Greater => {
                            lemma_names_lt_asymmetric(end.max_path.comps(), path.comps());
                        },
                    }
                }
                r
            },
            TraversalTarget::PathSuccessor(path) => {
                if !end.max_path.starts_with(path) {
                    KeyOrder::Same
                } else {
                    KeyOrder::Greater
                }
            },
            TraversalTarget::Count { count, include_dirs, include_ignored } => {
                let n: usize = end.count(*include_dirs, *include_ignored);
                if *count < n {
                    KeyOrder::Less
                } else if *count == n {
                    KeyOrder::Same
                } else {
                    KeyOrder::Greater
                }
            },
        }
    }
}

/// No count is greater than the number of entries.
pub proof fn lemma_counts_bounded(s: Seq<Entry>)
    ensures
        total_counts(s).count == s.len(),
        total_counts(s).visible_count <= s.len(),
        total_counts(s).file_count <= s.len(),
        total_counts(s).visible_file_count <= s.len(),
    decreases s.len(),
{
    if s.len() > 0 {
        lemma_counts_bounded(s.drop_last());
    }
}

/// A count is the number of the entries at which the traversal stops.
pub proof fn lemma_counts_selected(s: Seq<Entry>, include_dirs: bool, include_ignored: bool)
    ensures
        total_counts(s).select(include_dirs, include_ignored) == selected(
            s,
            include_dirs,
            include_ignored,
        ).len(),
    decreases s.len(),
{
    reveal(Seq::filter);
    if s.len() > 0 {
        lemma_counts_selected(s.drop_last(), include_dirs, include_ignored);
    }
}

/// Counting one entry more.
pub proof fn lemma_counts_step(s: Seq<Entry>, i: int, include_dirs: bool, include_ignored: bool)
    requires
        0 <= i < s.len(),
    ensures
        total_counts(s.take(i + 1)) == total_counts(s.take(i)).plus(entry_counts(s[i])),
        total_counts(s.take(i + 1)).select(include_dirs, include_ignored) == total_counts(
            s.take(i),
        ).select(include_dirs, include_ignored) + if included(s[i], include_dirs, include_ignored) {
            1int
        } else {
            0int
        },
{
    assert(s.take(i + 1).drop_last() =~= s.take(i));
    assert(s.take(i + 1).last() == s[i]);
}

/// Counting goes up.
pub proof fn lemma_counts_monotone(s: Seq<Entry>, i: int, j: int, include_dirs: bool, include_ignored: bool)
    requires
        0 <= i <= j <= s.len(),
    ensures
        total_counts(s.take(i)).select(include_dirs, include_ignored) <= total_counts(
            s.take(j),
        ).select(include_dirs, include_ignored),
    decreases j - i,
{
    if i < j {
        lemma_counts_step(s, j - 1, include_dirs, include_ignored);
        lemma_counts_monotone(s, i, j - 1, include_dirs, include_ignored);
    }
}

/// What a walk to a target goes past, and where it stops.
pub proof fn lemma_seek_index(s: Seq<Entry>, t: TraversalTarget, bias: Bias, from: int)
    requires
        0 <= from <= s.len(),
    ensures
        from <= seek_index(s, t, bias, from) <= s.len(),
        forall|j: int| from <= j < seek_index(s, t, bias, from) ==> #[trigger] passes(s, t, bias, j),
        seek_index(s, t, bias, from) < s.len() ==> !passes(
            s,
            t,
            bias,
            seek_index(s, t, bias, from),
        ),
    decreases s.len() - from,
{
    if from < s.len() && passes(s, t, bias, from) {
        lemma_seek_index(s, t, bias, from + 1);
    }
}

/// The target of a walk by count.
pub open spec fn count_target(count: usize, include_dirs: bool, include_ignored: bool) -> TraversalTarget {
    TraversalTarget::Count { count, include_ignored, include_dirs }
}

/// A walk by count, from a place before which the traversal has not stopped more often, ends at
/// the entry before which it has stopped just so often, or at the end where there is none.
pub proof fn lemma_seek_count(
    s: Seq<Entry>,
    count: usize,
    include_dirs: bool,
    include_ignored: bool,
    from: int,
)
    requires
        0 <= from <= s.len(),
        total_counts(s.take(from)).select(include_dirs, include_ignored) <= count,
    ensures
        ({
            let t = count_target(count, include_dirs, include_ignored);
            let i = seek_index(s, t, Bias::Right, from);
            &&& from <= i <= s.len()
            &&& i < s.len() <==> count < selected(s, include_dirs, include_ignored).len()
            &&& i < s.len() ==> {
                &&& included(s[i], include_dirs, include_ignored)
                &&& total_counts(s.take(i)).select(include_dirs, include_ignored) == count
            }
            &&& total_counts(s.take(i)).select(include_dirs, include_ignored) <= count
        }),
    decreases s.len() - from,
{
    let t = count_target(count, include_dirs, include_ignored);
    let i = seek_index(s, t, Bias::Right, from);
    lemma_counts_selected(s, include_dirs, include_ignored);
    assert(s.take(s.len() as int) =~= s);
    if from < s.len() {
        lemma_counts_step(s, from, include_dirs, include_ignored);
        if passes(s, t, Bias::Right, from) {
            lemma_seek_count(s, count, include_dirs, include_ignored, from + 1);
        } else {
            lemma_counts_monotone(s, from + 1, s.len() as int, include_dirs, include_ignored);
        }
    }
}

/// A walk to a path ends, on its left, at the first entry that does not come before the path,
/// and on its right, at the first entry that comes after it.
pub proof fn lemma_seek_path(s: Seq<Entry>, p: Arc<Path>, bias: Bias)
    requires
        sorted(s),
    ensures
        ({
            let i = seek_index(s, TraversalTarget::Path(p), bias, 0);
            &&& 0 <= i <= s.len()
            &&& forall|j: int| #![trigger s[j]] 0 <= j < i ==> names_lt(s[j].comps(), p.comps())
                || (bias is Right && s[j].comps() == p.comps())
            &&& forall|j: int| #![trigger s[j]] i <= j < s.len() ==> names_lt(p.comps(), s[j].comps())
                || (bias is Left && s[j].comps() == p.comps())
        }),
{
    let t = TraversalTarget::Path(p);
    let i = seek_index(s, t, bias, 0);
    lemma_seek_index(s, t, bias, 0);
    assert forall|j: int| #![trigger s[j]] 0 <= j < i implies names_lt(s[j].comps(), p.comps()) || (
    bias is Right && s[j].comps() == p.comps()) by {
        assert(passes(s, t, bias, j));
        lemma_names_lt_total(p.comps(), s[j].comps());
    }
    if i < s.len() {
        assert(!passes(s, t, bias, i));
        assert forall|j: int| #![trigger s[j]] i <= j < s.len() implies names_lt(p.comps(), s[j].comps())
            || (bias is Left && s[j].comps() == p.comps()) by {
            if j > i {
                assert(names_lt(s[i].comps(), s[j].comps()));
                if names_lt(p.comps(), s[i].comps()) {
                    lemma_names_lt_transitive(p.comps(), s[i].comps(), s[j].comps());
                }
            }
        }
    }
}

/// The first place behind `from` whose entry does not lie in a path.
pub open spec fn after_subtree(s: Seq<Entry>, base: Seq<Seq<char>>, from: int) -> int
    decreases s.len() - from,
{
    if 0 <= from < s.len() && nested_in(s[from].comps(), base) {
        after_subtree(s, base, from + 1)
    } else {
        from
    }
}

pub proof fn lemma_after_subtree(s: Seq<Entry>, base: Seq<Seq<char>>, from: int)
    requires
        0 <= from <= s.len(),
    ensures
        from <= after_subtree(s, base, from) <= s.len(),
        forall|j: int| #![trigger s[j]] from <= j < after_subtree(s, base, from) ==> nested_in(
            s[j].comps(),
            base,
        ),
        after_subtree(s, base, from) < s.len() ==> !nested_in(
            s[after_subtree(s, base, from)].comps(),
            base,
        ),
    decreases s.len() - from,
{
    if from < s.len() && nested_in(s[from].comps(), base) {
        lemma_after_subtree(s, base, from + 1);
    }
}

/// A walk past what lies in a path.
pub proof fn lemma_seek_successor(s: Seq<Entry>, p: Arc<Path>, from: int)
    requires
        0 <= from <= s.len(),
    ensures
        seek_index(s, TraversalTarget::PathSuccessor(p), Bias::Left, from) == after_subtree(
            s,
            p.comps(),
            from,
        ),
    decreases s.len() - from,
{
    if from < s.len() && nested_in(s[from].comps(), p.comps()) {
        lemma_seek_successor(s, p, from + 1);
    }
}

/// What lies in a path is what stands between the first entry that does not come before the
/// path and the first one behind it that does not lie in it.
pub proof fn lemma_subtree_block(s: Seq<Entry>, base: Seq<Seq<char>>, from: int)
    requires
        sorted(s),
        0 <= from <= s.len(),
        forall|j: int| #![trigger s[j]] 0 <= j < from ==> names_lt(s[j].comps(), base),
        forall|j: int| #![trigger s[j]] from <= j < s.len() ==> s[j].comps() == base || names_lt(
            base,
            s[j].comps(),
        ),
    ensures
        from <= after_subtree(s, base, from) <= s.len(),
        forall|j: int|
            #![trigger s[j]]
            0 <= j < s.len() ==> (nested_in(s[j].comps(), base) <==> from <= j < after_subtree(
                s,
                base,
                from,
            )),
{
    let to = after_subtree(s, base, from);
    lemma_after_subtree(s, base, from);
    assert forall|j: int| #![trigger s[j]] 0 <= j < s.len() implies (nested_in(s[j].comps(), base)
        <==> from <= j < to) by {
        if nested_in(s[j].comps(), base) {
            lemma_nested_is_after(s[j].comps(), base);
            if j < from {
                lemma_names_lt_irreflexive(base);
                if names_lt(base, s[j].comps()) {
                    lemma_names_lt_transitive(base, s[j].comps(), base);
                }
            }
            if j >= to {
                assert(to < s.len());
                if j > to {
                    assert(names_lt(s[to].comps(), s[j].comps()));
                    lemma_nested_is_block(base, s[to].comps(), s[j].comps());
                }
            }
        }
    }
}

/// The components of the path of the last entry before a place.
pub open spec fn last_comps(s: Seq<Entry>, i: int) -> Seq<Seq<char>> {
    if i <= 0 {
        Seq::empty()
    } else {
        s[i - 1].comps()
    }
}

/// Whether a walk that ended at a place reached its target.
pub open spec fn reached(s: Seq<Entry>, t: TraversalTarget, bias: Bias, i: int) -> bool {
    if bias is Left && i < s.len() {
        target_order(t, s[i].comps(), total_counts(s.take(i + 1))) is Same
    } else {
        target_order(t, last_comps(s, i), total_counts(s.take(i))) is Same
    }
}

/// The place of the entry that follows behind everything that lies in the one at a place, and
/// at which the traversal stops.
pub open spec fn sibling_index(s: Seq<Entry>, include_dirs: bool, include_ignored: bool, i: int) -> int
    decreases s.len() - i,
{
    if 0 <= i < s.len() && after_subtree(s, s[i].comps(), i) > i {
        let j = after_subtree(s, s[i].comps(), i);
        proof {
            lemma_after_subtree(s, s[i].comps(), i);
        }
        if j < s.len() && included(s[j], include_dirs, include_ignored) {
            j
        } else {
            sibling_index(s, include_dirs, include_ignored, j)
        }
    } else {
        i
    }
}

/// Entries before a place at which a traversal stops come first among all those.
pub proof fn lemma_selected_prefix(s: Seq<Entry>, i: int, include_dirs: bool, include_ignored: bool)
    requires
        0 <= i <= s.len(),
    ensures
        selected(s, include_dirs, include_ignored) == selected(
            s.take(i),
            include_dirs,
            include_ignored,
        ) + selected(s.skip(i), include_dirs, include_ignored),
{
    assert(s =~= s.take(i) + s.skip(i));
    Seq::filter_distributes_over_add(
        s.take(i),
        s.skip(i),
        |e: Entry| included(e, include_dirs, include_ignored),
    );
}

/// The entry before which a traversal has stopped so many times is the one with that number.
pub proof fn lemma_selected_at(s: Seq<Entry>, i: int, include_dirs: bool, include_ignored: bool)
    requires
        0 <= i < s.len(),
        included(s[i], include_dirs, include_ignored),
    ensures
        ({
            let k = total_counts(s.take(i)).select(include_dirs, include_ignored) as int;
            &&& k < selected(s, include_dirs, include_ignored).len()
            &&& selected(s, include_dirs, include_ignored)[k] == s[i]
        }),
{
    let p = |e: Entry| included(e, include_dirs, include_ignored);
    lemma_selected_prefix(s, i, include_dirs, include_ignored);
    lemma_counts_selected(s.take(i), include_dirs, include_ignored);
    let rest = s.skip(i);
    assert(rest =~= seq![s[i]] + s.skip(i + 1));
    Seq::filter_distributes_over_add(seq![s[i]], s.skip(i + 1), p);
    assert(seq![s[i]].filter(p) =~= seq![s[i]]) by {
        reveal(Seq::filter);
        assert(seq![s[i]].drop_last() =~= Seq::empty());
        assert(Seq::<Entry>::empty().filter(p) =~= Seq::empty());
    }
}

/// A walk over the entries of a snapshot that stops at some of them.
pub struct Traversal<'a> {
    entries: &'a SumTree<Entry>,
    index: usize,
    progress: TraversalProgress,
    include_dirs: bool,
    include_ignored: bool,
}

/// What a step of a walk gives, by value.
pub open spec fn taken(r: Option<&Entry>) -> Option<Entry> {
    match r {
        Some(e) => Some(*e),
        None => None,
    }
}

/// Whether a walk gave an entry and went on to the next one at which it stops.
pub open spec fn is_next(before: Traversal<'_>, r: Option<Entry>, after: Traversal<'_>) -> bool {
    &&& after.same_walk(before)
    &&& r is Some <==> before.index() < before.items().len()
    &&& r matches Some(e) ==> e == before.items()[before.index()]
    &&& r is None ==> after.index() == before.index()
    &&& r is Some ==> {
        &&& after.settled()
        &&& after.index() < before.items().len() <==> before.passed() + 1 < before.stops().len()
        &&& after.index() < before.items().len() ==> after.passed() == before.passed() + 1
    }
    &&& before.settled() && r is Some ==> {
        &&& after.passed() == before.passed() + 1
        &&& before.passed() < before.stops().len()
        &&& r->0 == before.stops()[before.passed() as int]
    }
    &&& before.settled() && r is None ==> before.passed() == before.stops().len()
}

/// A walk is over a sorted list, at one of its places or at its end.
pub proof fn lemma_walk_bounds(t: Traversal<'_>)
    requires
        t.wf(),
    ensures
        sorted(t.items()),
        0 <= t.index() <= t.items().len(),
{
}

impl<'a> Traversal<'a> {
    /// The entries that are walked over.
    pub closed spec fn items(&self) -> Seq<Entry> {
        self.entries@
    }

    /// The place at which the walk is.
    pub closed spec fn index(&self) -> int {
        self.index as int
    }

    /// Whether the walk stops at directories.
    pub closed spec fn takes_dirs(&self) -> bool {
        self.include_dirs
    }

    /// Whether the walk stops at ignored entries.
    pub closed spec fn takes_ignored(&self) -> bool {
        self.include_ignored
    }

    /// Whether the walk is at a place of a sorted list and has counted what lies before it.
    pub closed spec fn wf(&self) -> bool {
        &&& sorted(self.entries@)
        &&& self.index <= self.entries@.len()
        &&& self.progress.counts() == total_counts(self.entries@.take(self.index as int))
        &&& crate::path::components(self.progress.last_path()) == last_comps(
            self.entries@,
            self.index as int,
        )
    }

    /// The number of entries before the place at which the walk stops.
    pub open spec fn passed(&self) -> nat {
        total_counts(self.items().take(self.index())).select(
            self.takes_dirs(),
            self.takes_ignored(),
        )
    }

    /// All entries at which the walk stops.
    pub open spec fn stops(&self) -> Seq<Entry> {
        selected(self.items(), self.takes_dirs(), self.takes_ignored())
    }

    /// Whether the walk stands at an entry at which it stops, or at the end.
    pub open spec fn settled(&self) -> bool {
        self.index() == self.items().len() || included(
            self.items()[self.index()],
            self.takes_dirs(),
            self.takes_ignored(),
        )
    }

    /// Whether nothing but the place of a walk changed.
    pub open spec fn same_walk(&self, other: Self) -> bool {
        &&& self.items() == other.items()
        &&& self.takes_dirs() == other.takes_dirs()
        &&& self.takes_ignored() == other.takes_ignored()
    }

    proof fn lemma_bounds(&self)
        requires
            self.wf(),
        ensures
            0 <= self.index() <= self.items().len(),
            self.passed() <= self.items().len(),
            self.passed() <= usize::MAX,
    {
        lemma_counts_bounded(self.items().take(self.index()));
    }

    /// A walk over a list from its beginning.
    pub fn new(entries: &'a SumTree<Entry>, include_dirs: bool, include_ignored: bool) -> (r: Self)
        requires
            entries.wf(),
        ensures
            r.wf(),
            r.items() == entries@,
            r.takes_dirs() == include_dirs,
            r.takes_ignored() == include_ignored,
            r.index() == 0,
    {
        proof {
            lemma_components_empty();
            assert(entries@.take(0) =~= Seq::empty());
        }
        Traversal {
            entries,
            index: 0,
            progress: TraversalProgress::default(),
            include_dirs,
            include_ignored,
        }
    }

    /// Walks on to a target and tells whether it was reached.
    pub fn seek_forward(&mut self, target: &TraversalTarget, bias: Bias) -> (r: bool)
        requires
            old(self).wf(),
        ensures
            final(self).wf(),
            final(self).same_walk(*old(self)),
            final(self).index() == seek_index(old(self).items(), *target, bias, old(self).index()),
            r == reached(old(self).items(), *target, bias, final(self).index()),
    {
        let ghost s = self.entries@;
        let ghost from = self.index as int;
        loop
            invariant
                self.wf(),
                self.same_walk(*old(self)),
                s == self.entries@,
                seek_index(s, *target, bias, from) == seek_index(
                    s,
                    *target,
                    bias,
                    self.index as int,
                ),
                from == old(self).index(),
            decreases self.entries@.len() - self.index,
        {
            if self.index >= self.entries.len() {
                return target.compare(&self.progress) == KeyOrder::Same;
            }
            let summary = self.entries.item(self.index).summary();
            let mut end = self.progress.clone();
            proof {
                lemma_counts_step(s, self.index as int, true, true);
                lemma_counts_bounded(s.take(self.index + 1));
            }
            end.add_summary(&summary);
            let order = target.compare(&end);
            let past: bool = match order {
                KeyOrder::Greater => true,
                KeyOrder::Same => bias == Bias::Right,
                KeyOrder::Less => false,
            };
            assert(past == passes(s, *target, bias, self.index as int));
            if past {
                self.progress = end;
                self.index = self.index + 1;
            } else {
                if bias == Bias::Left {
                    return order == KeyOrder::Same;
                }
                return target.compare(&self.progress) == KeyOrder::Same;
            }
        }
    }

    /// Walks on to the next entry at which the walk stops, and tells whether the walk has then
    /// stopped once more.
    pub fn advance(&mut self) -> (r: bool)
        requires
            old(self).wf(),
        ensures
            final(self).wf(),
            final(self).same_walk(*old(self)),
            final(self).settled(),
            old(self).index() <= final(self).index() <= old(self).items().len(),
            final(self).index() < old(self).items().len() <==> old(self).passed() + 1 < old(
                self,
            ).stops().len(),
            final(self).index() < old(self).items().len() ==> final(self).passed() == old(
                self,
            ).passed() + 1,
            r == (final(self).passed() == old(self).passed() + 1),
    {
        let offset: usize = self.offset();
        proof {
            self.lemma_bounds();
        }
        let n: usize = self.entries.len();
        if offset == usize::MAX {
            proof {
                let s = self.items();
                assert(s.len() == n);
                let i = self.index();
                lemma_counts_bounded(s.take(i));
                assert(s.take(s.len() as int) =~= s);
                lemma_counts_selected(s, self.takes_dirs(), self.takes_ignored());
                lemma_counts_bounded(s);
            }
            return false;
        }
        self.advance_to_offset(offset + 1)
    }

    /// Walks on to the entry before which the walk has stopped `offset` times, or to the end
    /// where there is none, and tells whether the walk has then stopped just so often. A walk
    /// does not go back: where it has stopped more often already it stays where it is.
    pub fn advance_to_offset(&mut self, offset: usize) -> (r: bool)
        requires
            old(self).wf(),
        ensures
            final(self).wf(),
            final(self).same_walk(*old(self)),
            old(self).index() <= final(self).index() <= old(self).items().len(),
            r == (final(self).passed() == offset),
            old(self).passed() <= offset ==> {
                &&& final(self).settled()
                &&& final(self).index() < old(self).items().len() <==> offset < old(
                    self,
                ).stops().len()
                &&& final(self).index() < old(self).items().len() ==> final(self).passed() == offset
            },
            offset < old(self).passed() ==> final(self).index() == old(self).index(),
    {
        let target = TraversalTarget::Count {
            count: offset,
            include_dirs: self.include_dirs,
            include_ignored: self.include_ignored,
        };
        proof {
            self.lemma_bounds();
            let s = self.items();
            if self.passed() <= offset {
                lemma_seek_count(
                    s,
                    offset,
                    self.takes_dirs(),
                    self.takes_ignored(),
                    self.index(),
                );
            } else if self.index() < s.len() {
                lemma_counts_step(s, self.index(), self.takes_dirs(), self.takes_ignored());
            }
        }
        self.seek_forward(&target, Bias::Right)
    }

    /// Walks on behind everything that lies in the entry at hand, and on in the same way until
    /// the walk stops. Tells whether it stopped.
    pub fn advance_to_sibling(&mut self) -> (r: bool)
        requires
            old(self).wf(),
        ensures
            final(self).wf(),
            final(self).same_walk(*old(self)),
            final(self).index() == sibling_index(
                old(self).items(),
                old(self).takes_dirs(),
                old(self).takes_ignored(),
                old(self).index(),
            ),
            r == (final(self).index() < old(self).items().len()),
    {
        let ghost s = self.entries@;
        let ghost from = self.index as int;
        loop
            invariant
                self.wf(),
                self.same_walk(*old(self)),
                s == self.entries@,
                sibling_index(s, self.include_dirs, self.include_ignored, from) == sibling_index(
                    s,
                    self.include_dirs,
                    self.include_ignored,
                    self.index as int,
                ),
                from == old(self).index(),
            decreases self.entries@.len() - self.index,
        {
            if self.index >= self.entries.len() {
                return false;
            }
            let path = self.entries.item(self.index).path.clone();
            let ghost i = self.index as int;
            let target = TraversalTarget::PathSuccessor(path);
            proof {
                lemma_seek_successor(s, path, i);
                lemma_after_subtree(s, path.comps(), i);
                assert(nested_in(s[i].comps(), path.comps())) by {
                    assert(path.comps() =~= path.comps().subrange(0, path.comps().len() as int));
                }
                assert(after_subtree(s, path.comps(), i) > i) by {
                    lemma_after_subtree(s, path.comps(), i + 1);
                }
            }
            let _ = self.seek_forward(&target, Bias::Left);
            if self.index < self.entries.len() {
                let entry = self.entries.item(self.index);
                if (self.include_dirs || !entry.is_dir()) && (self.include_ignored
                    || !entry.is_ignored) {
                    return true;
                }
            }
        }
    }

    /// The entry at which the walk is.
    pub fn entry(&self) -> (r: Option<&'a Entry>)
        requires
            self.wf(),
        ensures
            r is Some <==> self.index() < self.items().len(),
            r matches Some(e) ==> *e == self.items()[self.index()],
    {
        if self.index < self.entries.len() {
            Some(self.entries.item(self.index))
        } else {
            None
        }
    }

    /// How often the walk has stopped before the place at which it is.
    pub fn offset(&self) -> (r: usize)
        requires
            self.wf(),
        ensures
            r == self.passed(),
    {
        self.progress.count(self.include_dirs, self.include_ignored)
    }

    /// The entry at which the walk is, and the walk on to the next one.
    pub fn next(&mut self) -> (r: Option<&'a Entry>)
        requires
            old(self).wf(),
        ensures
            final(self).wf(),
            is_next(*old(self), taken(r), *final(self)),
    {
        let item = self.entry();
        proof {
            let s = self.items();
            let i = self.index();
            lemma_counts_selected(s, self.takes_dirs(), self.takes_ignored());
            assert(s.take(s.len() as int) =~= s);
            if i < s.len() && self.settled() {
                lemma_selected_at(s, i, self.takes_dirs(), self.takes_ignored());
            }
        }
        if item.is_some() {
            let _ = self.advance();
            proof {
                let s = self.items();
                let i = self.index();
                if old(self).settled() && i == s.len() {
                    lemma_counts_selected(s, self.takes_dirs(), self.takes_ignored());
                }
            }
        }
        item
    }
}

/// The empty path has no components.
pub proof fn lemma_components_empty()
    ensures
        crate::path::components(Seq::<char>::empty()) == Seq::<Seq<char>>::empty(),
{
    let ns = Seq::<Seq<char>>::empty();
    crate::path_lemmas::lemma_components_render(ns);
}

/// The entries that lie directly in a path, one after the other.
pub struct ChildEntriesIter<'a> {
    parent_path: Arc<Path>,
    traversal: Traversal<'a>,
}

/// Whether a child was given, and what lies in it was passed over.
pub open spec fn is_next_child(
    before: ChildEntriesIter<'_>,
    r: Option<Entry>,
    after: ChildEntriesIter<'_>,
) -> bool {
    let s = before.items();
    let i = before.index();
    &&& after.items() == s
    &&& after.parent() == before.parent()
    &&& r is Some <==> i < s.len() && nested_in(s[i].comps(), before.parent())
    &&& r matches Some(e) ==> e == s[i] && after.index() == after_subtree(s, e.comps(), i)
    &&& r is None ==> after.index() == i
    &&& i <= after.index() <= s.len()
}

impl<'a> ChildEntriesIter<'a> {
    /// The entries that are gone through.
    pub closed spec fn items(&self) -> Seq<Entry> {
        self.traversal.items()
    }

    /// The place of the entry that comes next.
    pub closed spec fn index(&self) -> int {
        self.traversal.index()
    }

    /// The path whose children are listed.
    pub closed spec fn parent(&self) -> Seq<Seq<char>> {
        self.parent_path.comps()
    }

    pub closed spec fn wf(&self) -> bool {
        &&& self.traversal.wf()
        &&& self.traversal.takes_dirs()
        &&& self.traversal.takes_ignored()
    }

    /// Lists the children of a path from the first entry behind it.
    pub fn new(entries: &'a SumTree<Entry>, parent_path: Arc<Path>) -> (r: Self)
        requires
            entries.wf(),
        ensures
            r.wf(),
            r.items() == entries@,
            r.parent() == parent_path.comps(),
            0 <= r.index() <= entries@.len(),
            forall|j: int| #![trigger entries@[j]] 0 <= j < r.index() ==> names_lt(
                entries@[j].comps(),
                parent_path.comps(),
            ) || entries@[j].comps() == parent_path.comps(),
            forall|j: int| #![trigger entries@[j]] r.index() <= j < entries@.len() ==> names_lt(
                parent_path.comps(),
                entries@[j].comps(),
            ),
    {
        let mut traversal = Traversal::new(entries, true, true);
        let target = TraversalTarget::Path(parent_path.clone());
        proof {
            lemma_seek_path(entries@, parent_path, Bias::Right);
        }
        let _ = traversal.seek_forward(&target, Bias::Right);
        ChildEntriesIter { parent_path, traversal }
    }

    /// The next child.
    pub fn next(&mut self) -> (r: Option<&'a Entry>)
        requires
            old(self).wf(),
        ensures
            final(self).wf(),
            is_next_child(*old(self), taken(r), *final(self)),
    {
        proof {
            self.traversal.lemma_bounds();
        }
        match self.traversal.entry() {
            Some(item) => {
                if item.path.starts_with(&self.parent_path) {
                    proof {
                        let s = self.items();
                        let i = self.index();
                        lemma_after_subtree(s, s[i].comps(), i);
                        assert(nested_in(s[i].comps(), s[i].comps())) by {
                            assert(s[i].comps() =~= s[i].comps().subrange(
                                0,
                                s[i].comps().len() as int,
                            ));
                        }
                        lemma_after_subtree(s, s[i].comps(), i + 1);
                        let j = after_subtree(s, s[i].comps(), i);
                        reveal_with_fuel(sibling_index, 2);
                        assert(sibling_index(s, true, true, i) == j);
                    }
                    let _ = self.traversal.advance_to_sibling();
                    return Some(item);
                }
                None
            },
            None => None,
        }
    }
}

} // verus!
