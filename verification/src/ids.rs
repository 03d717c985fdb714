//! Identifiers of worktrees and of their entries.
use std::cmp::Ordering;
use vstd::prelude::*;
use vstd::std_specs::cmp::PartialOrdIs;

verus! {

/// How two numbers stand to each other.
pub open spec fn number_order(a: usize, b: usize) -> Ordering {
    if a < b {
        Ordering::Less
    } else if a == b {
        Ordering::Equal
    } else {
        Ordering::Greater
    }
}

/// The identifier of a worktree.
#[derive(Copy, Clone, PartialEq, Eq, Debug, Hash, Ord, Structural)]
pub struct WorktreeId(usize);

impl View for WorktreeId {
    type V = usize;

    closed spec fn view(&self) -> usize {
        self.0
    }
}

impl PartialOrd for WorktreeId {
    fn partial_cmp(&self, other: &Self) -> (r: Option<Ordering>) {
        if self.0 < other.0 {
            Some(Ordering::Less)
        } else if self.0 == other.0 {
            Some(Ordering::Equal)
        } else {
            Some(Ordering::Greater)
        }
    }
}

impl vstd::std_specs::cmp::PartialOrdSpecImpl for WorktreeId {
    open spec fn obeys_partial_cmp_spec() -> bool {
        true
    }

    open spec fn partial_cmp_spec(&self, other: &Self) -> Option<Ordering> {
        Some(number_order(self@, other@))
    }
}

impl WorktreeId {
    /// The identifier with the given number.
    pub fn from_usize(handle_id: usize) -> (r: Self)
        ensures
            r@ == handle_id,
    {
        WorktreeId(handle_id)
    }

    /// The identifier that a message carries, cut to the width of `usize`.
    pub fn from_proto(id: u64) -> (r: Self)
        ensures
            r@ == id as usize,
    {
        WorktreeId(id as usize)
    }

    /// The identifier as a message carries it.
    pub fn to_proto(&self) -> (r: u64)
        ensures
            r == self@,
    {
        self.0 as u64
    }

    /// The number of the identifier.
    pub fn to_usize(&self) -> (r: usize)
        ensures
            r == self@,
    {
        self.0
    }
}

/// Identifiers with one number are the same, and others are not. They stand in the order of their
/// numbers.
pub proof fn law_worktree_ids_are_numbers(a: WorktreeId, b: WorktreeId)
    ensures
        a == b <==> a@ == b@,
        a.is_lt(&b) <==> a@ < b@,
        a.is_le(&b) <==> a@ <= b@,
{
}

/// The identifier of an entry. It stays with a file across scans, and with a file that is
/// renamed while one batch of file-system events is handled.
#[derive(Copy, Clone, PartialEq, Eq, Debug, Hash, Ord, Structural)]
pub struct ProjectEntryId(usize);

impl View for ProjectEntryId {
    type V = usize;

    closed spec fn view(&self) -> usize {
        self.0
    }
}

impl PartialOrd for ProjectEntryId {
    fn partial_cmp(&self, other: &Self) -> (r: Option<Ordering>) {
        if self.0 < other.0 {
            Some(Ordering::Less)
        } else if self.0 == other.0 {
            Some(Ordering::Equal)
        } else {
            Some(Ordering::Greater)
        }
    }
}

impl vstd::std_specs::cmp::PartialOrdSpecImpl for ProjectEntryId {
    open spec fn obeys_partial_cmp_spec() -> bool {
        true
    }

    open spec fn partial_cmp_spec(&self, other: &Self) -> Option<Ordering> {
        Some(number_order(self@, other@))
    }
}

impl Default for ProjectEntryId {
    fn default() -> (r: Self)
        ensures
            r@ == 0,
    {
        ProjectEntryId(0)
    }
}

/// Identifiers with one number are the same, and others are not. They stand in the order of their
/// numbers.
pub proof fn law_entry_ids_are_numbers(a: ProjectEntryId, b: ProjectEntryId)
    ensures
        a == b <==> a@ == b@,
        a.is_lt(&b) <==> a@ < b@,
        a.is_le(&b) <==> a@ <= b@,
{
}

/// The number that follows in a counter of the width of `usize`, which starts over after the
/// last one.
pub open spec fn next_number(n: usize) -> usize {
    if n == usize::MAX {
        0
    } else {
        (n + 1) as usize
    }
}

/// The number that a counter gives after `k` others.
pub open spec fn nth_number(n: usize, k: nat) -> usize
    decreases k,
{
    if k == 0 {
        n
    } else {
        next_number(nth_number(n, (k - 1) as nat))
    }
}

impl ProjectEntryId {
    /// Takes the next identifier from a counter.
    pub fn new(counter: &mut usize) -> (r: Self)
        ensures
            r@ == *old(counter),
            *final(counter) == next_number(*old(counter)),
    {
        let id: usize = *counter;
        *counter = counter.wrapping_add(1);
        ProjectEntryId(id)
    }

    /// The identifier with the given number.
    pub fn from_usize(id: usize) -> (r: Self)
        ensures
            r@ == id,
    {
        ProjectEntryId(id)
    }

    /// The identifier that a message carries, cut to the width of `usize`.
    pub fn from_proto(id: u64) -> (r: Self)
        ensures
            r@ == id as usize,
    {
        ProjectEntryId(id as usize)
    }

    /// The identifier as a message carries it.
    pub fn to_proto(&self) -> (r: u64)
        ensures
            r == self@,
    {
        self.0 as u64
    }

    /// The number of the identifier.
    pub fn to_usize(&self) -> (r: usize)
        ensures
            r == self@,
    {
        self.0
    }
}

} // verus!
