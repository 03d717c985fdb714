//! Sets of inodes.
use vstd::prelude::*;

verus! {

/// A set of inodes.
#[derive(Debug)]
pub struct InodeSet {
    inodes: Vec<u64>,
}

impl View for InodeSet {
    type V = Set<u64>;

    closed spec fn view(&self) -> Set<u64> {
        Set::new(|n: u64| self.inodes@.contains(n))
    }
}

impl Clone for InodeSet {
    fn clone(&self) -> (r: Self)
        ensures
            r@ == self@,
    {
        let inodes = self.inodes.clone();
        assert(inodes@ =~= self.inodes@);
        InodeSet { inodes }
    }
}

impl Default for InodeSet {
    fn default() -> (r: Self)
        ensures
            r@ == Set::<u64>::empty(),
    {
        let r = InodeSet { inodes: Vec::new() };
        assert(r@ =~= Set::<u64>::empty());
        r
    }
}

impl InodeSet {
    /// Whether an inode is in the set.
    pub fn contains(&self, inode: &u64) -> (r: bool)
        ensures
            r == self@.contains(*inode),
    {
        let mut i: usize = 0;
        while i < self.inodes.len()
            invariant
                i <= self.inodes.len(),
                forall|j: int| 0 <= j < i ==> self.inodes@[j] != *inode,
            decreases self.inodes.len() - i,
        {
            if self.inodes[i] == *inode {
                assert(self.inodes@.contains(*inode));
                return true;
            }
            i = i + 1;
        }
        false
    }

    /// Puts an inode in.
    pub fn insert(&mut self, inode: u64)
        ensures
            final(self)@ == old(self)@.insert(inode),
    {
        let ghost before = self.inodes@;
        if !self.contains(&inode) {
            self.inodes.push(inode);
            assert forall|n: u64| self.inodes@.contains(n) <==> before.contains(n) || n == inode by {
                if before.contains(n) {
                    let i = before.index_of(n);
                    assert(self.inodes@[i] == n);
                }
                assert(self.inodes@[before.len() as int] == inode);
                if self.inodes@.contains(n) {
                    let i = self.inodes@.index_of(n);
                    if i < before.len() {
                        assert(before[i] == n);
                    }
                }
            }
        }
        assert(self@ =~= old(self)@.insert(inode));
    }
}

} // verus!
