use vstd::prelude::*;

verus! {

/// Does position `i` of the bit sequence hold a set bit?  Out-of-range
/// positions count as absent, so the predicate is total.
pub open spec fn bm_contains(bm: Seq<bool>, i: int) -> bool {
    0 <= i < bm.len() && bm[i]
}

/// A fixed-capacity membership set over small integer ids: one bit per id in
/// `[0, capacity)`.  Used for the member cores of a package or a NUMA node.
pub struct BitMap {
    bits: Vec<bool>,
}

impl View for BitMap {
    type V = Seq<bool>;

    closed spec fn view(&self) -> Seq<bool> {
        self.bits@
    }
}

impl BitMap {
    /// A set of the given capacity with every bit clear.
    pub fn with_capacity(capacity: usize) -> (r: BitMap)
        ensures
            r@.len() == capacity,
            forall|i: int| 0 <= i < capacity ==> !bm_contains(r@, i),
    {
        let mut bits: Vec<bool> = Vec::new();
        let mut k: usize = 0;
        while k < capacity
            invariant
                k <= capacity,
                bits@.len() == k,
                forall|i: int| 0 <= i < k ==> !bits@[i],
            decreases capacity - k,
        {
            bits.push(false);
            k += 1;
        }
        BitMap { bits }
    }

    /// The number of ids the set can hold.
    pub fn capacity(&self) -> (r: usize)
        ensures
            r == self@.len(),
    {
        self.bits.len()
    }

    /// Mark id `i` as a member.
    pub fn set(&mut self, i: usize)
        requires
            i < old(self)@.len(),
        ensures
            final(self)@ == old(self)@.update(i as int, true),
    {
        self.bits.set(i, true);
    }

    /// Is id `i` a member?  Ids at or beyond the capacity are never members.
    pub fn test(&self, i: usize) -> (r: bool)
        ensures
            r == bm_contains(self@, i as int),
    {
        if i < self.bits.len() {
            self.bits[i]
        } else {
            false
        }
    }
}

} // verus!
