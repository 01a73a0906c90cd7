//! Per-rank staging container: one payload buffer per destination rank.
//!
//! Built fresh each epoch, filled, drained, and discarded; by convention
//! the slot of the owning rank stays empty.

use vstd::prelude::*;

verus! {

/// One buffer per rank, owned by rank `rank`.
pub struct DataByRank<T> {
    pub data: Vec<Vec<T>>,
    pub rank: usize,
}

impl<T> DataByRank<T> {
    /// One slot per rank of the communicator, all empty.
    pub open spec fn wf(self, size: int) -> bool {
        self.data@.len() == size && self.rank < size
    }

    /// The buffer staged for `rank`.
    pub open spec fn spec_get(self, rank: int) -> Seq<T> {
        self.data@[rank]@
    }

    /// Fresh container with an empty buffer for every rank.
    pub fn from_size_and_rank(size: usize, rank: usize) -> (r: Self)
        requires
            rank < size,
        ensures
            r.wf(size as int),
            r.rank == rank,
            forall|i: int| 0 <= i < size ==> #[trigger] r.spec_get(i) == Seq::<T>::empty(),
    {
        let mut data: Vec<Vec<T>> = Vec::new();
        let mut i: usize = 0;
        while i < size
            invariant
                i <= size,
                data@.len() == i,
                forall|k: int| 0 <= k < i ==> (#[trigger] data@[k])@ == Seq::<T>::empty(),
            decreases size - i,
        {
            data.push(Vec::new());
            i += 1;
        }
        DataByRank { data, rank }
    }

    /// Replaces the buffer staged for `rank`.
    pub fn insert(&mut self, rank: usize, value: Vec<T>)
        requires
            rank < old(self).data@.len(),
        ensures
            final(self).data@ == old(self).data@.update(rank as int, value),
            final(self).rank == old(self).rank,
    {
        self.data[rank] = value;
    }

    /// Appends one item to the buffer staged for `rank`.
    pub fn push(&mut self, rank: usize, item: T)
        requires
            rank < old(self).data@.len(),
        ensures
            final(self).data@.len() == old(self).data@.len(),
            final(self).spec_get(rank as int) == old(self).spec_get(rank as int).push(item),
            forall|i: int|
                0 <= i < old(self).data@.len() && i != rank ==> #[trigger] final(self).data@[i]
                    == old(self).data@[i],
            final(self).rank == old(self).rank,
    {
        self.data[rank].push(item);
    }

    /// Reads the buffer staged for `rank`.
    pub fn get(&self, rank: usize) -> (r: &Vec<T>)
        requires
            rank < self.data@.len(),
        ensures
            r@ == self.spec_get(rank as int),
    {
        &self.data[rank]
    }

    /// Removes and returns the buffer staged for `rank`, leaving an empty
    /// one in its place.
    pub fn take(&mut self, rank: usize) -> (r: Vec<T>)
        requires
            rank < old(self).data@.len(),
        ensures
            r@ == old(self).spec_get(rank as int),
            final(self).data@ == old(self).data@.update(rank as int, final(self).data@[rank as int]),
            final(self).spec_get(rank as int) == Seq::<T>::empty(),
            final(self).data@.len() == old(self).data@.len(),
            final(self).rank == old(self).rank,
    {
        let r = self.data.remove(rank);
        self.data.insert(rank, Vec::new());
        proof {
            assert(final(self).data@ =~= old(self).data@.update(
                rank as int,
                final(self).data@[rank as int],
            ));
        }
        r
    }
}

} // verus!
