//! The result container: a buffer of fixed capacity into which the merged
//! result is written once the merge has been made.

use vstd::prelude::*;

verus! {

/// A buffer whose capacity is fixed when it is made. It never grows: a
/// result is written over its slots from the front.
pub struct ResultBuffer<T> {
    slots: Vec<T>,
}

impl<T> View for ResultBuffer<T> {
    type V = Seq<T>;

    /// The slots of the buffer, in order.
    closed spec fn view(&self) -> Seq<T> {
        self.slots@
    }
}

impl<T: Copy> ResultBuffer<T> {
    /// A buffer of `capacity` slots, each holding `fill`.
    pub fn new(capacity: usize, fill: T) -> (buffer: Self)
        ensures
            buffer@.len() == capacity,
            forall|k: int| 0 <= k < capacity ==> buffer@[k] == fill,
    {
        let mut slots: Vec<T> = Vec::with_capacity(capacity);
        let mut k: usize = 0;
        while k < capacity
            invariant
                k <= capacity,
                slots@.len() == k,
                forall|m: int| 0 <= m < k ==> slots@[m] == fill,
            decreases capacity - k,
        {
            slots.push(fill);
            k += 1;
        }
        ResultBuffer { slots }
    }

    /// The number of slots.
    pub fn capacity(&self) -> (n: usize)
        ensures
            n == self@.len(),
    {
        self.slots.len()
    }

    /// Writes `merged` into the buffer, element by element from the first
    /// slot on. The slots behind the written ones keep what they held, and
    /// the capacity stays as it was: a result as long as the buffer replaces
    /// the contents whole.
    pub fn publish(&mut self, merged: &Vec<T>)
        requires
            merged@.len() <= old(self)@.len(),
        ensures
            final(self)@ == merged@ + old(self)@.skip(merged@.len() as int),
    {
        let mut k: usize = 0;
        while k < merged.len()
            invariant
                k <= merged@.len() <= self@.len(),
                self@.len() == old(self)@.len(),
                self@ == merged@.take(k as int) + old(self)@.skip(k as int),
            decreases merged@.len() - k,
        {
            self.slots[k] = merged[k];
            k += 1;
            assert(self@ =~= merged@.take(k as int) + old(self)@.skip(k as int));
        }
        assert(merged@.take(k as int) =~= merged@);
    }

    /// A copy of the slots, in order.
    pub fn contents(&self) -> (values: Vec<T>)
        ensures
            values@ == self@,
    {
        let mut values: Vec<T> = Vec::with_capacity(self.slots.len());
        let mut k: usize = 0;
        while k < self.slots.len()
            invariant
                k <= self.slots@.len(),
                values@ == self.slots@.take(k as int),
            decreases self.slots@.len() - k,
        {
            values.push(self.slots[k]);
            k += 1;
            assert(values@ =~= self.slots@.take(k as int));
        }
        assert(self.slots@.take(k as int) =~= self.slots@);
        values
    }
}

} // verus!
