//! The coordinator of a run: it splits the source in two halves, hands each
//! to a sort worker, takes the two sorted halves back in order, hands both to
//! a merge worker and takes the merged result back.
//!
//! The coordinator starts and awaits no worker itself. It keeps the state of
//! the run and says what each worker is given; the caller runs the workers and
//! reports back what they returned.

use crate::order::{lemma_stable_sort_of_parts, stable_sort_of};
use vstd::prelude::*;
use vstd::slice::slice_to_vec;

verus! {

/// The phases of a run, in the order in which a run passes through them.
#[derive(Clone, Copy, Debug, PartialEq, Eq, Structural)]
pub enum Phase {
    /// Nothing has been done yet.
    Idle,
    /// The source has been split in two halves.
    Splitting,
    /// The two sort workers have been given their halves.
    WorkersRunning,
    /// Both sort workers have returned.
    WorkersJoined,
    /// The merge worker has been given the two sorted halves.
    MergingRunning,
    /// The merge worker has returned.
    MergeJoined,
    /// The result has been handed out.
    Done,
}

impl Phase {
    /// The position of the phase in a run, counted from zero.
    pub open spec fn rank(self) -> nat {
        match self {
            Phase::Idle => 0,
            Phase::Splitting => 1,
            Phase::WorkersRunning => 2,
            Phase::WorkersJoined => 3,
            Phase::MergingRunning => 4,
            Phase::MergeJoined => 5,
            Phase::Done => 6,
        }
    }
}

/// The index at which a sequence of `len` elements is split: half its
/// length, rounded down.
pub open spec fn midpoint_of(len: nat) -> int {
    len as int / 2
}

/// The index at which a sequence of `len` elements is split.
pub fn midpoint(len: usize) -> (mid: usize)
    ensures
        mid == midpoint_of(len as nat),
{
    len / 2
}

/// Splits `source` at its midpoint and returns a copy of each half: the
/// elements before the midpoint, and those from the midpoint on.
pub fn split_halves<T: Copy>(source: &[T]) -> (halves: (Vec<T>, Vec<T>))
    ensures
        halves.0@ == source@.take(midpoint_of(source@.len())),
        halves.1@ == source@.skip(midpoint_of(source@.len())),
        halves.0@ + halves.1@ == source@,
        halves.0@.len() == source@.len() / 2,
        halves.1@.len() == source@.len() - source@.len() / 2,
{
    let mid: usize = midpoint(source.len());
    let (first, second) = source.split_at(mid);
    assert(source@.take(mid as int) + source@.skip(mid as int) =~= source@);
    (slice_to_vec(first), slice_to_vec(second))
}

/// The state of one run.
pub struct Coordinator<T> {
    phase: Phase,
    source: Vec<T>,
    first: Vec<T>,
    second: Vec<T>,
    result: Vec<T>,
}

impl<T: Copy> Coordinator<T> {
    /// The phase that the run is in.
    pub closed spec fn phase_of(&self) -> Phase {
        self.phase
    }

    /// The source sequence of the run.
    pub closed spec fn source_of(&self) -> Seq<T> {
        self.source@
    }

    /// The two sequences that the coordinator holds for the next workers:
    /// the halves of the source after the split, the sorted halves after the
    /// sort workers have returned, and nothing while workers hold them.
    pub closed spec fn held(&self) -> (Seq<T>, Seq<T>) {
        (self.first@, self.second@)
    }

    /// The merged result, once the merge worker has returned.
    pub closed spec fn result_of(&self) -> Seq<T> {
        self.result@
    }

    /// A run over `source` that has not begun.
    pub fn new(source: Vec<T>) -> (run: Self)
        ensures
            run.phase_of() == Phase::Idle,
            run.source_of() == source@,
            run.held() == (Seq::<T>::empty(), Seq::<T>::empty()),
            run.result_of() == Seq::<T>::empty(),
    {
        Coordinator {
            phase: Phase::Idle,
            source,
            first: Vec::new(),
            second: Vec::new(),
            result: Vec::new(),
        }
    }

    /// The phase that the run is in.
    pub fn phase(&self) -> (phase: Phase)
        ensures
            phase == self.phase_of(),
    {
        self.phase
    }

    /// Splits the source at its midpoint. The coordinator then holds the two
    /// halves.
    pub fn split(&mut self)
        requires
            old(self).phase_of() == Phase::Idle,
        ensures
            final(self).phase_of() == Phase::Splitting,
            final(self).phase_of().rank() == old(self).phase_of().rank() + 1,
            final(self).source_of() == old(self).source_of(),
            final(self).held() == (
                old(self).source_of().take(midpoint_of(old(self).source_of().len())),
                old(self).source_of().skip(midpoint_of(old(self).source_of().len())),
            ),
            final(self).held().0 + final(self).held().1 == old(self).source_of(),
            final(self).result_of() == old(self).result_of(),
    {
        let (first, second) = split_halves(self.source.as_slice());
        self.first = first;
        self.second = second;
        self.phase = Phase::Splitting;
    }

    /// Hands out the two halves, one for each sort worker: the first half
    /// first. The coordinator keeps neither.
    pub fn launch_sorters(&mut self) -> (halves: (Vec<T>, Vec<T>))
        requires
            old(self).phase_of() == Phase::Splitting,
        ensures
            final(self).phase_of() == Phase::WorkersRunning,
            final(self).phase_of().rank() == old(self).phase_of().rank() + 1,
            final(self).source_of() == old(self).source_of(),
            (halves.0@, halves.1@) == old(self).held(),
            final(self).held() == (Seq::<T>::empty(), Seq::<T>::empty()),
            final(self).result_of() == old(self).result_of(),
    {
        let mut first: Vec<T> = Vec::new();
        let mut second: Vec<T> = Vec::new();
        std::mem::swap(&mut self.first, &mut first);
        std::mem::swap(&mut self.second, &mut second);
        self.phase = Phase::WorkersRunning;
        (first, second)
    }

    /// Takes what the two sort workers returned: `left` from the worker that
    /// had the first half, `right` from the one that had the second.
    pub fn join_sorters(&mut self, left: Vec<T>, right: Vec<T>)
        requires
            old(self).phase_of() == Phase::WorkersRunning,
        ensures
            final(self).phase_of() == Phase::WorkersJoined,
            final(self).phase_of().rank() == old(self).phase_of().rank() + 1,
            final(self).source_of() == old(self).source_of(),
            final(self).held() == (left@, right@),
            final(self).result_of() == old(self).result_of(),
    {
        self.first = left;
        self.second = right;
        self.phase = Phase::WorkersJoined;
    }

    /// Hands out the two sorted halves for the merge worker, the left one
    /// first. The coordinator keeps neither.
    pub fn launch_merger(&mut self) -> (sorted_halves: (Vec<T>, Vec<T>))
        requires
            old(self).phase_of() == Phase::WorkersJoined,
        ensures
            final(self).phase_of() == Phase::MergingRunning,
            final(self).phase_of().rank() == old(self).phase_of().rank() + 1,
            final(self).source_of() == old(self).source_of(),
            (sorted_halves.0@, sorted_halves.1@) == old(self).held(),
            final(self).held() == (Seq::<T>::empty(), Seq::<T>::empty()),
            final(self).result_of() == old(self).result_of(),
    {
        let mut left: Vec<T> = Vec::new();
        let mut right: Vec<T> = Vec::new();
        std::mem::swap(&mut self.first, &mut left);
        std::mem::swap(&mut self.second, &mut right);
        self.phase = Phase::MergingRunning;
        (left, right)
    }

    /// Takes the merged result that the merge worker produced.
    pub fn join_merger(&mut self, merged: Vec<T>)
        requires
            old(self).phase_of() == Phase::MergingRunning,
        ensures
            final(self).phase_of() == Phase::MergeJoined,
            final(self).phase_of().rank() == old(self).phase_of().rank() + 1,
            final(self).source_of() == old(self).source_of(),
            final(self).held() == old(self).held(),
            final(self).result_of() == merged@,
    {
        self.result = merged;
        self.phase = Phase::MergeJoined;
    }

    /// Ends the run and hands out the merged result.
    pub fn finish(&mut self) -> (result: Vec<T>)
        requires
            old(self).phase_of() == Phase::MergeJoined,
        ensures
            final(self).phase_of() == Phase::Done,
            final(self).phase_of().rank() == old(self).phase_of().rank() + 1,
            final(self).source_of() == old(self).source_of(),
            final(self).held() == old(self).held(),
            result@ == old(self).result_of(),
            final(self).result_of() == Seq::<T>::empty(),
    {
        let mut result: Vec<T> = Vec::new();
        std::mem::swap(&mut self.result, &mut result);
        self.phase = Phase::Done;
        result
    }
}

/// A run whose workers do their part sorts the source: where the two sort
/// workers return the stable sorts of the two halves, and the merge worker the
/// stable sort of the left result followed by the right one, the merged result
/// is the stable sort of the source.
pub proof fn lemma_run_sorts_source<T: PartialOrd>(
    source: Seq<T>,
    left: Seq<T>,
    right: Seq<T>,
    merged: Seq<T>,
)
    requires
        stable_sort_of(left, source.take(midpoint_of(source.len()))),
        stable_sort_of(right, source.skip(midpoint_of(source.len()))),
        stable_sort_of(merged, left + right),
    ensures
        stable_sort_of(merged, source),
{
    let mid = midpoint_of(source.len());
    assert(source =~= source.take(mid) + source.skip(mid));
    lemma_stable_sort_of_parts(merged, left, right, source.take(mid), source.skip(mid));
}

} // verus!
