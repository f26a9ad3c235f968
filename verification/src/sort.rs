//! The merge-sort engine: a sequence is halved, each half is sorted by the
//! same procedure, and the two results are merged.

use crate::merge::merge;
use crate::order::{
    lemma_stable_sort_of_parts, lemma_stable_sort_of_sorted, sorted, stable_sort_of, total_order,
};
use vstd::prelude::*;
use vstd::seq_lib::lemma_multiset_commutative;
use vstd::slice::slice_to_vec;

verus! {

/// Sorts a sequence by merge sort and returns the result as a new sequence.
///
/// The result always holds exactly the elements of `data`, and a sequence of
/// at most one element is returned as it is. Where the element type is totally
/// ordered, the result is the stable sort of `data`: ascending, with elements
/// that compare equal in the order in which `data` has them. A sequence that
/// is already ascending therefore comes back unchanged.
pub fn merge_sort<T: PartialOrd + Copy>(data: Vec<T>) -> (result: Vec<T>)
    ensures
        result@.len() == data@.len(),
        result@.to_multiset() == data@.to_multiset(),
        data@.len() <= 1 ==> result@ == data@,
        total_order::<T>() ==> stable_sort_of(result@, data@),
        total_order::<T>() && sorted(data@) ==> result@ == data@,
    decreases data@.len(),
{
    if data.len() <= 1 {
        return data;
    }
    let middle: usize = data.len() / 2;
    let left = merge_sort(slice_to_vec(&data[0..middle]));
    let right = merge_sort(slice_to_vec(&data[middle..data.len()]));
    let result = merge(left, right);
    proof {
        let first = data@.subrange(0, middle as int);
        let second = data@.subrange(middle as int, data@.len() as int);
        assert(data@ =~= first + second);
        lemma_multiset_commutative(first, second);
        if total_order::<T>() {
            lemma_stable_sort_of_parts(result@, left@, right@, first, second);
            if sorted(data@) {
                lemma_stable_sort_of_sorted(result@, data@);
            }
        }
    }
    result
}

} // verus!
