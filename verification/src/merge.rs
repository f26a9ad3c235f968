//! The merge step: two ascending sequences are combined into one.

use crate::order::{
    class_of, equiv, le, lemma_class_of_concat, lemma_class_of_none, lemma_class_of_push, sorted,
    stable_sort_of, total_order,
};
use vstd::prelude::*;
use vstd::seq_lib::lemma_multiset_commutative;

verus! {

/// Appends `src[start..]` to `out`, in order.
fn append_tail<T: Copy>(out: &mut Vec<T>, src: &Vec<T>, start: usize)
    requires
        start <= src@.len(),
    ensures
        final(out)@ == old(out)@ + src@.subrange(start as int, src@.len() as int),
{
    let mut k: usize = start;
    while k < src.len()
        invariant
            start <= k <= src@.len(),
            out@ == old(out)@ + src@.subrange(start as int, k as int),
        decreases src@.len() - k,
    {
        out.push(src[k]);
        k += 1;
        assert(out@ =~= old(out)@ + src@.subrange(start as int, k as int));
    }
}

/// What holds of the output while both cursors are inside their sequences:
/// the output is ascending and bounded by both front elements, every element
/// already taken from `right` is strictly below the front of `left`, and the
/// output holds each class as `left[..i]` followed by `right[..j]` does.
spec fn merged_so_far<T: PartialOrd>(
    out: Seq<T>,
    left: Seq<T>,
    right: Seq<T>,
    i: int,
    j: int,
) -> bool {
    &&& sorted(out)
    &&& i < left.len() ==> forall|k: int| 0 <= k < out.len() ==> le(#[trigger] out[k], left[i])
    &&& j < right.len() ==> forall|k: int| 0 <= k < out.len() ==> le(#[trigger] out[k], right[j])
    &&& i < left.len() ==> forall|k: int| 0 <= k < j ==> !le(left[i], #[trigger] right[k])
    &&& forall|x: T| #[trigger]
        class_of(out, x) == class_of(left.take(i), x) + class_of(right.take(j), x)
}

/// Before anything is taken, the empty output is as the loop needs it.
proof fn lemma_start<T: PartialOrd>(left: Seq<T>, right: Seq<T>)
    ensures
        merged_so_far(Seq::<T>::empty(), left, right, 0, 0),
        Seq::<T>::empty().to_multiset() == left.take(0).to_multiset().add(
            right.take(0).to_multiset(),
        ),
{
    let e = Seq::<T>::empty();
    assert(left.take(0) =~= e);
    assert(right.take(0) =~= e);
    assert forall|x: T| #[trigger] class_of(e, x) == class_of(e, x) + class_of(e, x) by {
        lemma_class_of_none(e, x);
    }
    e.to_multiset_ensures();
    assert(e.to_multiset() =~= e.to_multiset().add(e.to_multiset()));
}

/// Taking one more element of a prefix adds that element to its multiset.
proof fn lemma_take_next_multiset<T>(s: Seq<T>, i: int)
    requires
        0 <= i < s.len(),
    ensures
        s.take(i + 1).to_multiset() == s.take(i).to_multiset().insert(s[i]),
{
    assert(s.take(i + 1) =~= s.take(i).push(s[i]));
    s.take(i).to_multiset_ensures();
}

/// Taking the front of `left`, which is less than or equal to the front of
/// `right`, keeps the output as the loop needs it.
proof fn lemma_take_left<T: PartialOrd>(out: Seq<T>, left: Seq<T>, right: Seq<T>, i: int, j: int)
    requires
        total_order::<T>(),
        sorted(left),
        sorted(right),
        0 <= i < left.len(),
        0 <= j < right.len(),
        merged_so_far(out, left, right, i, j),
        le(left[i], right[j]),
    ensures
        merged_so_far(out.push(left[i]), left, right, i + 1, j),
{
    let v = left[i];
    let next = out.push(v);
    assert(sorted(next));
    if i + 1 < left.len() {
        assert(le(v, left[i + 1]));
        assert forall|k: int| 0 <= k < next.len() implies le(#[trigger] next[k], left[i + 1]) by {
            if k < out.len() {
                assert(le(out[k], v));
            }
        }
        assert forall|k: int| 0 <= k < j implies !le(left[i + 1], #[trigger] right[k]) by {
            if le(left[i + 1], right[k]) {
                assert(le(v, right[k]));
            }
        }
    }
    assert(left.take(i + 1) =~= left.take(i).push(v));
    assert forall|x: T| #[trigger]
        class_of(next, x) == class_of(left.take(i + 1), x) + class_of(right.take(j), x) by {
        lemma_class_of_push(out, v, x);
        lemma_class_of_push(left.take(i), v, x);
        if equiv(v, x) {
            assert forall|k: int| 0 <= k < right.take(j).len() implies !equiv(
                #[trigger] right.take(j)[k],
                x,
            ) by {
                if equiv(right.take(j)[k], x) {
                    assert(le(v, x) && le(x, right[k]));
                    assert(le(v, right[k]));
                }
            }
            lemma_class_of_none(right.take(j), x);
            assert(class_of(out, x).push(v) =~= class_of(left.take(i), x).push(v) + class_of(
                right.take(j),
                x,
            ));
        }
    }
}

/// Taking the front of `right`, which is strictly below the front of `left`,
/// keeps the output as the loop needs it.
proof fn lemma_take_right<T: PartialOrd>(out: Seq<T>, left: Seq<T>, right: Seq<T>, i: int, j: int)
    requires
        total_order::<T>(),
        sorted(left),
        sorted(right),
        0 <= i < left.len(),
        0 <= j < right.len(),
        merged_so_far(out, left, right, i, j),
        !le(left[i], right[j]),
    ensures
        merged_so_far(out.push(right[j]), left, right, i, j + 1),
{
    let v = right[j];
    let next = out.push(v);
    assert(sorted(next));
    assert(le(v, left[i]));
    if j + 1 < right.len() {
        assert(le(v, right[j + 1]));
        assert forall|k: int| 0 <= k < next.len() implies le(#[trigger] next[k], right[j + 1]) by {
            if k < out.len() {
                assert(le(out[k], v));
            }
        }
    }
    assert(right.take(j + 1) =~= right.take(j).push(v));
    assert forall|x: T| #[trigger]
        class_of(next, x) == class_of(left.take(i), x) + class_of(right.take(j + 1), x) by {
        lemma_class_of_push(out, v, x);
        lemma_class_of_push(right.take(j), v, x);
        if equiv(v, x) {
            assert(class_of(out, x).push(v) =~= class_of(left.take(i), x) + class_of(
                right.take(j),
                x,
            ).push(v));
        }
    }
}

/// The multiset of a sequence is that of a prefix together with that of the
/// rest.
proof fn lemma_split_multiset<T>(s: Seq<T>, i: int)
    requires
        0 <= i <= s.len(),
    ensures
        s.to_multiset() == s.take(i).to_multiset().add(s.skip(i).to_multiset()),
{
    assert(s =~= s.take(i) + s.skip(i));
    lemma_multiset_commutative(s.take(i), s.skip(i));
}

/// Once one input is used up, the output followed by the rest of the other
/// input holds exactly the elements of both inputs.
proof fn lemma_rest_multiset<T>(out: Seq<T>, left: Seq<T>, right: Seq<T>, i: int, j: int)
    requires
        0 <= i <= left.len(),
        0 <= j <= right.len(),
        out.to_multiset() == left.take(i).to_multiset().add(right.take(j).to_multiset()),
    ensures
        (out + left.skip(i) + right.skip(j)).to_multiset() == left.to_multiset().add(
            right.to_multiset(),
        ),
{
    lemma_multiset_commutative(out, left.skip(i));
    lemma_multiset_commutative(out + left.skip(i), right.skip(j));
    lemma_split_multiset(left, i);
    lemma_split_multiset(right, j);
    assert((out + left.skip(i) + right.skip(j)).to_multiset() =~= left.to_multiset().add(
        right.to_multiset(),
    ));
}

/// Once one input is used up, the output followed by the rest of the other
/// input is the stable sort of `left` followed by `right`.
proof fn lemma_rest_sorted<T: PartialOrd>(out: Seq<T>, left: Seq<T>, right: Seq<T>, i: int, j: int)
    requires
        total_order::<T>(),
        sorted(left),
        sorted(right),
        0 <= i <= left.len(),
        0 <= j <= right.len(),
        i == left.len() || j == right.len(),
        merged_so_far(out, left, right, i, j),
    ensures
        stable_sort_of(out + left.skip(i) + right.skip(j), left + right),
{
    let all = out + left.skip(i) + right.skip(j);
    assert forall|a: int, b: int| 0 <= a < b < all.len() implies le(
        #[trigger] all[a],
        #[trigger] all[b],
    ) by {
        if b < out.len() {
            assert(le(out[a], out[b]));
        } else if i < left.len() {
            let m = b - out.len() + i;
            assert(all[b] == left[m]);
            assert(le(left[i], left[i]));
            assert(le(left[i], left[m]));
            if a < out.len() {
                assert(le(out[a], left[i]));
            } else {
                assert(all[a] == left[a - out.len() + i]);
            }
        } else if j < right.len() {
            let m = b - out.len() + j;
            assert(all[b] == right[m]);
            assert(le(right[j], right[j]));
            assert(le(right[j], right[m]));
            if a < out.len() {
                assert(le(out[a], right[j]));
            } else {
                assert(all[a] == right[a - out.len() + j]);
            }
        }
    }
    assert(left =~= left.take(i) + left.skip(i));
    assert(right =~= right.take(j) + right.skip(j));
    assert forall|x: T| #[trigger] class_of(all, x) == class_of(left + right, x) by {
        lemma_class_of_concat(out, left.skip(i), x);
        lemma_class_of_concat(out + left.skip(i), right.skip(j), x);
        lemma_class_of_concat(left, right, x);
        lemma_class_of_concat(left.take(i), left.skip(i), x);
        lemma_class_of_concat(right.take(j), right.skip(j), x);
        let lt = class_of(left.take(i), x);
        let ls = class_of(left.skip(i), x);
        let rt = class_of(right.take(j), x);
        let rs = class_of(right.skip(j), x);
        assert(class_of(out, x) == lt + rt);
        if i < left.len() {
            assert(right.skip(j) =~= Seq::<T>::empty());
            lemma_class_of_none(right.skip(j), x);
            if exists|m: int| i <= m < left.len() && equiv(left[m], x) {
                let m = choose|m: int| i <= m < left.len() && equiv(left[m], x);
                assert(le(left[i], left[i]));
                assert(le(left[i], left[m]));
                assert forall|k: int| 0 <= k < right.take(j).len() implies !equiv(
                    #[trigger] right.take(j)[k],
                    x,
                ) by {
                    if equiv(right.take(j)[k], x) {
                        assert(le(left[m], x) && le(x, right[k]));
                        assert(le(left[m], right[k]));
                        assert(le(left[i], right[k]));
                    }
                }
                lemma_class_of_none(right.take(j), x);
            } else {
                assert forall|k: int| 0 <= k < left.skip(i).len() implies !equiv(
                    #[trigger] left.skip(i)[k],
                    x,
                ) by {
                    assert(left.skip(i)[k] == left[k + i]);
                }
                lemma_class_of_none(left.skip(i), x);
            }
            assert(lt + rt + ls + rs =~= lt + ls + (rt + rs));
        } else {
            assert(left.skip(i) =~= Seq::<T>::empty());
            lemma_class_of_none(left.skip(i), x);
            assert(lt + rt + ls + rs =~= lt + ls + (rt + rs));
        }
    }
}

/// Merges two sequences into one by repeatedly taking the smaller of the two
/// front elements, the left one where they compare equal, and appending what
/// remains of one sequence once the other is used up.
///
/// The two lengths together must fit in a `usize`.
///
/// The result always holds exactly the elements of both inputs. Where the
/// element type is totally ordered and both inputs are ascending, the result
/// is the stable sort of `left` followed by `right`: it is ascending, and among
/// elements that compare equal those of `left` come first, each group in the
/// order that it had.
pub fn merge<T: PartialOrd + Copy>(left: Vec<T>, right: Vec<T>) -> (result: Vec<T>)
    requires
        left@.len() + right@.len() <= usize::MAX,
    ensures
        result@.len() == left@.len() + right@.len(),
        result@.to_multiset() == left@.to_multiset().add(right@.to_multiset()),
        total_order::<T>() && sorted(left@) && sorted(right@) ==> stable_sort_of(
            result@,
            left@ + right@,
        ),
{
    let mut result: Vec<T> = Vec::with_capacity(left.len() + right.len());
    let mut i: usize = 0;
    let mut j: usize = 0;
    let ghost ordered = total_order::<T>() && sorted(left@) && sorted(right@);
    proof {
        lemma_start(left@, right@);
    }
    while i < left.len() && j < right.len()
        invariant
            i <= left@.len(),
            j <= right@.len(),
            ordered == (total_order::<T>() && sorted(left@) && sorted(right@)),
            result@.len() == i + j,
            result@.to_multiset() == left@.take(i as int).to_multiset().add(
                right@.take(j as int).to_multiset(),
            ),
            ordered ==> merged_so_far(result@, left@, right@, i as int, j as int),
        decreases left@.len() - i + right@.len() - j,
    {
        let ghost out = result@;
        if left[i] <= right[j] {
            result.push(left[i]);
            proof {
                out.to_multiset_ensures();
                lemma_take_next_multiset(left@, i as int);
                assert(result@.to_multiset() =~= left@.take(i + 1).to_multiset().add(
                    right@.take(j as int).to_multiset(),
                ));
                if ordered {
                    lemma_take_left(out, left@, right@, i as int, j as int);
                }
            }
            i += 1;
        } else {
            result.push(right[j]);
            proof {
                out.to_multiset_ensures();
                lemma_take_next_multiset(right@, j as int);
                assert(result@.to_multiset() =~= left@.take(i as int).to_multiset().add(
                    right@.take(j + 1).to_multiset(),
                ));
                if ordered {
                    lemma_take_right(out, left@, right@, i as int, j as int);
                }
            }
            j += 1;
        }
    }
    let ghost out = result@;
    if i < left.len() {
        append_tail(&mut result, &left, i);
    }
    if j < right.len() {
        append_tail(&mut result, &right, j);
    }
    proof {
        assert(result@ =~= out + left@.skip(i as int) + right@.skip(j as int));
        lemma_rest_multiset(out, left@, right@, i as int, j as int);
        if ordered {
            lemma_rest_sorted(out, left@, right@, i as int, j as int);
        }
    }
    result
}

/// In the stable sort of `left` followed by `right`, the elements that
/// compare equal to a value are those of `left`, in their order, followed by
/// those of `right`, in theirs: on ties the left input goes first.
pub proof fn lemma_ties_take_left_first<T: PartialOrd>(
    result: Seq<T>,
    left: Seq<T>,
    right: Seq<T>,
    x: T,
)
    requires
        stable_sort_of(result, left + right),
    ensures
        class_of(result, x) == class_of(left, x) + class_of(right, x),
{
    lemma_class_of_concat(left, right, x);
    assert(class_of(result, x) == class_of(left + right, x));
}

} // verus!
