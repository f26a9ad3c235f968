//! The ordering that the sorting functions work with, and what it means for a
//! sequence to be sorted and to be a stable rearrangement of another.

use vstd::prelude::*;
use vstd::std_specs::cmp::PartialOrdIs;
use vstd::std_specs::cmp::PartialOrdSpec;

verus! {

/// `a` is less than or equal to `b` under the element type's comparison.
pub open spec fn le<T: PartialOrd>(a: T, b: T) -> bool {
    a.is_le(&b)
}

/// `a` and `b` compare equal: each is less than or equal to the other.
pub open spec fn equiv<T: PartialOrd>(a: T, b: T) -> bool {
    le(a, b) && le(b, a)
}

/// The values of `T` are totally ordered by its comparison: the comparison
/// that runs is the one that `le` describes, any two values are comparable,
/// and the comparison is transitive. Values that compare equal need not be
/// the same value.
pub open spec fn total_order<T: PartialOrd>() -> bool {
    &&& T::obeys_partial_cmp_spec()
    &&& forall|a: T, b: T| #[trigger] le(a, b) || le(b, a)
    &&& forall|a: T, b: T, c: T| #[trigger] le(a, b) && #[trigger] le(b, c) ==> le(a, c)
}

/// The sequence is in ascending order: every element is less than or equal to
/// every element that comes after it.
pub open spec fn sorted<T: PartialOrd>(s: Seq<T>) -> bool {
    forall|i: int, j: int| 0 <= i < j < s.len() ==> le(#[trigger] s[i], #[trigger] s[j])
}

/// The predicate "compares equal to `x`".
pub open spec fn in_class<T: PartialOrd>(x: T) -> spec_fn(T) -> bool {
    |y: T| equiv(y, x)
}

/// The elements of `s` that compare equal to `x`, in the order in which they
/// stand in `s`.
pub open spec fn class_of<T: PartialOrd>(s: Seq<T>, x: T) -> Seq<T> {
    s.filter(in_class(x))
}

/// `r` is the stable sort of `s`: it is in ascending order, and for every
/// value, the elements that compare equal to it are the same in `r` as in `s`
/// and stand in the same order. Elements that compare equal are thus never
/// exchanged. In a totally ordered type `r` is then a permutation of `s`, and
/// no other sequence is a stable sort of `s`.
pub open spec fn stable_sort_of<T: PartialOrd>(r: Seq<T>, s: Seq<T>) -> bool {
    &&& sorted(r)
    &&& forall|x: T| #[trigger] class_of(r, x) == class_of(s, x)
}

/// Appending an element extends the class of `x` by that element if it
/// compares equal to `x`, and leaves it as it was otherwise.
pub proof fn lemma_class_of_push<T: PartialOrd>(s: Seq<T>, v: T, x: T)
    ensures
        class_of(s.push(v), x) == if equiv(v, x) {
            class_of(s, x).push(v)
        } else {
            class_of(s, x)
        },
{
    reveal(Seq::filter);
    assert(s.push(v).drop_last() =~= s);
}

/// A sequence in which nothing compares equal to `x` has an empty class of `x`.
pub proof fn lemma_class_of_none<T: PartialOrd>(s: Seq<T>, x: T)
    requires
        forall|k: int| 0 <= k < s.len() ==> !equiv(#[trigger] s[k], x),
    ensures
        class_of(s, x) == Seq::<T>::empty(),
    decreases s.len(),
{
    reveal(Seq::filter);
    if s.len() > 0 {
        lemma_class_of_none(s.drop_last(), x);
    }
}

/// The class of `x` in a concatenation is the concatenation of the classes.
pub proof fn lemma_class_of_concat<T: PartialOrd>(a: Seq<T>, b: Seq<T>, x: T)
    ensures
        class_of(a + b, x) == class_of(a, x) + class_of(b, x),
{
    Seq::filter_distributes_over_add(a, b, in_class(x));
}

/// In a totally ordered type every value compares equal to itself.
pub proof fn lemma_equiv_reflexive<T: PartialOrd>(x: T)
    requires
        total_order::<T>(),
    ensures
        equiv(x, x),
{
    assert(le(x, x) || le(x, x));
}

/// An ascending sequence that is not empty ends in an element of its greatest
/// class: the class of its last element ends in that element, and every
/// element of the sequence is less than or equal to it.
proof fn lemma_last_of_sorted<T: PartialOrd>(s: Seq<T>)
    requires
        total_order::<T>(),
        sorted(s),
        s.len() > 0,
    ensures
        class_of(s, s.last()) == class_of(s.drop_last(), s.last()).push(s.last()),
        forall|e: T| s.contains(e) ==> le(e, s.last()),
{
    let v = s.last();
    lemma_equiv_reflexive(v);
    assert(s.drop_last().push(v) =~= s);
    lemma_class_of_push(s.drop_last(), v, v);
    assert forall|e: T| s.contains(e) implies le(e, v) by {
        let k = choose|k: int| 0 <= k < s.len() && s[k] == e;
        if k < s.len() - 1 {
            assert(le(s[k], s[s.len() - 1]));
        }
    }
}

/// Two ascending sequences that hold every class alike are equal.
pub proof fn lemma_same_classes_equal<T: PartialOrd>(a: Seq<T>, b: Seq<T>)
    requires
        total_order::<T>(),
        sorted(a),
        sorted(b),
        forall|x: T| #[trigger] class_of(a, x) == class_of(b, x),
    ensures
        a == b,
    decreases a.len() + b.len(),
{
    if a.len() == 0 && b.len() == 0 {
        assert(a =~= b);
    } else if a.len() == 0 || b.len() == 0 {
        // The last element of the one that is not empty has a class in it,
        // and none in the other.
        let full = if a.len() == 0 { b } else { a };
        let none = if a.len() == 0 { a } else { b };
        let v = full.last();
        lemma_last_of_sorted(full);
        lemma_class_of_none(none, v);
        assert(class_of(a, v) == class_of(b, v));
        assert(class_of(full, v).len() > 0);
    } else {
        let v = a.last();
        let w = b.last();
        let a0 = a.drop_last();
        let b0 = b.drop_last();
        lemma_last_of_sorted(a);
        lemma_last_of_sorted(b);
        // Each last element occurs in the other sequence, so the two compare equal.
        assert(class_of(a, v) == class_of(b, v));
        assert(class_of(a, w) == class_of(b, w));
        assert(class_of(b, v).contains(v)) by {
            assert(class_of(a, v).last() == v);
        }
        assert(class_of(a, w).contains(w)) by {
            assert(class_of(b, w).last() == w);
        }
        b.lemma_filter_contains_rev(in_class(v), v);
        a.lemma_filter_contains_rev(in_class(w), w);
        assert(le(v, w) && le(w, v));
        // Hence both stand last in the same class, and are the same element.
        lemma_class_of_push(b0, w, v);
        assert(b0.push(w) =~= b);
        assert(class_of(b, v).last() == w);
        assert(v == w);
        // Without it, the two sequences still hold every class alike.
        assert(a0.push(v) =~= a);
        assert forall|x: T| #[trigger] class_of(a0, x) == class_of(b0, x) by {
            lemma_class_of_push(a0, v, x);
            lemma_class_of_push(b0, v, x);
            assert(class_of(a, x) == class_of(b, x));
            if equiv(v, x) {
                assert(class_of(a0, x) =~= class_of(a, x).drop_last());
                assert(class_of(b0, x) =~= class_of(b, x).drop_last());
            }
        }
        assert(sorted(a0)) by {
            assert forall|i: int, j: int| 0 <= i < j < a0.len() implies le(
                #[trigger] a0[i],
                #[trigger] a0[j],
            ) by {
                assert(le(a[i], a[j]));
            }
        }
        assert(sorted(b0)) by {
            assert forall|i: int, j: int| 0 <= i < j < b0.len() implies le(
                #[trigger] b0[i],
                #[trigger] b0[j],
            ) by {
                assert(le(b[i], b[j]));
            }
        }
        lemma_same_classes_equal(a0, b0);
    }
}

/// Filtering by a predicate that holds of `e` keeps every occurrence of `e`.
proof fn lemma_filter_keeps_count<T>(s: Seq<T>, p: spec_fn(T) -> bool, e: T)
    requires
        p(e),
    ensures
        s.filter(p).to_multiset().count(e) == s.to_multiset().count(e),
    decreases s.len(),
{
    reveal(Seq::filter);
    if s.len() > 0 {
        let rest = s.drop_last();
        lemma_filter_keeps_count(rest, p, e);
        assert(rest.push(s.last()) =~= s);
        rest.to_multiset_ensures();
        rest.filter(p).to_multiset_ensures();
    }
}

/// The stable sort of a sequence is a permutation of it: each value occurs in
/// the one as often as in the other.
pub proof fn lemma_stable_sort_is_permutation<T: PartialOrd>(r: Seq<T>, s: Seq<T>)
    requires
        total_order::<T>(),
        stable_sort_of(r, s),
    ensures
        r.to_multiset() == s.to_multiset(),
        r.len() == s.len(),
{
    assert forall|e: T| r.to_multiset().count(e) == s.to_multiset().count(e) by {
        lemma_equiv_reflexive(e);
        lemma_filter_keeps_count(r, in_class(e), e);
        lemma_filter_keeps_count(s, in_class(e), e);
        assert(class_of(r, e) == class_of(s, e));
    }
    assert(r.to_multiset() =~= s.to_multiset());
    r.to_multiset_ensures();
    s.to_multiset_ensures();
}

/// A sequence has at most one stable sort.
pub proof fn lemma_stable_sort_unique<T: PartialOrd>(r1: Seq<T>, r2: Seq<T>, s: Seq<T>)
    requires
        total_order::<T>(),
        stable_sort_of(r1, s),
        stable_sort_of(r2, s),
    ensures
        r1 == r2,
{
    assert forall|x: T| #[trigger] class_of(r1, x) == class_of(r2, x) by {
        assert(class_of(r1, x) == class_of(s, x));
        assert(class_of(r2, x) == class_of(s, x));
    }
    lemma_same_classes_equal(r1, r2);
}

/// The stable sort of an ascending sequence is that sequence: sorting what
/// is sorted already changes nothing.
pub proof fn lemma_stable_sort_of_sorted<T: PartialOrd>(r: Seq<T>, s: Seq<T>)
    requires
        total_order::<T>(),
        sorted(s),
        stable_sort_of(r, s),
    ensures
        r == s,
{
    lemma_stable_sort_unique(r, s, s);
}

/// Sorting two parts separately and then sorting the two results, one after
/// the other, gives the stable sort of the two parts, one after the other.
pub proof fn lemma_stable_sort_of_parts<T: PartialOrd>(
    r: Seq<T>,
    ra: Seq<T>,
    rb: Seq<T>,
    a: Seq<T>,
    b: Seq<T>,
)
    requires
        stable_sort_of(ra, a),
        stable_sort_of(rb, b),
        stable_sort_of(r, ra + rb),
    ensures
        stable_sort_of(r, a + b),
{
    assert forall|x: T| #[trigger] class_of(r, x) == class_of(a + b, x) by {
        lemma_class_of_concat(ra, rb, x);
        lemma_class_of_concat(a, b, x);
        assert(class_of(r, x) == class_of(ra + rb, x));
        assert(class_of(ra, x) == class_of(a, x));
        assert(class_of(rb, x) == class_of(b, x));
    }
}

/// The 32-bit signed integers are totally ordered, and their comparison is
/// the order of the integers.
pub proof fn lemma_i32_total_order()
    ensures
        total_order::<i32>(),
        forall|a: i32, b: i32| #[trigger] le(a, b) <==> a <= b,
{
}

} // verus!
