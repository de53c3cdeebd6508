//! Top-down merge sort.

use crate::order::{is_order, less, lt, sorted_by};
use std::cmp::Ordering;
use vstd::prelude::*;

verus! {

/// Returns the elements of `arr` sorted by `cmp`; of elements that `cmp` does
/// not tell apart, those of the first half come first.
pub fn mergesort<T, F>(arr: &[T], cmp: &F) -> (r: Vec<T>)
    where
        T: PartialOrd + Copy + Clone,
        F: Fn(&T, &T) -> Ordering,
    requires
        is_order(cmp),
    ensures
        sorted_by(cmp, r@),
        r@.to_multiset() == arr@.to_multiset(),
    decreases arr@.len(),
{
    if arr.len() < 2 {
        return vstd::slice::slice_to_vec(arr);
    }
    let middle = arr.len() / 2;
    let front = vstd::slice::slice_subrange(arr, 0, middle);
    let back = vstd::slice::slice_subrange(arr, middle, arr.len());
    let left = mergesort(front, cmp);
    let right = mergesort(back, cmp);
    proof {
        broadcast use vstd::seq_lib::lemma_multiset_commutative;
        assert(arr@ =~= front@ + back@);
    }
    mergesort_helper(left, right, cmp)
}

/// Merges two sorted sequences into one; on ties the element of `left` comes
/// first.
fn mergesort_helper<T, F>(left: Vec<T>, right: Vec<T>, cmp: &F) -> (r: Vec<T>)
    where
        T: PartialOrd + Copy + Clone,
        F: Fn(&T, &T) -> Ordering,
    requires
        is_order(cmp),
        sorted_by(cmp, left@),
        sorted_by(cmp, right@),
    ensures
        sorted_by(cmp, r@),
        r@.to_multiset() == left@.to_multiset().add(right@.to_multiset()),
{
    broadcast use vstd::seq_lib::group_to_multiset_ensures;
    broadcast use vstd::multiset::group_multiset_axioms;

    let mut result: Vec<T> = Vec::new();
    let mut i: usize = 0;
    let mut j: usize = 0;
    while i < left.len() || j < right.len()
        invariant
            is_order(cmp),
            sorted_by(cmp, left@),
            sorted_by(cmp, right@),
            i <= left@.len(),
            j <= right@.len(),
            sorted_by(cmp, result@),
            result@.to_multiset() == left@.subrange(0, i as int).to_multiset().add(
                right@.subrange(0, j as int).to_multiset(),
            ),
            i < left@.len() ==> forall|k: int| 0 <= k < result@.len() ==> !lt(cmp, left@[i as int], #[trigger] result@[k]),
            j < right@.len() ==> forall|k: int| 0 <= k < result@.len() ==> !lt(cmp, right@[j as int], #[trigger] result@[k]),
        decreases left@.len() + right@.len() - i - j,
    {
        let take_left = if i < left.len() && j < right.len() {
            !less(cmp, &right[j], &left[i])
        } else {
            i < left.len()
        };
        if take_left {
            let x = left[i];
            proof {
                assert(left@.subrange(0, i + 1) =~= left@.subrange(0, i as int).push(x));
                if i + 1 < left@.len() {
                    assert(!lt(cmp, left@[i + 1], x));
                }
                if j < right@.len() {
                    assert(!lt(cmp, right@[j as int], x));
                }
            }
            let ghost before = result@;
            result.push(x);
            proof {
                assert(result@ == before.push(x));
                vstd::seq_lib::to_multiset_build(before, x);
                vstd::seq_lib::to_multiset_build(left@.subrange(0, i as int), x);
                assert(result@.to_multiset() =~= left@.subrange(0, i + 1).to_multiset().add(
                    right@.subrange(0, j as int).to_multiset(),
                ));
            }
            i = i + 1;
        } else {
            let y = right[j];
            proof {
                assert(right@.subrange(0, j + 1) =~= right@.subrange(0, j as int).push(y));
                if j + 1 < right@.len() {
                    assert(!lt(cmp, right@[j + 1], y));
                }
                if i < left@.len() {
                    assert(lt(cmp, y, left@[i as int]));
                    assert(!lt(cmp, left@[i as int], y));
                }
            }
            let ghost before = result@;
            result.push(y);
            proof {
                assert(result@ == before.push(y));
                vstd::seq_lib::to_multiset_build(before, y);
                vstd::seq_lib::to_multiset_build(right@.subrange(0, j as int), y);
                assert(result@.to_multiset() =~= left@.subrange(0, i as int).to_multiset().add(
                    right@.subrange(0, j + 1).to_multiset(),
                ));
            }
            j = j + 1;
        }
    }
    proof {
        assert(left@.subrange(0, i as int) =~= left@);
        assert(right@.subrange(0, j as int) =~= right@);
    }
    result
}

} // verus!
