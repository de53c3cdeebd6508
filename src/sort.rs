//! The sorting routines under one roof.

use crate::heap::BinaryHeap;
use crate::order::{clone_is_exact, is_order, lt, sorted_by};
use std::cmp::Ordering;
use vstd::multiset::Multiset;
use vstd::prelude::*;

verus! {

/// How quicksort splits a slice around its pivot.
pub enum PartitionScheme {
    Lomuto,
    Hoare,
}

/// Sorts `arr` by `cmp` in place with quicksort and the given partition scheme.
pub fn quicksort<T, F>(arr: &mut [T], cmp: &F, scheme: PartitionScheme)
    where
        T: PartialOrd,
        F: Fn(&T, &T) -> Ordering,
    requires
        is_order(cmp),
    ensures
        sorted_by(cmp, final(arr)@),
        final(arr)@.to_multiset() == old(arr)@.to_multiset(),
{
    let scheme = match scheme {
        PartitionScheme::Lomuto => crate::qsort::PartitionScheme::Lomuto,
        PartitionScheme::Hoare => crate::qsort::PartitionScheme::Hoare,
    };
    crate::qsort::quicksort(arr, cmp, scheme)
}

/// Returns the elements of `arr` sorted by `cmp`.
pub fn mergesort<T, F>(arr: &[T], cmp: &F) -> (r: Vec<T>)
    where
        T: PartialOrd + Copy + Clone,
        F: Fn(&T, &T) -> Ordering,
    requires
        is_order(cmp),
    ensures
        sorted_by(cmp, r@),
        r@.to_multiset() == arr@.to_multiset(),
{
    crate::mergesort::mergesort(arr, cmp)
}

/// Sorts `arr` by `cmp` in place, by exchange.
pub fn bubblesort<T, F>(arr: &mut [T], cmp: &F)
    where
        T: PartialOrd,
        F: Fn(&T, &T) -> Ordering,
    requires
        is_order(cmp),
    ensures
        sorted_by(cmp, final(arr)@),
        final(arr)@.to_multiset() == old(arr)@.to_multiset(),
{
    crate::simple::bubble_sort(arr, cmp)
}

/// Sorts `arr` by `cmp` in place, by insertion.
pub fn insertionsort<T, F>(arr: &mut [T], cmp: &F)
    where
        T: PartialOrd,
        F: Fn(&T, &T) -> Ordering,
    requires
        is_order(cmp),
    ensures
        sorted_by(cmp, final(arr)@),
        final(arr)@.to_multiset() == old(arr)@.to_multiset(),
{
    crate::simple::insertion_sort(arr, cmp)
}

/// Sorts `arr` by `cmp` in place, by selection.
pub fn selectionsort<T, F>(arr: &mut [T], cmp: &F)
    where
        T: PartialOrd,
        F: Fn(&T, &T) -> Ordering,
    requires
        is_order(cmp),
    ensures
        sorted_by(cmp, final(arr)@),
        final(arr)@.to_multiset() == old(arr)@.to_multiset(),
{
    crate::simple::selection_sort(arr, cmp)
}

/// Sorts `arr` by `cmp` in place: the elements go into a binary heap, which
/// hands them back first to last.
pub fn heapsort<T, F>(arr: &mut [T], cmp: &F)
    where
        T: PartialOrd + Clone,
        F: Fn(&T, &T) -> Ordering,
    requires
        is_order(cmp),
        clone_is_exact::<T>(),
    ensures
        sorted_by(cmp, final(arr)@),
        final(arr)@.to_multiset() == old(arr)@.to_multiset(),
{
    broadcast use vstd::seq_lib::group_to_multiset_ensures;
    broadcast use vstd::multiset::group_multiset_axioms;

    let n = arr.len();
    let mut copy: Vec<T> = Vec::new();
    let mut i: usize = 0;
    while i < n
        invariant
            i <= n,
            n == arr@.len(),
            clone_is_exact::<T>(),
            copy@ == arr@.subrange(0, i as int),
        decreases n - i,
    {
        let x = arr[i].clone();
        assert(vstd::pervasive::cloned(arr@[i as int], x));
        copy.push(x);
        assert(copy@ =~= arr@.subrange(0, i + 1));
        i = i + 1;
    }
    assert(copy@ =~= arr@);
    let mut heap = BinaryHeap::from_vec(copy, cmp);
    let mut sorted = heap.pop_all();
    let ghost all = sorted@;
    proof {
        assert(all.to_multiset().len() == n);
    }
    let mut k: usize = n;
    while k > 0
        invariant
            k <= n,
            n == arr@.len(),
            all.len() == n,
            sorted@ == all.subrange(0, k as int),
            forall|q: int| k <= q < n ==> #[trigger] arr@[q] == all[q],
        decreases k,
    {
        let x = sorted.pop().unwrap();
        k = k - 1;
        arr[k] = x;
        assert(sorted@ =~= all.subrange(0, k as int));
    }
    proof {
        assert(arr@ =~= all);
    }
}

} // verus!
