//! The quadratic sorting algorithms.

use crate::order::{is_order, less, lt, sorted_by, lemma_swap_multiset};
use std::cmp::Ordering;
use vstd::prelude::*;

verus! {

/// Sorts `arr` by `cmp` by insertion: each element in turn moves left past
/// the elements that `cmp` puts after it.
pub fn insertion_sort<T, F>(arr: &mut [T], cmp: &F)
    where
        T: PartialOrd,
        F: Fn(&T, &T) -> Ordering,
    requires
        is_order(cmp),
    ensures
        sorted_by(cmp, final(arr)@),
        final(arr)@.to_multiset() == old(arr)@.to_multiset(),
{
    let n = arr.len();
    if n == 0 {
        return;
    }
    let mut i: usize = 1;
    while i < n
        invariant
            1 <= i <= n,
            n == arr@.len(),
            is_order(cmp),
            arr@.to_multiset() == old(arr)@.to_multiset(),
            forall|a: int, b: int| 0 <= a < b < i ==> !lt(cmp, #[trigger] arr@[b], #[trigger] arr@[a]),
        decreases n - i,
    {
        let mut j: usize = i;
        let mut placed = false;
        while j > 0 && !placed
            invariant
                placed ==> forall|a: int, b: int|
                    0 <= a < b <= i ==> !lt(cmp, #[trigger] arr@[b], #[trigger] arr@[a]),
                1 <= i < n,
                j <= i,
                n == arr@.len(),
                is_order(cmp),
                arr@.to_multiset() == old(arr)@.to_multiset(),
                forall|a: int, b: int|
                    0 <= a < b <= i && a != j && b != j ==> !lt(cmp, #[trigger] arr@[b], #[trigger] arr@[a]),
                forall|b: int| j < b <= i ==> !lt(cmp, #[trigger] arr@[b], arr@[j as int]),
            decreases j + if placed {
                0int
            } else {
                1int
            },
        {
            if less(cmp, &arr[j], &arr[j - 1]) {
                proof {
                    lemma_swap_multiset(arr@, j as int, j - 1);
                }
                arr.swap(j, j - 1);
                j = j - 1;
            } else {
                proof {
                    let s = arr@;
                    assert forall|a: int, b: int| 0 <= a < b <= i implies !lt(cmp, #[trigger] s[b], #[trigger] s[a]) by {
                        if b == j && a < j - 1 {
                            assert(!lt(cmp, s[j as int - 1], s[a]));
                        }
                    }
                }
                placed = true;
            }
        }
        proof {
            if !placed {
                assert forall|a: int, b: int| 0 <= a < b <= i implies !lt(cmp, #[trigger] arr@[b], #[trigger] arr@[a]) by {
                    if a == 0 {
                        assert(!lt(cmp, arr@[b], arr@[0]));
                    }
                }
            }
        }
        i = i + 1;
    }
}

/// Sorts `arr` by `cmp` by selection: each position in turn receives the
/// first least element of the part not yet sorted.
pub fn selection_sort<T, F>(arr: &mut [T], cmp: &F)
    where
        T: PartialOrd,
        F: Fn(&T, &T) -> Ordering,
    requires
        is_order(cmp),
    ensures
        sorted_by(cmp, final(arr)@),
        final(arr)@.to_multiset() == old(arr)@.to_multiset(),
{
    let n = arr.len();
    let mut i: usize = 0;
    while i < n
        invariant
            i <= n,
            n == arr@.len(),
            is_order(cmp),
            arr@.to_multiset() == old(arr)@.to_multiset(),
            forall|a: int, b: int| 0 <= a < b < i ==> !lt(cmp, #[trigger] arr@[b], #[trigger] arr@[a]),
            forall|a: int, b: int| 0 <= a < i <= b < n ==> !lt(cmp, #[trigger] arr@[b], #[trigger] arr@[a]),
        decreases n - i,
    {
        let mut swap: usize = i;
        let mut j: usize = i;
        while j < n
            invariant
                i <= swap < n,
                i <= j <= n,
                n == arr@.len(),
                is_order(cmp),
                forall|k: int| i <= k < j ==> !lt(cmp, #[trigger] arr@[k], arr@[swap as int]),
            decreases n - j,
        {
            if less(cmp, &arr[j], &arr[swap]) {
                proof {
                    assert forall|k: int| i <= k < j implies !lt(cmp, #[trigger] arr@[k], arr@[j as int]) by {
                        if lt(cmp, arr@[k], arr@[j as int]) {
                            assert(lt(cmp, arr@[k], arr@[swap as int]));
                        }
                    }
                }
                swap = j;
            }
            j = j + 1;
        }
        proof {
            lemma_swap_multiset(arr@, i as int, swap as int);
        }
        let ghost before = arr@;
        arr.swap(i, swap);
        proof {
            assert forall|a: int, b: int| 0 <= a < i + 1 <= b < n implies !lt(cmp, #[trigger] arr@[b], #[trigger] arr@[a]) by {
                if b == swap {
                    assert(arr@[b] == before[i as int]);
                } else {
                    assert(arr@[b] == before[b]);
                }
            }
        }
        i = i + 1;
    }
}

/// Sorts `arr` by `cmp` by exchange: each pass carries a greatest element of
/// the unsorted front to the start of the sorted back.
pub fn bubble_sort<T, F>(arr: &mut [T], cmp: &F)
    where
        T: PartialOrd,
        F: Fn(&T, &T) -> Ordering,
    requires
        is_order(cmp),
    ensures
        sorted_by(cmp, final(arr)@),
        final(arr)@.to_multiset() == old(arr)@.to_multiset(),
{
    let n = arr.len();
    let mut i: usize = 0;
    while i < n
        invariant
            i <= n,
            n == arr@.len(),
            is_order(cmp),
            arr@.to_multiset() == old(arr)@.to_multiset(),
            forall|a: int, b: int| n - i <= a < b < n ==> !lt(cmp, #[trigger] arr@[b], #[trigger] arr@[a]),
            forall|a: int, b: int| 0 <= a < n - i <= b < n ==> !lt(cmp, #[trigger] arr@[b], #[trigger] arr@[a]),
        decreases n - i,
    {
        let end = n - i - 1;
        let mut j: usize = 0;
        while j < end
            invariant
                i < n,
                end == n - i - 1,
                j <= end,
                n == arr@.len(),
                is_order(cmp),
                arr@.to_multiset() == old(arr)@.to_multiset(),
                forall|a: int, b: int| n - i <= a < b < n ==> !lt(cmp, #[trigger] arr@[b], #[trigger] arr@[a]),
                forall|a: int, b: int| 0 <= a < n - i <= b < n ==> !lt(cmp, #[trigger] arr@[b], #[trigger] arr@[a]),
                forall|k: int| 0 <= k <= j ==> !lt(cmp, arr@[j as int], #[trigger] arr@[k]),
            decreases end - j,
        {
            let ghost before = arr@;
            if less(cmp, &arr[j + 1], &arr[j]) {
                proof {
                    lemma_swap_multiset(arr@, j as int, j + 1);
                }
                arr.swap(j, j + 1);
                proof {
                    assert forall|a: int, b: int| 0 <= a < n - i <= b < n implies !lt(cmp, #[trigger] arr@[b], #[trigger] arr@[a]) by {
                        if a == j {
                            assert(arr@[a] == before[j + 1]);
                        } else if a == j + 1 {
                            assert(arr@[a] == before[j as int]);
                        }
                    }
                    assert forall|k: int| 0 <= k <= j + 1 implies !lt(cmp, arr@[j + 1], #[trigger] arr@[k]) by {
                        if k < j {
                            assert(!lt(cmp, before[j as int], before[k]));
                        } else if k == j {
                            assert(!lt(cmp, before[j as int], before[j + 1]));
                        }
                    }
                }
            } else {
                proof {
                    assert forall|k: int| 0 <= k <= j + 1 implies !lt(cmp, arr@[j + 1], #[trigger] arr@[k]) by {
                        if k <= j {
                            assert(!lt(cmp, arr@[j as int], arr@[k]));
                            assert(!lt(cmp, arr@[j + 1], arr@[j as int]));
                        }
                    }
                }
            }
            j = j + 1;
        }
        proof {
            assert forall|a: int, b: int| n - (i + 1) <= a < b < n implies !lt(cmp, #[trigger] arr@[b], #[trigger] arr@[a]) by {
            }
            assert forall|a: int, b: int| 0 <= a < n - (i + 1) <= b < n implies !lt(cmp, #[trigger] arr@[b], #[trigger] arr@[a]) by {
                if b == end {
                    assert(!lt(cmp, arr@[end as int], arr@[a]));
                }
            }
        }
        i = i + 1;
    }
}

} // verus!
