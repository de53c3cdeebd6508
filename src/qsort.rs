//! Quicksort on a randomly chosen pivot (Lomuto), or on the first element
//! with two indices closing in from both ends (Hoare).

use crate::order::{is_order, less, lemma_swap_multiset, lt, sorted_by};
use rand::distributions::{Distribution, Uniform};
use rand::rngs::ThreadRng;
use std::cmp::Ordering;
use vstd::prelude::*;

verus! {

/// rand's handle on the thread's random generator, carried through unopened.
#[verifier::external_type_specification]
#[verifier::external_body]
pub struct ExThreadRng(rand::rngs::ThreadRng);

/// Relies on `rand::thread_rng`: a handle on the thread's random generator.
pub assume_specification[ rand::thread_rng ]() -> rand::rngs::ThreadRng;

/// Relies on rand's `Uniform::from(0..n).sample(rng)`: a value drawn from the
/// half-open range `0..n`; `Uniform::new` panics on an empty range.
#[verifier::external_body]
fn random_index(rng: &mut ThreadRng, n: usize) -> (r: usize)
    requires
        n > 0,
    ensures
        r < n,
{
    Uniform::from(0..n).sample(rng)
}

/// How quicksort splits a slice around its pivot.
pub enum PartitionScheme {
    Lomuto,
    Hoare,
}

/// `s[lo..hi]` is sorted by `cmp`.
pub open spec fn seg_sorted<T, F: Fn(&T, &T) -> Ordering>(cmp: &F, s: Seq<T>, lo: int, hi: int) -> bool {
    forall|a: int, b: int| lo <= a < b < hi ==> !lt(cmp, #[trigger] s[b], #[trigger] s[a])
}

/// `s1` and `s2` have one length and agree outside `lo..hi`.
pub open spec fn same_outside<T>(s1: Seq<T>, s2: Seq<T>, lo: int, hi: int) -> bool {
    &&& s1.len() == s2.len()
    &&& forall|k: int| 0 <= k < s1.len() && !(lo <= k < hi) ==> #[trigger] s1[k] == s2[k]
}

/// `s1[lo..hi]` and `s2[lo..hi]` hold the same elements.
pub open spec fn seg_perm<T>(s1: Seq<T>, s2: Seq<T>, lo: int, hi: int) -> bool {
    s1.subrange(lo, hi).to_multiset() == s2.subrange(lo, hi).to_multiset()
}

/// Exchanging two elements of `lo..hi` keeps the elements of that range and
/// everything outside it.
proof fn lemma_swap_segment<T>(s: Seq<T>, lo: int, hi: int, a: int, b: int)
    requires
        0 <= lo <= a < hi <= s.len(),
        lo <= b < hi,
    ensures
        seg_perm(s.update(a, s[b]).update(b, s[a]), s, lo, hi),
        same_outside(s.update(a, s[b]).update(b, s[a]), s, lo, hi),
{
    let seg = s.subrange(lo, hi);
    lemma_swap_multiset(seg, a - lo, b - lo);
    assert(s.update(a, s[b]).update(b, s[a]).subrange(lo, hi) =~= seg.update(a - lo, seg[b - lo]).update(
        b - lo,
        seg[a - lo],
    ));
}

/// Every element of `s2[lo..hi]` is an element of `s1[lo..hi]` when the two
/// ranges hold the same elements.
proof fn lemma_perm_member<T>(s1: Seq<T>, s2: Seq<T>, lo: int, hi: int, k: int)
    requires
        0 <= lo <= k < hi <= s1.len(),
        hi <= s2.len(),
        seg_perm(s2, s1, lo, hi),
    ensures
        exists|k0: int| lo <= k0 < hi && s1[k0] == s2[k],
{
    broadcast use vstd::seq_lib::group_to_multiset_ensures;

    let x = s2[k];
    assert(s2.subrange(lo, hi)[k - lo] == x);
    assert(s2.subrange(lo, hi).contains(x));
    assert(s1.subrange(lo, hi).to_multiset().contains(x));
    assert(s1.subrange(lo, hi).contains(x));
    let q = choose|q: int| 0 <= q < hi - lo && s1.subrange(lo, hi)[q] == x;
    assert(s1[lo + q] == x);
}

/// Joins the element lists of three adjacent ranges.
proof fn lemma_perm_join<T>(s1: Seq<T>, s2: Seq<T>, lo: int, mid: int, hi: int)
    requires
        0 <= lo <= mid < hi <= s1.len(),
        s1.len() == s2.len(),
        seg_perm(s1, s2, lo, mid),
        s1[mid] == s2[mid],
        seg_perm(s1, s2, mid + 1, hi),
    ensures
        seg_perm(s1, s2, lo, hi),
{
    broadcast use vstd::seq_lib::lemma_multiset_commutative;

    assert(s1.subrange(lo, hi) =~= s1.subrange(lo, mid) + (seq![s1[mid]] + s1.subrange(mid + 1, hi)));
    assert(s2.subrange(lo, hi) =~= s2.subrange(lo, mid) + (seq![s2[mid]] + s2.subrange(mid + 1, hi)));
}

/// Given a pivot at `p` with the elements before it strictly below it and the
/// elements after it not below it, sorting both sides sorts `lo..hi`.
proof fn lemma_sorted_join<T, F: Fn(&T, &T) -> Ordering>(cmp: &F, s: Seq<T>, lo: int, p: int, hi: int)
    requires
        is_order(cmp),
        0 <= lo <= p < hi <= s.len(),
        seg_sorted(cmp, s, lo, p),
        seg_sorted(cmp, s, p + 1, hi),
        forall|k: int| lo <= k < p ==> lt(cmp, #[trigger] s[k], s[p]),
        forall|k: int| p < k < hi ==> !lt(cmp, #[trigger] s[k], s[p]),
    ensures
        seg_sorted(cmp, s, lo, hi),
{
    assert forall|a: int, b: int| lo <= a < b < hi implies !lt(cmp, #[trigger] s[b], #[trigger] s[a]) by {
        if a < p && b == p {
            assert(lt(cmp, s[a], s[p]));
        } else if a < p && b > p {
            assert(lt(cmp, s[a], s[p]));
            assert(!lt(cmp, s[b], s[p]));
        }
    }
}

/// Sorts `arr[lo..hi]` by `cmp`, partitioning around a random pivot that is
/// first moved to the end of the range.
fn quicksort_lomuto<T, F>(arr: &mut [T], lo: usize, hi: usize, rng: &mut ThreadRng, cmp: &F)
    where
        T: PartialOrd,
        F: Fn(&T, &T) -> Ordering,
    requires
        is_order(cmp),
        lo <= hi <= old(arr)@.len(),
    ensures
        same_outside(final(arr)@, old(arr)@, lo as int, hi as int),
        seg_perm(final(arr)@, old(arr)@, lo as int, hi as int),
        seg_sorted(cmp, final(arr)@, lo as int, hi as int),
    decreases hi - lo,
{
    if hi - lo <= 1 {
        return;
    }
    let ghost s0 = arr@;
    let pivot = lo + random_index(rng, hi - lo);
    let last = hi - 1;
    proof {
        lemma_swap_segment(arr@, lo as int, hi as int, pivot as int, last as int);
    }
    arr.swap(pivot, last);
    let mut i: usize = lo;
    let mut j: usize = lo;
    while j < last
        invariant
            is_order(cmp),
            lo <= i <= j <= last,
            last == hi - 1,
            hi <= arr@.len(),
            same_outside(arr@, s0, lo as int, hi as int),
            seg_perm(arr@, s0, lo as int, hi as int),
            forall|k: int| lo <= k < i ==> lt(cmp, #[trigger] arr@[k], arr@[last as int]),
            forall|k: int| i <= k < j ==> !lt(cmp, #[trigger] arr@[k], arr@[last as int]),
        decreases last - j,
    {
        if less(cmp, &arr[j], &arr[last]) {
            let ghost before = arr@;
            proof {
                lemma_swap_segment(arr@, lo as int, hi as int, i as int, j as int);
            }
            arr.swap(i, j);
            proof {
                assert(arr@[last as int] == before[last as int]);
                assert forall|k: int| i + 1 <= k < j + 1 implies !lt(cmp, #[trigger] arr@[k], arr@[last as int]) by {
                    if k == j {
                        assert(arr@[k] == before[i as int]);
                    }
                }
            }
            i = i + 1;
        }
        j = j + 1;
    }
    let ghost before = arr@;
    proof {
        lemma_swap_segment(arr@, lo as int, hi as int, i as int, last as int);
    }
    arr.swap(i, last);
    let ghost s1 = arr@;
    proof {
        assert forall|k: int| i < k < hi implies !lt(cmp, #[trigger] s1[k], s1[i as int]) by {
            if k == last {
                assert(s1[k] == before[i as int]);
            }
        }
    }
    quicksort_lomuto(arr, lo, i, rng, cmp);
    let ghost s2 = arr@;
    quicksort_lomuto(arr, i + 1, hi, rng, cmp);
    proof {
        lemma_after_recursion(cmp, s1, s2, arr@, lo as int, i as int, hi as int);
    }
}

/// After a partition of `lo..hi` around the pivot at `p`, and after sorting
/// `lo..p` (giving `s2`) and then `p + 1..hi` (giving `s3`), the whole range
/// is sorted and holds the elements it held after the partition (`s1`).
proof fn lemma_after_recursion<T, F: Fn(&T, &T) -> Ordering>(
    cmp: &F,
    s1: Seq<T>,
    s2: Seq<T>,
    s3: Seq<T>,
    lo: int,
    p: int,
    hi: int,
)
    requires
        is_order(cmp),
        0 <= lo <= p < hi <= s1.len(),
        forall|k: int| lo <= k < p ==> lt(cmp, #[trigger] s1[k], s1[p]),
        forall|k: int| p < k < hi ==> !lt(cmp, #[trigger] s1[k], s1[p]),
        same_outside(s2, s1, lo, p),
        seg_perm(s2, s1, lo, p),
        seg_sorted(cmp, s2, lo, p),
        same_outside(s3, s2, p + 1, hi),
        seg_perm(s3, s2, p + 1, hi),
        seg_sorted(cmp, s3, p + 1, hi),
    ensures
        seg_perm(s3, s1, lo, hi),
        seg_sorted(cmp, s3, lo, hi),
{
    assert(s3[p] == s1[p]);
    assert forall|k: int| lo <= k < p implies lt(cmp, #[trigger] s3[k], s3[p]) by {
        assert(s3[k] == s2[k]);
        lemma_perm_member(s1, s2, lo, p, k);
    }
    assert forall|k: int| p < k < hi implies !lt(cmp, #[trigger] s3[k], s3[p]) by {
        lemma_perm_member(s2, s3, p + 1, hi, k);
        let k0 = choose|k0: int| p + 1 <= k0 < hi && s2[k0] == s3[k];
        assert(s2[k0] == s1[k0]);
    }
    assert(seg_sorted(cmp, s3, lo, p)) by {
        assert forall|a: int, b: int| lo <= a < b < p implies !lt(cmp, #[trigger] s3[b], #[trigger] s3[a]) by {
            assert(s3[a] == s2[a] && s3[b] == s2[b]);
        }
    }
    lemma_sorted_join(cmp, s3, lo, p, hi);
    assert(s3.subrange(lo, p) =~= s2.subrange(lo, p));
    assert(s2.subrange(p + 1, hi) =~= s1.subrange(p + 1, hi));
    lemma_perm_join(s3, s1, lo, p, hi);
}

/// Sorts `arr[lo..hi]` by `cmp` around its first element: one index climbs
/// past the elements below the pivot, the other descends past those not
/// below it, and misplaced pairs trade places.
fn quicksort_hoare<T, F>(arr: &mut [T], lo: usize, hi: usize, rng: &mut ThreadRng, cmp: &F)
    where
        T: PartialOrd,
        F: Fn(&T, &T) -> Ordering,
    requires
        is_order(cmp),
        lo <= hi <= old(arr)@.len(),
    ensures
        same_outside(final(arr)@, old(arr)@, lo as int, hi as int),
        seg_perm(final(arr)@, old(arr)@, lo as int, hi as int),
        seg_sorted(cmp, final(arr)@, lo as int, hi as int),
    decreases hi - lo,
{
    if hi - lo <= 1 {
        return;
    }
    let ghost s0 = arr@;
    let mut i: usize = lo + 1;
    let mut j: usize = hi;
    while i < j
        invariant
            is_order(cmp),
            lo + 1 <= i <= j <= hi,
            hi <= arr@.len(),
            arr@[lo as int] == s0[lo as int],
            same_outside(arr@, s0, lo as int, hi as int),
            seg_perm(arr@, s0, lo as int, hi as int),
            forall|k: int| lo < k < i ==> lt(cmp, #[trigger] arr@[k], arr@[lo as int]),
            forall|k: int| j <= k < hi ==> !lt(cmp, #[trigger] arr@[k], arr@[lo as int]),
        decreases j - i,
    {
        if less(cmp, &arr[i], &arr[lo]) {
            i = i + 1;
        } else if !less(cmp, &arr[j - 1], &arr[lo]) {
            j = j - 1;
        } else {
            let ghost before = arr@;
            proof {
                lemma_swap_segment(arr@, lo as int, hi as int, i as int, j - 1);
            }
            arr.swap(i, j - 1);
            proof {
                assert(arr@[lo as int] == before[lo as int]);
                assert(lt(cmp, arr@[i as int], arr@[lo as int]));
                if i < j - 1 {
                    assert(!lt(cmp, arr@[j - 1], arr@[lo as int]));
                }
            }
            if i < j - 1 {
                j = j - 1;
            }
            i = i + 1;
        }
    }
    let p = i - 1;
    let ghost before = arr@;
    proof {
        lemma_swap_segment(arr@, lo as int, hi as int, lo as int, p as int);
    }
    arr.swap(lo, p);
    let ghost s1 = arr@;
    proof {
        assert(s1[p as int] == before[lo as int]);
        assert forall|k: int| lo <= k < p implies lt(cmp, #[trigger] s1[k], s1[p as int]) by {
            if k == lo {
                assert(s1[k] == before[p as int]);
            } else {
                assert(s1[k] == before[k]);
            }
        }
        assert forall|k: int| p < k < hi implies !lt(cmp, #[trigger] s1[k], s1[p as int]) by {
            assert(s1[k] == before[k]);
        }
    }
    quicksort_hoare(arr, lo, p, rng, cmp);
    let ghost s2 = arr@;
    quicksort_hoare(arr, p + 1, hi, rng, cmp);
    proof {
        lemma_after_recursion(cmp, s1, s2, arr@, lo as int, p as int, hi as int);
    }
}

/// Sorts `arr` by `cmp` with the given partition scheme.
pub fn quicksort<T, F>(arr: &mut [T], cmp: &F, scheme: PartitionScheme)
    where
        T: PartialOrd,
        F: Fn(&T, &T) -> Ordering,
    requires
        is_order(cmp),
    ensures
        sorted_by(cmp, final(arr)@),
        final(arr)@.to_multiset() == old(arr)@.to_multiset(),
{
    let n = arr.len();
    let mut rng = rand::thread_rng();
    match scheme {
        PartitionScheme::Lomuto => quicksort_lomuto(arr, 0, n, &mut rng, cmp),
        PartitionScheme::Hoare => quicksort_hoare(arr, 0, n, &mut rng, cmp),
    }
    proof {
        assert(arr@.subrange(0, n as int) =~= arr@);
        assert(old(arr)@.subrange(0, n as int) =~= old(arr)@);
    }
}

} // verus!
