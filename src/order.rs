//! Comparators, sortedness, and the slice operations the sorting routines use.

use std::cmp::Ordering;
use vstd::prelude::*;

verus! {

/// `cmp` puts `a` strictly before `b`.
pub open spec fn lt<T, F: Fn(&T, &T) -> Ordering>(cmp: &F, a: T, b: T) -> bool {
    cmp.ensures((&a, &b), Ordering::Less)
}

/// `cmp` can be called on any two values, answers `Less` for a pair either
/// always or never, answers `Greater` exactly where the swapped pair gets
/// `Less`, and orders values as a strict weak order does.
pub open spec fn is_order<T, F: Fn(&T, &T) -> Ordering>(cmp: &F) -> bool {
    &&& forall|a: T, b: T| #[trigger] cmp.requires((&a, &b))
    &&& forall|a: T, b: T, o: Ordering| #[trigger]
        cmp.ensures((&a, &b), o) ==> {
            &&& (o == Ordering::Less <==> lt(cmp, a, b))
            &&& (o == Ordering::Greater <==> lt(cmp, b, a))
        }
    &&& forall|a: T, b: T| #[trigger] lt(cmp, a, b) ==> !lt(cmp, b, a)
    &&& forall|a: T, b: T, c: T|
        #[trigger] lt(cmp, a, b) && #[trigger] lt(cmp, b, c) ==> lt(cmp, a, c)
    &&& forall|a: T, b: T, c: T|
        #![trigger lt(cmp, a, b), lt(cmp, b, c)]
        !lt(cmp, a, b) && !lt(cmp, b, c) ==> !lt(cmp, a, c)
}

/// No element of `s` is put strictly before an element that precedes it.
pub open spec fn sorted_by<T, F: Fn(&T, &T) -> Ordering>(cmp: &F, s: Seq<T>) -> bool {
    forall|i: int, j: int| 0 <= i < j < s.len() ==> !lt(cmp, #[trigger] s[j], #[trigger] s[i])
}

/// Cloning a value of `T` yields an equal value.
pub open spec fn clone_is_exact<T: Clone>() -> bool {
    forall|a: T, b: T| #[trigger] vstd::pervasive::cloned(a, b) ==> a == b
}

/// Relies on `slice::swap`: the elements at `a` and `b` trade places; it panics
/// where either index is out of bounds.
pub assume_specification<Elt>[ <[Elt]>::swap ](slice: &mut [Elt], x: usize, y: usize)
    requires
        x < old(slice)@.len(),
        y < old(slice)@.len(),
    ensures
        final(slice)@ == old(slice)@.update(x as int, old(slice)@[y as int]).update(
            y as int,
            old(slice)@[x as int],
        ),
;

/// Exchanging two elements keeps the multiset of elements.
pub proof fn lemma_swap_multiset<T>(s: Seq<T>, a: int, b: int)
    requires
        0 <= a < s.len(),
        0 <= b < s.len(),
    ensures
        s.update(a, s[b]).update(b, s[a]).to_multiset() == s.to_multiset(),
{
    broadcast use vstd::seq_lib::group_to_multiset_ensures;
    broadcast use vstd::multiset::group_multiset_axioms;

    let s1 = s.update(a, s[b]);
    vstd::seq_lib::to_multiset_update(s, a, s[b]);
    vstd::seq_lib::to_multiset_update(s1, b, s[a]);
    assert(s1.update(b, s[a]).to_multiset() =~= s.to_multiset());
}

/// Calls `cmp` and reports whether it put `a` strictly after `b`.
pub fn greater<T, F: Fn(&T, &T) -> Ordering>(cmp: &F, a: &T, b: &T) -> (r: bool)
    requires
        is_order(cmp),
    ensures
        r == lt(cmp, *b, *a),
{
    let o = cmp(a, b);
    match o {
        Ordering::Greater => true,
        _ => false,
    }
}

/// Calls `cmp` and reports whether it put `a` strictly before `b`.
pub fn less<T, F: Fn(&T, &T) -> Ordering>(cmp: &F, a: &T, b: &T) -> (r: bool)
    requires
        is_order(cmp),
    ensures
        r == lt(cmp, *a, *b),
{
    let o = cmp(a, b);
    match o {
        Ordering::Less => true,
        _ => false,
    }
}

} // verus!
