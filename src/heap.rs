//! A binary heap ordered by a comparator: the element that the comparator puts
//! first sits at the root.

use crate::order::{greater, is_order, less, lemma_swap_multiset, lt};
use std::cmp::Ordering;
use vstd::multiset::Multiset;
use vstd::prelude::*;

verus! {

/// The index of the parent of node `i` (for `i > 0`).
pub open spec fn parent_of(i: int) -> int {
    (i - 1) / 2
}

/// In `v`, node `c` is not put before its parent.
pub open spec fn heap_edge<T, F: Fn(&T, &T) -> Ordering>(cmp: &F, v: Seq<T>, c: int) -> bool {
    !lt(cmp, v[c], v[parent_of(c)])
}

/// A binary min-heap under `cmp`, stored level by level in a vector.
pub struct BinaryHeap<'a, T, F> where T: PartialOrd, F: Fn(&T, &T) -> Ordering {
    values: Vec<T>,
    cmp: &'a F,
}

impl<'a, T, F> BinaryHeap<'a, T, F> where T: PartialOrd, F: Fn(&T, &T) -> Ordering {
    /// The elements, level by level.
    pub closed spec fn spec_values(&self) -> Seq<T> {
        self.values@
    }

    /// The elements, without order.
    pub open spec fn elems(&self) -> Multiset<T> {
        self.spec_values().to_multiset()
    }

    /// The comparator.
    pub closed spec fn order(&self) -> &'a F {
        self.cmp
    }

    /// The heap invariant: no element is put before its parent.
    pub closed spec fn wf(&self) -> bool {
        &&& is_order(self.cmp)
        &&& forall|c: int| 0 < c < self.values@.len() ==> #[trigger] heap_edge(self.cmp, self.values@, c)
    }

    /// An empty heap.
    pub fn new(cmp: &'a F) -> (r: Self)
        requires
            is_order(cmp),
        ensures
            r.wf(),
            r.order() == cmp,
            r.spec_values().len() == 0,
    {
        BinaryHeap { values: Vec::new(), cmp }
    }

    /// A heap of the elements of `values`.
    pub fn from_vec(values: Vec<T>, cmp: &'a F) -> (r: Self)
        requires
            is_order(cmp),
        ensures
            r.wf(),
            r.order() == cmp,
            r.elems() == values@.to_multiset(),
            r.spec_values().len() == values@.len(),
    {
        let mut heap = BinaryHeap { values, cmp };
        if let Some(i) = Self::parent(heap.values.len()) {
            let mut idx: usize = i + 1;
            while idx > 0
                invariant
                    idx <= i + 1,
                    i == parent_of(heap.values@.len() as int),
                    heap.values@.len() == values@.len(),
                    is_order(heap.cmp),
                    heap.cmp == cmp,
                    heap.elems() == values@.to_multiset(),
                    forall|c: int|
                        0 < c < heap.values@.len() && parent_of(c) >= idx ==> #[trigger] heap_edge(heap.cmp, heap.values@, c),
                decreases idx,
            {
                idx = idx - 1;
                heap.heapify(idx);
            }
        }
        heap
    }

    /// Adds `value`.
    pub fn push(&mut self, value: T)
        requires
            old(self).wf(),
        ensures
            final(self).wf(),
            final(self).order() == old(self).order(),
            final(self).elems() == old(self).elems().insert(value),
    {
        proof {
            broadcast use vstd::seq_lib::to_multiset_build;
        }
        self.values.push(value);
        proof {
            assert forall|c: int| 0 < c < self.values@.len() - 1 implies #[trigger] heap_edge(self.cmp, self.values@, c) by {
                assert(heap_edge(old(self).cmp, old(self).values@, c));
            }
        }
        let mut idx = self.values.len() - 1;
        let mut done = false;
        while !done && idx > 0
            invariant
                is_order(self.cmp),
                self.cmp == old(self).cmp,
                self.elems() == old(self).elems().insert(value),
                idx < self.values@.len(),
                forall|c: int| 0 < c < self.values@.len() && (c != idx || done) ==> #[trigger] heap_edge(self.cmp, self.values@, c),
                idx > 0 && !done ==> forall|c: int|
                    0 < c < self.values@.len() && parent_of(c) == idx ==> !lt(
                        self.cmp,
                        #[trigger] self.values@[c],
                        self.values@[parent_of(idx as int)],
                    ),
            decreases idx + if done {
                0int
            } else {
                1int
            },
        {
            let parent = (idx - 1) / 2;
            if greater(self.cmp, &self.values[idx], &self.values[parent]) {
                done = true;
            } else {
                let ghost v = self.values@;
                proof {
                    lemma_swap_multiset(v, idx as int, parent as int);
                }
                self.values.as_mut_slice().swap(idx, parent);
                proof {
                    let p = parent as int;
                    let i = idx as int;
                    let w = self.values@;
                    assert(!lt(self.cmp, v[p], v[i]));
                    assert forall|c: int| 0 < c < w.len() && c != p implies #[trigger] heap_edge(self.cmp, w, c) by {
                        if c == i {
                        } else if parent_of(c) == i {
                            assert(!lt(self.cmp, v[c], v[parent_of(i)]));
                        } else if parent_of(c) == p {
                            assert(heap_edge(self.cmp, v, c));
                            assert(!lt(self.cmp, v[c], v[p]));
                        } else {
                            assert(heap_edge(self.cmp, v, c));
                        }
                    }
                    if p > 0 {
                        assert forall|c: int| 0 < c < w.len() && parent_of(c) == p implies !lt(
                            self.cmp,
                            #[trigger] w[c],
                            w[parent_of(p)],
                        ) by {
                            assert(heap_edge(self.cmp, v, p));
                            if c != i {
                                assert(heap_edge(self.cmp, v, c));
                                assert(!lt(self.cmp, v[c], v[p]));
                            }
                        }
                    }
                }
                idx = parent;
            }
        }
    }

    /// Removes and returns an element that the comparator puts first, if any.
    pub fn pop(&mut self) -> (r: Option<T>)
        requires
            old(self).wf(),
        ensures
            final(self).wf(),
            final(self).order() == old(self).order(),
            match r {
                None => old(self).spec_values().len() == 0 && final(self).elems() == old(self).elems(),
                Some(x) => {
                    &&& final(self).spec_values().len() == old(self).spec_values().len() - 1
                    &&& old(self).elems().contains(x)
                    &&& final(self).elems() == old(self).elems().remove(x)
                    &&& forall|y: T| old(self).elems().contains(y) ==> !lt(old(self).order(), y, x)
                },
            },
    {
        let n = self.values.len();
        if n == 0 {
            return None;
        }
        proof {
            broadcast use vstd::seq_lib::group_to_multiset_ensures;
            self.lemma_root_first();
            lemma_swap_multiset(self.values@, 0, n - 1);
        }
        let ghost v = self.values@;
        self.values.as_mut_slice().swap(0, n - 1);
        let ghost w = self.values@;
        let top = self.values.pop().unwrap();
        proof {
            assert(w =~= self.values@.push(top));
            vstd::seq_lib::to_multiset_build(self.values@, top);
            assert forall|c: int| 0 < c < self.values@.len() && parent_of(c) > 0 implies #[trigger] heap_edge(self.cmp, self.values@, c) by {
                assert(heap_edge(self.cmp, v, c));
                assert(v[c] == self.values@[c]);
                assert(v[parent_of(c)] == self.values@[parent_of(c)]);
            }
            assert forall|y: T| old(self).elems().contains(y) implies !lt(self.cmp, y, top) by {
                let k = choose|k: int| 0 <= k < v.len() && v[k] == y;
                assert(!lt(self.cmp, v[k], v[0]));
            }
        }
        if self.values.len() > 0 {
            self.heapify(0);
        }
        Some(top)
    }

    /// Pops every element, first to last: the result is sorted by the
    /// comparator and holds the elements the heap held.
    pub fn pop_all(&mut self) -> (r: Vec<T>)
        requires
            old(self).wf(),
        ensures
            final(self).wf(),
            final(self).order() == old(self).order(),
            final(self).spec_values().len() == 0,
            crate::order::sorted_by(old(self).order(), r@),
            r@.to_multiset() == old(self).elems(),
    {
        broadcast use vstd::seq_lib::group_to_multiset_ensures;
        broadcast use vstd::multiset::group_multiset_axioms;

        let ghost total = self.elems();
        let ghost cmp = self.cmp;
        let mut out: Vec<T> = Vec::new();
        while self.values.len() > 0
            invariant
                self.wf(),
                self.cmp == cmp,
                self.elems().add(out@.to_multiset()) == total,
                forall|a: int, b: int| 0 <= a < b < out@.len() ==> !lt(cmp, #[trigger] out@[b], #[trigger] out@[a]),
                forall|a: int, y: T| 0 <= a < out@.len() && self.elems().contains(y) ==> !#[trigger] lt(cmp, y, out@[a]),
            decreases self.values@.len(),
        {
            let ghost h0 = self.elems();
            let ghost before = out@;
            let x = self.pop().unwrap();
            out.push(x);
            proof {
                vstd::seq_lib::to_multiset_build(before, x);
                assert(self.elems().add(out@.to_multiset()) =~= total);
                assert forall|a: int, b: int| 0 <= a < b < out@.len() implies !lt(cmp, #[trigger] out@[b], #[trigger] out@[a]) by {
                    if b == before.len() {
                        assert(h0.contains(x));
                        assert(!lt(cmp, x, before[a]));
                    } else {
                        assert(out@[a] == before[a] && out@[b] == before[b]);
                    }
                }
                assert forall|a: int, y: T| 0 <= a < out@.len() && self.elems().contains(y) implies !#[trigger] lt(cmp, y, out@[a]) by {
                    assert(h0.contains(y));
                    if a < before.len() {
                        assert(out@[a] == before[a]);
                    }
                }
            }
        }
        proof {
            assert(self.elems() =~= Multiset::empty());
            assert(self.elems().add(out@.to_multiset()) =~= out@.to_multiset());
        }
        out
    }

    /// No element is put before the root.
    proof fn lemma_root_first(&self)
        requires
            self.wf(),
            self.values@.len() > 0,
        ensures
            forall|k: int| 0 <= k < self.values@.len() ==> !lt(self.cmp, #[trigger] self.values@[k], self.values@[0]),
    {
        assert forall|k: int| 0 <= k < self.values@.len() implies !lt(self.cmp, #[trigger] self.values@[k], self.values@[0]) by {
            self.lemma_path_to_root(k);
        }
    }

    proof fn lemma_path_to_root(&self, k: int)
        requires
            self.wf(),
            0 <= k < self.values@.len(),
        ensures
            !lt(self.cmp, self.values@[k], self.values@[0]),
        decreases k,
    {
        if k > 0 {
            self.lemma_path_to_root(parent_of(k));
            assert(heap_edge(self.cmp, self.values@, k));
        }
    }

    pub fn len(&self) -> (r: usize)
        ensures
            r == self.spec_values().len(),
    {
        self.values.len()
    }

    pub fn is_empty(&self) -> (r: bool)
        ensures
            r == (self.spec_values().len() == 0),
    {
        self.values.len() == 0
    }

    /// Sifts the element at `idx` down until neither child is put before it;
    /// the edges below `idx` must hold already.
    fn heapify(&mut self, idx: usize)
        requires
            is_order(old(self).cmp),
            idx < old(self).values@.len(),
            forall|c: int|
                0 < c < old(self).values@.len() && parent_of(c) > idx ==> #[trigger] heap_edge(old(self).cmp, old(self).values@, c),
        ensures
            final(self).cmp == old(self).cmp,
            final(self).elems() == old(self).elems(),
            final(self).values@.len() == old(self).values@.len(),
            forall|c: int|
                0 < c < final(self).values@.len() && parent_of(c) >= idx ==> #[trigger] heap_edge(final(self).cmp, final(self).values@, c),
    {
        let start = idx;
        let n = self.values.len();
        let mut idx = idx;
        let mut done = false;
        while !done
            invariant
                is_order(self.cmp),
                self.cmp == old(self).cmp,
                self.elems() == old(self).elems(),
                n == self.values@.len(),
                start <= idx < n,
                idx == start || parent_of(idx as int) >= start,
                forall|c: int|
                    0 < c < n && parent_of(c) >= start && (parent_of(c) != idx || done) ==> #[trigger] heap_edge(self.cmp, self.values@, c),
                idx > start && !done ==> forall|c: int|
                    0 < c < n && parent_of(c) == idx ==> !lt(
                        self.cmp,
                        #[trigger] self.values@[c],
                        self.values@[parent_of(idx as int)],
                    ),
            decreases n - idx + if done {
                0int
            } else {
                1int
            },
        {
            let mut m = idx;
            if let Some(left) = self.left_child(idx) {
                if less(self.cmp, &self.values[left], &self.values[m]) {
                    m = left;
                }
            }
            if let Some(right) = self.right_child(idx) {
                if less(self.cmp, &self.values[right], &self.values[m]) {
                    m = right;
                }
            }
            if m == idx {
                done = true;
            } else {
                let ghost v = self.values@;
                proof {
                    lemma_swap_multiset(v, m as int, idx as int);
                }
                self.values.as_mut_slice().swap(m, idx);
                proof {
                    let i = idx as int;
                    let mm = m as int;
                    let w = self.values@;
                    let l = 2 * i + 1;
                    let r = 2 * i + 2;
                    let sib = if mm == l { r } else { l };
                    assert(lt(self.cmp, v[mm], v[i]));
                    if sib < n {
                        assert(!lt(self.cmp, v[sib], v[mm])) by {
                            if mm == r {
                                if lt(self.cmp, v[l], v[i]) {
                                } else {
                                    assert(lt(self.cmp, v[l], v[r]) && lt(self.cmp, v[r], v[i]) ==> lt(self.cmp, v[l], v[i]));
                                }
                            }
                        }
                    }
                    assert forall|c: int|
                        0 < c < n && parent_of(c) >= start && parent_of(c) != mm implies #[trigger] heap_edge(self.cmp, w, c) by {
                        if c == i {
                            assert(!lt(self.cmp, v[mm], v[parent_of(i)]));
                        } else if c == mm {
                        } else if c == sib {
                        } else {
                            assert(heap_edge(self.cmp, v, c));
                        }
                    }
                    assert forall|c: int| 0 < c < n && parent_of(c) == mm implies !lt(
                        self.cmp,
                        #[trigger] w[c],
                        w[parent_of(mm)],
                    ) by {
                        assert(heap_edge(self.cmp, v, c));
                    }
                }
                idx = m;
            }
        }
    }

    /// The left child of `idx`, if the heap has it.
    fn left_child(&self, idx: usize) -> (r: Option<usize>)
        ensures
            match r {
                Some(c) => c == 2 * idx + 1 && c < self.values@.len(),
                None => 2 * idx + 1 >= self.values@.len(),
            },
    {
        let left_child = 2 * (idx as u128) + 1;
        if left_child >= self.values.len() as u128 {
            return None;
        }
        Some(left_child as usize)
    }

    /// The right child of `idx`, if the heap has it.
    fn right_child(&self, idx: usize) -> (r: Option<usize>)
        ensures
            match r {
                Some(c) => c == 2 * idx + 2 && c < self.values@.len(),
                None => 2 * idx + 2 >= self.values@.len(),
            },
    {
        let right_child = 2 * (idx as u128) + 2;
        if right_child >= self.values.len() as u128 {
            return None;
        }
        Some(right_child as usize)
    }

    /// The parent of node `idx`; the root has none.
    fn parent(idx: usize) -> (r: Option<usize>)
        ensures
            match r {
                Some(p) => idx > 0 && p == parent_of(idx as int),
                None => idx == 0,
            },
    {
        if idx == 0 {
            return None;
        }
        if idx % 2 == 0 {
            Some((idx - 2) / 2)
        } else {
            Some((idx - 1) / 2)
        }
    }
}

/// Relies on `format!` with `{:?}`: renders the stored elements, level by
/// level, through the `Debug` impl of the element type.
#[verifier::external_body]
fn debug_values<T: std::fmt::Debug>(values: &Vec<T>) -> String {
    format!("{:?}", values)
}

impl<'a, T, F> BinaryHeap<'a, T, F> where T: PartialOrd + std::fmt::Debug, F: Fn(&T, &T) -> Ordering {
    /// The stored elements as a list, level by level.
    pub fn debug_string(&self) -> String {
        debug_values(&self.values)
    }
}

} // verus!
