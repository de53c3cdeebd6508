use algorithms::heap::BinaryHeap;
use algorithms::mergesort;
use algorithms::qsort;
use algorithms::simple::{bubble_sort, insertion_sort, selection_sort};
use algorithms::sort::{
    bubblesort, heapsort, insertionsort, mergesort, quicksort, selectionsort, PartitionScheme,
};
use rand::distributions::Standard;
use rand::seq::SliceRandom;
use rand::thread_rng;
use rand::Rng;
use std::cmp::Ordering;

fn test_suite(sort_fn: impl Fn(&mut [i32], &dyn Fn(&i32, &i32) -> Ordering) -> Vec<i32>) {
    let mut rng = thread_rng();
    for len in (2..25).chain(500..510) {
        for &modulus in &[5, 10, 100, 1000] {
            for _ in 0..10 {
                let orig: Vec<_> = (&mut rng)
                    .sample_iter::<i32, _>(&Standard)
                    .map(|x| x % modulus)
                    .take(len)
                    .collect();

                let mut v = orig.clone();
                let sorted = sort_fn(&mut v, &|a, b| a.cmp(b));
                assert!(sorted.windows(2).all(|w| w[0] <= w[1]));

                let mut v = orig.clone();
                let sorted = sort_fn(&mut v, &|a, b| b.cmp(a));
                assert!(sorted.windows(2).all(|w| w[0] >= w[1]));
            }
        }
    }
}

#[test]
fn heapsort_test() {
    test_suite(|arr, cmp| {
        heapsort(arr, &cmp);
        arr.to_vec()
    });
}

#[test]
fn qsort_quicksort_test() {
    test_suite(|arr: &mut [i32], cmp| {
        qsort::quicksort(arr, &cmp, qsort::PartitionScheme::Lomuto);
        arr.to_vec()
    });

    test_suite(|arr: &mut [i32], cmp| {
        qsort::quicksort(arr, &cmp, qsort::PartitionScheme::Hoare);
        arr.to_vec()
    });
}

#[test]
fn tests_quicksort_test() {
    test_suite(|arr, cmp| {
        quicksort(arr, &cmp, PartitionScheme::Lomuto);
        arr.to_vec()
    });

    test_suite(|arr, cmp| {
        quicksort(arr, &cmp, PartitionScheme::Hoare);
        arr.to_vec()
    });
}

#[test]
fn quicksort_exact_result() {
    let input = vec![5i64, -3, 9, 0, 5, 2, -3, 7, 7, 7];
    let expected = vec![-3i64, -3, 0, 2, 5, 5, 7, 7, 7, 9];
    for scheme in [PartitionScheme::Lomuto, PartitionScheme::Hoare] {
        let mut v = input.clone();
        quicksort(&mut v, &by_value, scheme);
        assert_eq!(v, expected);
    }
    let mut one = vec![1i64];
    quicksort(&mut one, &by_value, PartitionScheme::Hoare);
    assert_eq!(one, vec![1]);
}

#[test]
fn mergesort_test() {
    test_suite(|arr, cmp| mergesort(arr, &cmp));
}

#[test]
fn bubblesort_test() {
    test_suite(|arr, cmp| {
        bubblesort(arr, &cmp);
        arr.to_vec()
    });
}

#[test]
fn insertionsort_test() {
    test_suite(|arr, cmp| {
        insertionsort(arr, &cmp);
        arr.to_vec()
    });
}

#[test]
fn selectionsort_test() {
    test_suite(|arr, cmp| {
        selectionsort(arr, &cmp);
        arr.to_vec()
    });
}

fn by_value(a: &i64, b: &i64) -> Ordering {
    a.cmp(b)
}

#[test]
fn quadratic_sorts_give_exact_result() {
    let input = vec![5i64, -3, 9, 0, 5, 2, -3, 7];
    let expected = vec![-3i64, -3, 0, 2, 5, 5, 7, 9];

    let mut v = input.clone();
    bubble_sort(&mut v, &by_value);
    assert_eq!(v, expected);

    let mut v = input.clone();
    insertion_sort(&mut v, &by_value);
    assert_eq!(v, expected);

    let mut v = input.clone();
    selection_sort(&mut v, &by_value);
    assert_eq!(v, expected);

    assert_eq!(mergesort::mergesort(&input, &by_value), expected);
}

#[test]
fn sorts_handle_empty_and_single() {
    let mut empty: Vec<i64> = vec![];
    bubble_sort(&mut empty, &by_value);
    insertion_sort(&mut empty, &by_value);
    selection_sort(&mut empty, &by_value);
    heapsort(&mut empty, &by_value);
    assert!(empty.is_empty());
    assert!(mergesort(&empty, &by_value).is_empty());

    let mut one = vec![42i64];
    heapsort(&mut one, &by_value);
    assert_eq!(one, vec![42]);
    assert_eq!(mergesort(&one, &by_value), vec![42]);
}

#[test]
fn mergesort_is_stable_on_ties() {
    let pairs = [(1u8, 'a'), (0, 'b'), (1, 'c'), (0, 'd')];
    let sorted = mergesort(&pairs, &|x: &(u8, char), y: &(u8, char)| x.0.cmp(&y.0));
    assert_eq!(sorted, vec![(0, 'b'), (0, 'd'), (1, 'a'), (1, 'c')]);
}

#[test]
fn heap_pops_in_order() {
    let cmp = |a: &u64, b: &u64| a.cmp(b);
    let mut heap = BinaryHeap::new(&cmp);
    assert!(heap.is_empty());
    for x in [7u64, 3, 9, 1, 3, 8] {
        heap.push(x);
    }
    assert_eq!(heap.len(), 6);
    let mut out = vec![];
    while let Some(x) = heap.pop() {
        out.push(x);
    }
    assert_eq!(out, vec![1, 3, 3, 7, 8, 9]);
    assert_eq!(heap.pop(), None);

    let rev = |a: &u64, b: &u64| b.cmp(a);
    let mut maxheap = BinaryHeap::from_vec((0..1000u64).collect(), &rev);
    let mut last = u64::MAX;
    while let Some(x) = maxheap.pop() {
        assert!(x <= last);
        last = x;
    }
    assert_eq!(last, 0);
}

#[test]
fn heap_test() {
    let mut minheap = BinaryHeap::<u64, _>::new(&|a, b| a.cmp(b));
    let mut values = (0..1000).collect::<Vec<_>>();
    values.shuffle(&mut rand::thread_rng());
    for &elem in &values {
        minheap.push(elem);
    }
    for (i, elem) in minheap.pop_all().into_iter().enumerate() {
        values[i] = elem;
    }
    assert!(values.windows(2).all(|w| w[0] <= w[1]));

    let mut maxheap = BinaryHeap::<u64, _>::new(&|a, b| b.cmp(a));
    values.shuffle(&mut rand::thread_rng());
    for &elem in &values {
        maxheap.push(elem);
    }
    for (i, elem) in maxheap.pop_all().into_iter().enumerate() {
        values[i] = elem;
    }
    assert!(values.windows(2).all(|w| w[0] >= w[1]));
}

#[test]
fn heap_renders_its_levels() {
    let cmp = |a: &i32, b: &i32| a.cmp(b);
    let heap = BinaryHeap::from_vec(vec![3, 1, 2], &cmp);
    assert_eq!(heap.debug_string(), "[1, 3, 2]");
}
