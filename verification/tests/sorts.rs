use algokit::heap_sort::heap_sort;
use algokit::merge_sort::{merge_sort, merge_sort_no_recursion};
use algokit::quick_sort::{quick_sort, quick_sort_no_recursion};
use algokit::shell_sort::shell_sort;
use std::collections::VecDeque;

#[test]
fn test_heap_sort() {
    let mut arr = vec![2, 9, 5, 7, 6, 3, 8, 4, 6, 1];
    heap_sort(&mut arr);
    assert_eq!(arr, vec![1, 2, 3, 4, 5, 6, 6, 7, 8, 9]);
}

#[test]
fn test_merge_sort() {
    let arr = [2, 9, 5, 7, 6, 3, 8, 4, 6, 1].into();
    let arr = merge_sort(arr);
    assert_eq!(arr, [1, 2, 3, 4, 5, 6, 6, 7, 8, 9]);
}

#[test]
fn test_merge_sort_no_recursion() {
    let arr = [2, 9, 5, 7, 6, 3, 8, 4, 6, 1].into();
    let arr = merge_sort_no_recursion(arr);
    assert_eq!(arr, [1, 2, 3, 4, 5, 6, 6, 7, 8, 9]);
}

#[test]
fn test_quick_sort() {
    let mut arr = vec![2, 9, 5, 7, 6, 3, 8, 4, 6, 1];
    quick_sort(&mut arr);
    assert_eq!(arr, [1, 2, 3, 4, 5, 6, 6, 7, 8, 9]);
}

#[test]
fn test_quick_sort_no_recursion() {
    let mut arr = vec![2, 9, 5, 7, 6, 3, 8, 4, 6, 1];
    quick_sort_no_recursion(&mut arr);
    assert_eq!(arr, [1, 2, 3, 4, 5, 6, 6, 7, 8, 9]);
}

#[test]
fn test_shell_sort() {
    let mut arr = vec![2, 9, 5, 7, 6, 3, 8, 4, 6, 1];
    shell_sort(&mut arr);
    assert_eq!(arr, [1, 2, 3, 4, 5, 6, 6, 7, 8, 9]);
}

#[test]
fn sorts_empty_and_single() {
    let mut empty: Vec<u64> = vec![];
    heap_sort(&mut empty);
    assert_eq!(empty, Vec::<u64>::new());
    quick_sort(&mut empty);
    shell_sort(&mut empty);
    quick_sort_no_recursion(&mut empty);
    assert_eq!(empty, Vec::<u64>::new());

    let mut one = vec![42];
    heap_sort(&mut one);
    quick_sort(&mut one);
    shell_sort(&mut one);
    quick_sort_no_recursion(&mut one);
    assert_eq!(one, vec![42]);

    let deque: VecDeque<u64> = VecDeque::new();
    assert_eq!(merge_sort(deque.clone()), VecDeque::<u64>::new());
    assert_eq!(merge_sort_no_recursion(deque), VecDeque::<u64>::new());
}

#[test]
fn sorts_duplicates_and_reverse() {
    let input = vec![5, 5, 5, 4, 4, 3, 2, 1, 1, 0];
    let expected = vec![0, 1, 1, 2, 3, 4, 4, 5, 5, 5];

    let mut a = input.clone();
    heap_sort(&mut a);
    assert_eq!(a, expected);

    let mut b = input.clone();
    quick_sort(&mut b);
    assert_eq!(b, expected);

    let mut c = input.clone();
    quick_sort_no_recursion(&mut c);
    assert_eq!(c, expected);

    let mut d = input.clone();
    shell_sort(&mut d);
    assert_eq!(d, expected);

    let e: VecDeque<u64> = input.clone().into();
    assert_eq!(merge_sort(e), VecDeque::from(expected.clone()));
    let f: VecDeque<u64> = input.into();
    assert_eq!(merge_sort_no_recursion(f), VecDeque::from(expected));
}
