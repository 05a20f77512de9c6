use rand::Rng;

use algorithms::sort::heap_sort::heap_sort;
use algorithms::sort::insertion_sort::insertion_sort;
use algorithms::sort::insertion_sort::shell_sort;
use algorithms::sort::merge_sort::merge_sort_bottom_up;
use algorithms::sort::merge_sort::merge_sort_top_down;
use algorithms::sort::quick_sort::quick_sort_3way_partition;
use algorithms::sort::quick_sort::quick_sort_basic;

fn generate_random_large(size: usize) -> Vec<usize> {
    let mut gen = rand::thread_rng();
    let mut v = Vec::with_capacity(size);

    for i in 0..size {
        v.push(gen.gen_range(0, i + 1));
    }
    assert!(v.len() == size);

    v
}

fn assert_sorted<T: PartialOrd>(v: &Vec<T>) {
    for i in 0..v.len() - 1 {
        assert!(v[i] <= v[i + 1]);
    }
}

#[test]
fn test_heap_sort() {
    assert_sorted(heap_sort(&mut vec![1]));
    assert_sorted(heap_sort(&mut vec![1, 1, 1, 1, 1]));
    assert_sorted(heap_sort(&mut vec![4, 2, 6, 7, 1, 10]));
    assert_sorted(heap_sort(&mut vec!["w", "h", "p", "a", "x"]));
    assert_sorted(heap_sort(&mut generate_random_large(10000)));
}

#[test]
fn test_insertion_sort() {
    assert_sorted(insertion_sort(&mut vec![1]));
    assert_sorted(insertion_sort(&mut vec![1, 1, 1, 1, 1]));
    assert_sorted(insertion_sort(&mut vec![4, 2, 6, 7, 1, 10]));
    assert_sorted(insertion_sort(&mut vec!["w", "h", "p", "a", "x"]));
    assert_sorted(insertion_sort(&mut generate_random_large(10000)));
}

#[test]
fn test_shell_sort() {
    assert_sorted(shell_sort(&mut vec![1]));
    assert_sorted(shell_sort(&mut vec![1, 1, 1, 1, 1]));
    assert_sorted(shell_sort(&mut vec![4, 2, 6, 7, 1, 10]));
    assert_sorted(shell_sort(&mut vec!["w", "h", "p", "a", "x"]));
    assert_sorted(shell_sort(&mut generate_random_large(10000)));
}

#[test]
fn test_merge_sort_top_down() {
    assert_sorted(merge_sort_top_down(&mut vec![1]));
    assert_sorted(merge_sort_top_down(&mut vec![1, 1, 1, 1, 1]));
    assert_sorted(merge_sort_top_down(&mut vec![4, 2, 6, 7, 1, 10]));
    assert_sorted(merge_sort_top_down(&mut vec!["w", "h", "p", "a", "x"]));
    assert_sorted(merge_sort_top_down(&mut generate_random_large(10000)));
}

#[test]
fn test_merge_sort_bottom_up() {
    assert_sorted(merge_sort_bottom_up(&mut vec![1]));
    assert_sorted(merge_sort_bottom_up(&mut vec![1, 1, 1, 1, 1]));
    assert_sorted(merge_sort_bottom_up(&mut vec![4, 2, 6, 7, 1, 10]));
    assert_sorted(merge_sort_bottom_up(&mut vec!["w", "h", "p", "a", "x"]));
    assert_sorted(merge_sort_bottom_up(&mut generate_random_large(10000)));
}

#[test]
fn test_quick_sort() {
    assert_sorted(quick_sort_basic(&mut vec![1]));
    assert_sorted(quick_sort_basic(&mut vec![1, 1, 1, 1, 1]));
    assert_sorted(quick_sort_basic(&mut vec![4, 2, 6, 7, 1, 10]));
    assert_sorted(quick_sort_basic(&mut vec!["w", "h", "p", "a", "x"]));
    assert_sorted(quick_sort_basic(&mut generate_random_large(10000)));
}

#[test]
fn quick_sort_3way_partition_sorts() {
    assert_sorted(quick_sort_3way_partition(&mut vec![1]));
    assert_sorted(quick_sort_3way_partition(&mut vec![1, 1, 1, 1, 1]));
    assert_sorted(quick_sort_3way_partition(&mut vec![4, 2, 6, 7, 1, 10]));
    assert_sorted(quick_sort_3way_partition(&mut vec!["w", "h", "p", "a", "x"]));
    assert_sorted(quick_sort_3way_partition(&mut generate_random_large(10000)));
    let mut v = vec![5, 1, 2, 5, 3, 5, 0];
    assert_eq!(*quick_sort_3way_partition(&mut v), vec![0, 1, 2, 3, 5, 5, 5]);
}
