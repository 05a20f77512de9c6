use algorithms::sort::heap_sort::heap_sort;
use algorithms::sort::insertion_sort::insertion_sort;
use algorithms::sort::insertion_sort::shell_sort;
use algorithms::sort::merge_sort::merge_sort_bottom_up;
use algorithms::sort::merge_sort::merge_sort_top_down;
use algorithms::sort::quick_sort::quick_sort_3way_partition;
use algorithms::sort::quick_sort::quick_sort_basic;

fn samples() -> Vec<Vec<i32>> {
    let mut all = vec![
        vec![7],
        vec![2, 1],
        vec![1, 2],
        vec![3, 3, 3],
        vec![5, 1, 2],
        vec![3, 2, 1],
        vec![9, -4, 7, 0, 7, -4, 12, 3],
        vec![1, 2, 3, 4, 5, 6, 7, 8, 9, 10, 11, 12, 13],
        vec![13, 12, 11, 10, 9, 8, 7, 6, 5, 4, 3, 2, 1],
    ];
    let mut long = Vec::new();
    for i in 0..257 {
        long.push((i * 101) % 64 - 32);
    }
    all.push(long);
    all
}

fn expected(v: &Vec<i32>) -> Vec<i32> {
    let mut sorted = v.clone();
    sorted.sort();
    sorted
}

#[test]
fn heap_sort_gives_the_elements_in_ascending_order() {
    for mut v in samples() {
        let want = expected(&v);
        assert_eq!(*heap_sort(&mut v), want);
        assert_eq!(v, want);
    }
    let mut none: Vec<i32> = Vec::new();
    assert!(heap_sort(&mut none).is_empty());
}

#[test]
fn insertion_sort_gives_the_elements_in_ascending_order() {
    for mut v in samples() {
        let want = expected(&v);
        assert_eq!(*insertion_sort(&mut v), want);
        assert_eq!(v, want);
    }
    let mut none: Vec<i32> = Vec::new();
    assert!(insertion_sort(&mut none).is_empty());
}

#[test]
fn shell_sort_gives_the_elements_in_ascending_order() {
    for mut v in samples() {
        let want = expected(&v);
        assert_eq!(*shell_sort(&mut v), want);
        assert_eq!(v, want);
    }
    let mut none: Vec<i32> = Vec::new();
    assert!(shell_sort(&mut none).is_empty());
}

#[test]
fn merge_sort_top_down_gives_the_elements_in_ascending_order() {
    for mut v in samples() {
        let want = expected(&v);
        assert_eq!(*merge_sort_top_down(&mut v), want);
        assert_eq!(v, want);
    }
}

#[test]
fn merge_sort_bottom_up_gives_the_elements_in_ascending_order() {
    for mut v in samples() {
        let want = expected(&v);
        assert_eq!(*merge_sort_bottom_up(&mut v), want);
        assert_eq!(v, want);
    }
    let mut none: Vec<i32> = Vec::new();
    assert!(merge_sort_bottom_up(&mut none).is_empty());
}

#[test]
fn quick_sort_basic_gives_the_elements_in_ascending_order() {
    for _ in 0..20 {
        for mut v in samples() {
            let want = expected(&v);
            assert_eq!(*quick_sort_basic(&mut v), want);
            assert_eq!(v, want);
        }
    }
}

#[test]
fn quick_sort_3way_partition_gives_the_elements_in_ascending_order() {
    for _ in 0..20 {
        for mut v in samples() {
            let want = expected(&v);
            assert_eq!(*quick_sort_3way_partition(&mut v), want);
            assert_eq!(v, want);
        }
    }
}

#[test]
fn words_are_sorted_as_the_dictionary_has_them() {
    let want = vec!["a", "h", "p", "w", "x"];
    assert_eq!(*heap_sort(&mut vec!["w", "h", "p", "a", "x"]), want);
    assert_eq!(*insertion_sort(&mut vec!["w", "h", "p", "a", "x"]), want);
    assert_eq!(*shell_sort(&mut vec!["w", "h", "p", "a", "x"]), want);
    assert_eq!(*merge_sort_top_down(&mut vec!["w", "h", "p", "a", "x"]), want);
    assert_eq!(*merge_sort_bottom_up(&mut vec!["w", "h", "p", "a", "x"]), want);
    assert_eq!(*quick_sort_basic(&mut vec!["w", "h", "p", "a", "x"]), want);
    assert_eq!(*quick_sort_3way_partition(&mut vec!["w", "h", "p", "a", "x"]), want);
}
