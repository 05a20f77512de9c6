use algorithms::heap::binary_heap::Heap;

fn drained(mut h: Heap<i32>) -> Vec<i32> {
    let mut out = Vec::new();
    while let Some(x) = h.remove() {
        out.push(x);
    }
    out
}

#[test]
fn the_empty_heap_gives_nothing() {
    let mut h: Heap<i32> = Heap::new();
    assert_eq!(h.remove(), None);
    let mut h: Heap<i32> = Heap::from(Vec::new());
    assert_eq!(h.remove(), None);
}

#[test]
fn a_heap_of_one() {
    let mut h = Heap::from(vec![4]);
    assert_eq!(h.remove(), Some(4));
    assert_eq!(h.remove(), None);
    h.insert(9);
    assert_eq!(h.remove(), Some(9));
    assert_eq!(h.remove(), None);
}

#[test]
fn elements_leave_the_heap_greatest_first() {
    assert_eq!(drained(Heap::from(vec![5, 3, 8, 1, 9, 2, 7])), vec![9, 8, 7, 5, 3, 2, 1]);
    assert_eq!(drained(Heap::from(vec![1, 2, 3, 4, 5, 6])), vec![6, 5, 4, 3, 2, 1]);
    assert_eq!(drained(Heap::from(vec![6, 5, 4, 3, 2, 1])), vec![6, 5, 4, 3, 2, 1]);
    assert_eq!(drained(Heap::from(vec![-3, 0, -7, 2, 2])), vec![2, 2, 0, -3, -7]);
}

#[test]
fn inserts_and_removals_in_turn() {
    let mut h = Heap::new();
    let mut held: Vec<i32> = Vec::new();
    for i in 0..200 {
        let x = (i * 73) % 101 - 50;
        h.insert(x);
        held.push(x);
        if i % 3 == 2 {
            held.sort();
            assert_eq!(h.remove(), held.pop());
        }
    }
    held.sort();
    held.reverse();
    assert_eq!(drained(h), held);
}
