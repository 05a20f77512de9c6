use algorithms::tree::treap::Treap;

fn treap_assert<T>(t: &Treap<T>) -> bool
where
    T: Ord,
{
    t.is_ordered()
}

#[test]
fn test_from() {
    let t = Treap::from(&vec![1, 2, 3, 4, 5, 6, 7, 8, 9]);
    assert!(treap_assert(&t));
}

#[test]
fn test_treap_insertion() {
    let mut t = Treap::new();
    for i in 0..1000 {
        t = t.insert(i);
    }

    assert!(treap_assert(&t));
    assert_eq!(t.size(), 1000);
}

#[test]
fn test_treap_insert_and_delete() {
    let mut t = Treap::new();
    t = t.insert(10).insert(5).insert(1);

    assert!(treap_assert(&t));
    assert_eq!(t.size(), 3);

    t = t.delete(5);
    assert!(treap_assert(&t));
    assert_eq!(t.size(), 2);

    t = t.delete(3);
    assert!(treap_assert(&t));
    assert_eq!(t.size(), 2);

    t = t.delete(10).delete(1);
    assert!(treap_assert(&t));
    assert_eq!(t.size(), 0);
}
