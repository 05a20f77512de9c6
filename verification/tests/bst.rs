use algorithms::tree::bst::BST;

#[test]
fn test_basic_operation() {
    let t = BST::new().insert(1);
    assert!(t.search(1));
}

#[test]
fn test_depth() {
    let mut t = BST::new().insert(3).insert(2).insert(1);
    assert_eq!(t.depth(), 3);

    t = t.insert(4).insert(5);
    assert_eq!(t.depth(), 3);

    t = t.insert(6);
    assert_eq!(t.depth(), 4);
}

#[test]
fn test_iteration() {
    let mut t = BST::new();
    t = t.insert(3).insert(2).insert(1);

    let mut walk = t.iter();
    let mut i: usize = 0;
    while let Some(&num) = walk.next() {
        assert_eq!(i + 1, num);
        i += 1;
    }
    assert_eq!(i, 3);

    let mut walk = t.iter();
    let mut i: usize = 0;
    while let Some(&num) = walk.next() {
        assert_eq!(i + 1, num);
        i += 1;
    }
    assert_eq!(i, 3);
}

#[test]
fn test_min_max() {
    let mut t = BST::new();
    assert_eq!(t.min(), None);
    assert_eq!(t.max(), None);

    t = t.insert(3).insert(2).insert(1);

    assert_eq!(*t.min().unwrap(), 1);
    assert_eq!(*t.max().unwrap(), 3);

    t = t.insert(3);
    assert_eq!(*t.max().unwrap(), 3);

    t = t.insert(4);
    assert_eq!(*t.max().unwrap(), 4);
}

#[test]
fn test_delete_min() {
    let mut t = BST::new().insert(4).insert(3).insert(2).insert(1);

    t = t.delete_min();
    assert_eq!(*t.min().unwrap(), 2);
    assert_eq!(t.size(), 3);
    t = t.delete_min().delete_min();
    assert_eq!(*t.min().unwrap(), 4);
    assert_eq!(t.size(), 1);
}

#[test]
fn test_delete() {
    let mut t = BST::new();
    t = t.insert(4).insert(3).insert(2).insert(1);

    t = t.delete(2);
    assert!(!t.search(2));
    t = t.delete(3);
    assert!(!t.search(3));
    t = t.delete(4);
    assert!(!t.search(4));
    assert!(t.search(1));

    let mut walk = t.iter();
    let mut i: usize = 0;
    while let Some(&num) = walk.next() {
        assert_eq!(i + 1, num);
        if i > 1 {
            panic!("should only have 2 elements left");
        }
        i += 1;
    }

    t = t.insert(4);
    assert!(t.search(4));
}

#[test]
fn test_size() {
    let mut t = BST::new().insert(1).insert(1).insert(1);
    assert_eq!(t.size(), 3);

    t = t.delete(1);
    assert_eq!(t.size(), 2);

    t = t.delete(0);
    assert_eq!(t.size(), 2);

    t = t.delete(1);
    assert_eq!(t.size(), 1);

    t = t.insert(1).insert(1).insert(1).insert(1);
    assert_eq!(t.size(), 5);
}
