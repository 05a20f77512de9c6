use algorithms::tree::bst::BST;

fn walked(t: &BST<i32>) -> Vec<i32> {
    let mut out = Vec::new();
    let mut walk = t.iter();
    while let Some(key) = walk.next() {
        out.push(*key);
    }
    out
}

fn grown(keys: &[i32]) -> BST<i32> {
    let mut t = BST::new();
    for key in keys.iter() {
        t = t.insert(*key);
    }
    t
}

#[test]
fn the_empty_tree_holds_nothing() {
    let t: BST<i32> = BST::new();
    assert_eq!(t.size(), 0);
    assert_eq!(t.depth(), 0);
    assert_eq!(t.min(), None);
    assert_eq!(t.max(), None);
    assert!(!t.search(7));
    assert!(walked(&t).is_empty());
}

#[test]
fn a_walk_that_has_ended_stays_ended() {
    let t = grown(&[2, 1]);
    let mut walk = t.iter();
    assert_eq!(walk.next(), Some(&1));
    assert_eq!(walk.next(), Some(&2));
    assert_eq!(walk.next(), None);
    assert_eq!(walk.next(), None);
}

#[test]
fn keys_are_walked_in_ascending_order() {
    let t = grown(&[50, 30, 70, 20, 40, 60, 80, 35, 45, 65]);
    assert_eq!(walked(&t), vec![20, 30, 35, 40, 45, 50, 60, 65, 70, 80]);
    assert_eq!(t.size(), 10);
    assert_eq!(t.depth(), 4);
    assert_eq!(*t.min().unwrap(), 20);
    assert_eq!(*t.max().unwrap(), 80);
}

#[test]
fn equal_keys_go_to_the_left() {
    let t = grown(&[1, 1, 1]);
    assert_eq!(t.depth(), 3);
    assert_eq!(walked(&t), vec![1, 1, 1]);
    let t = grown(&[2, 3, 2]);
    assert_eq!(t.depth(), 2);
    assert_eq!(walked(&t), vec![2, 2, 3]);
}

#[test]
fn deleting_a_leaf() {
    let t = grown(&[5, 3, 8]).delete(3);
    assert_eq!(walked(&t), vec![5, 8]);
    assert_eq!(t.size(), 2);
    assert_eq!(t.depth(), 2);
}

#[test]
fn deleting_a_node_with_one_subtree() {
    let t = grown(&[5, 3, 8, 9]).delete(8);
    assert_eq!(walked(&t), vec![3, 5, 9]);
    assert_eq!(t.size(), 3);
    assert_eq!(t.depth(), 2);
    let t = grown(&[5, 3, 8, 7]).delete(8);
    assert_eq!(walked(&t), vec![3, 5, 7]);
    assert_eq!(t.depth(), 2);
}

#[test]
fn deleting_a_node_with_two_subtrees() {
    let t = grown(&[5, 3, 8, 7, 9]).delete(5);
    assert_eq!(walked(&t), vec![3, 7, 8, 9]);
    assert_eq!(t.size(), 4);
    assert_eq!(t.depth(), 3);
    assert!(!t.search(5));
    assert!(t.search(7));
    let t = t.delete(7);
    assert_eq!(walked(&t), vec![3, 8, 9]);
    assert_eq!(t.depth(), 2);
}

#[test]
fn deleting_the_only_key() {
    let t = grown(&[5]).delete(5);
    assert_eq!(t.size(), 0);
    assert_eq!(t.depth(), 0);
    assert_eq!(t.min(), None);
}

#[test]
fn deleting_an_absent_key_changes_nothing() {
    let t = grown(&[5, 3, 8]).delete(4);
    assert_eq!(walked(&t), vec![3, 5, 8]);
    assert_eq!(t.size(), 3);
    assert_eq!(t.depth(), 2);
    let t: BST<i32> = BST::new();
    let t = t.delete(4);
    assert_eq!(t.size(), 0);
}

#[test]
fn deleting_one_of_two_equal_keys() {
    let t = grown(&[4, 4, 6, 6]);
    assert_eq!(t.size(), 4);
    let t = t.delete(6);
    assert_eq!(walked(&t), vec![4, 4, 6]);
    assert!(t.search(6));
    let t = t.delete(6);
    assert_eq!(walked(&t), vec![4, 4]);
    assert!(!t.search(6));
    let t = t.delete(4).delete(4);
    assert_eq!(t.size(), 0);
}

#[test]
fn deleting_the_least_of_the_empty_tree_changes_nothing() {
    let t: BST<i32> = BST::new();
    let t = t.delete_min();
    assert_eq!(t.size(), 0);
    assert_eq!(t.depth(), 0);
}

#[test]
fn deleting_the_least_key_by_key() {
    let mut t = grown(&[5, 3, 8, 4, 1]);
    let mut expected = vec![1, 3, 4, 5, 8];
    while !expected.is_empty() {
        assert_eq!(walked(&t), expected);
        assert_eq!(*t.min().unwrap(), expected[0]);
        assert_eq!(t.size(), expected.len());
        t = t.delete_min();
        expected.remove(0);
    }
    assert_eq!(t.size(), 0);
}

#[test]
fn a_tree_grown_in_ascending_order_is_a_list() {
    let t = grown(&[1, 2, 3, 4, 5, 6, 7]);
    assert_eq!(t.depth(), 7);
    let t = grown(&[4, 2, 6, 1, 3, 5, 7]);
    assert_eq!(t.depth(), 3);
}
