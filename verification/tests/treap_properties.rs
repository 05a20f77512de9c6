use algorithms::tree::treap::{Refused, Treap};

fn listed(t: &Treap<i32>) -> Vec<i32> {
    let mut out = Vec::new();
    for key in t.keys() {
        out.push(*key);
    }
    out
}

fn ascending(keys: &Vec<i32>) -> bool {
    let mut i = 1;
    while i < keys.len() {
        if keys[i - 1] > keys[i] {
            return false;
        }
        i += 1;
    }
    true
}

fn with_priorities(keys: &[i32], priorities: &[u64]) -> Treap<i32> {
    let mut t = Treap::new();
    for i in 0..keys.len() {
        t = t.insert_with_priority(keys[i], priorities[i]);
    }
    t
}

#[test]
fn the_empty_treap_holds_nothing() {
    let t: Treap<i32> = Treap::new();
    assert_eq!(t.size(), 0);
    assert!(!t.search(&1));
    assert!(t.is_ordered());
    assert!(listed(&t).is_empty());
    assert!(!t.has_priority(0));
}

#[test]
fn deleting_from_the_empty_treap_changes_nothing() {
    let t: Treap<i32> = Treap::new();
    let t = t.delete(3);
    assert_eq!(t.size(), 0);
    assert!(listed(&t).is_empty());
}

#[test]
fn invariants_hold_after_inserts_deletes_and_union() {
    let a = with_priorities(&[8, 3, 10, 1, 6], &[50, 20, 90, 70, 10]);
    assert!(a.is_ordered());
    let a = a.delete(3);
    assert!(a.is_ordered());
    let b = with_priorities(&[7, 2, 9], &[60, 30, 80]);
    assert!(b.is_ordered());
    let u = a.union(b);
    assert!(u.is_ordered());
    assert_eq!(u.size(), 7);
    assert_eq!(listed(&u), vec![1, 2, 6, 7, 8, 9, 10]);
    let u = u.delete(7).delete(1).insert_with_priority(4, 55);
    assert!(u.is_ordered());
    assert_eq!(u.size(), 6);
    assert_eq!(listed(&u), vec![2, 4, 6, 8, 9, 10]);
}

#[test]
fn size_counts_inserts_and_deletes() {
    let mut t = Treap::new();
    for i in 0..50 {
        t = t.insert_with_priority(i * 7 % 50, 1000 - i as u64);
        assert_eq!(t.size(), i as usize + 1);
    }
    t = t.delete(21);
    assert_eq!(t.size(), 49);
    t = t.delete(21);
    assert_eq!(t.size(), 49);
    t = t.delete(500);
    assert_eq!(t.size(), 49);
}

#[test]
fn keys_come_back_in_ascending_order() {
    let unsorted = [13, 2, 21, 1, 8, 34, 5, 3];
    let t = with_priorities(&unsorted, &[4, 8, 15, 16, 23, 42, 1, 2]);
    assert_eq!(listed(&t), vec![1, 2, 3, 5, 8, 13, 21, 34]);

    let sorted = [1, 2, 3, 5, 8, 13, 21, 34];
    let t = with_priorities(&sorted, &[4, 8, 15, 16, 23, 42, 1, 2]);
    assert_eq!(listed(&t), vec![1, 2, 3, 5, 8, 13, 21, 34]);

    let mut t = Treap::new();
    for key in unsorted.iter() {
        t = t.insert(*key);
    }
    assert_eq!(listed(&t), vec![1, 2, 3, 5, 8, 13, 21, 34]);
}

#[test]
fn deleting_twice_is_deleting_once() {
    let t = with_priorities(&[4, 9, 2, 7], &[3, 1, 4, 5]);
    let once = t.delete(9);
    let seen_once = listed(&once);
    let size_once = once.size();
    let twice = once.delete(9);
    assert_eq!(listed(&twice), seen_once);
    assert_eq!(twice.size(), size_once);
    assert_eq!(seen_once, vec![2, 4, 7]);
}

#[test]
fn a_key_held_twice_is_deleted_one_at_a_time() {
    let t = with_priorities(&[5, 5, 3], &[1, 2, 3]);
    assert_eq!(t.size(), 3);
    assert_eq!(listed(&t), vec![3, 5, 5]);
    let t = t.delete(5);
    assert_eq!(listed(&t), vec![3, 5]);
    assert!(t.search(&5));
    let t = t.delete(5);
    assert_eq!(listed(&t), vec![3]);
    assert!(!t.search(&5));
}

#[test]
fn equal_keys_are_kept_whatever_their_priorities() {
    let rising = with_priorities(&[5, 5, 5], &[1, 2, 3]);
    assert_eq!(listed(&rising), vec![5, 5, 5]);
    assert_eq!(rising.size(), 3);
    let falling = with_priorities(&[5, 5, 5], &[3, 2, 1]);
    assert_eq!(listed(&falling), vec![5, 5, 5]);
    assert_eq!(falling.size(), 3);
}

#[test]
fn split_then_merge_gives_the_keys_back() {
    let keys = [15, 4, 8, 23, 16, 42];
    let priorities = [6, 5, 4, 3, 2, 1];
    for cut in [0, 4, 10, 16, 42, 100] {
        let t = with_priorities(&keys, &priorities);
        let (low, high) = t.split(&cut);
        assert!(low.is_ordered());
        assert!(high.is_ordered());
        for key in listed(&low) {
            assert!(key <= cut);
        }
        for key in listed(&high) {
            assert!(key > cut);
        }
        let joined = low.merge(high);
        assert!(joined.is_ordered());
        assert_eq!(joined.size(), 6);
        assert_eq!(listed(&joined), vec![4, 8, 15, 16, 23, 42]);
    }
}

#[test]
fn split_puts_a_key_that_equals_the_cut_in_the_first_part() {
    let t = with_priorities(&[1, 2, 3], &[10, 30, 20]);
    let (low, high) = t.split(&2);
    assert_eq!(listed(&low), vec![1, 2]);
    assert_eq!(listed(&high), vec![3]);
    assert_eq!(low.size(), 2);
    assert_eq!(high.size(), 1);
}

#[test]
fn split_keeps_every_priority_in_one_part() {
    let t = with_priorities(&[1, 2, 3], &[10, 30, 20]);
    let (low, high) = t.split(&1);
    assert!(low.has_priority(10));
    assert!(!low.has_priority(30));
    assert!(high.has_priority(30));
    assert!(high.has_priority(20));
    assert!(!high.has_priority(10));
}

#[test]
fn merge_with_an_empty_treap_is_the_other_treap() {
    let t = with_priorities(&[1, 2, 3], &[10, 30, 20]);
    let joined = Treap::new().merge(t);
    assert_eq!(listed(&joined), vec![1, 2, 3]);
    let joined = joined.merge(Treap::new());
    assert_eq!(listed(&joined), vec![1, 2, 3]);
    assert_eq!(joined.size(), 3);
}

#[test]
fn union_keeps_a_key_of_both_treaps_twice() {
    let a = with_priorities(&[1, 5, 9], &[1, 2, 3]);
    let b = with_priorities(&[5, 7], &[10, 20]);
    let u = a.union(b);
    assert_eq!(listed(&u), vec![1, 5, 5, 7, 9]);
    assert_eq!(u.size(), 5);
    for p in [1, 2, 3, 10, 20] {
        assert!(u.has_priority(p));
    }
}

#[test]
fn union_with_the_empty_treap() {
    let a = with_priorities(&[1, 5, 9], &[1, 2, 3]);
    let u = a.union(Treap::new());
    assert_eq!(listed(&u), vec![1, 5, 9]);
    let u = Treap::new().union(u);
    assert_eq!(listed(&u), vec![1, 5, 9]);
}

#[test]
fn insert_then_delete_then_search() {
    let mut t = Treap::new();
    t = t.insert(10).insert(5).insert(1);
    assert_eq!(t.size(), 3);
    t = t.delete(5);
    assert_eq!(t.size(), 2);
    assert!(!t.search(&5));
    assert!(t.search(&10));
    assert!(t.search(&1));
    t = t.delete(3);
    assert_eq!(t.size(), 2);
    assert_eq!(listed(&t), vec![1, 10]);
}

#[test]
fn from_one_to_nine() {
    let t = Treap::from(&[1, 2, 3, 4, 5, 6, 7, 8, 9]);
    assert_eq!(t.size(), 9);
    assert_eq!(listed(&t), vec![1, 2, 3, 4, 5, 6, 7, 8, 9]);
    assert!(t.is_ordered());
}

#[test]
fn from_nothing_is_the_empty_treap() {
    let source: [i32; 0] = [];
    let t = Treap::from(&source);
    assert_eq!(t.size(), 0);
    assert!(t.is_ordered());
}

#[test]
fn a_treap_from_a_slice_takes_inserts_and_deletes() {
    let t = Treap::from(&[10, 20, 30, 40]);
    let t = t.insert(25).delete(10);
    assert_eq!(listed(&t), vec![20, 25, 30, 40]);
    assert_eq!(t.size(), 4);
    assert!(t.is_ordered());
}

#[test]
fn from_with_priorities_carries_the_priorities_given() {
    let t = Treap::from_with_priorities(&[1, 2, 3, 4, 5], &[5, 1, 9, 7, 3]);
    assert_eq!(t.size(), 5);
    assert_eq!(listed(&t), vec![1, 2, 3, 4, 5]);
    assert!(t.is_ordered());
    for p in [5, 1, 9, 7, 3] {
        assert!(t.has_priority(p));
    }
    assert!(!t.has_priority(2));
    assert!(!t.has_priority(0));
}

#[test]
fn from_with_a_priority_of_zero() {
    let t = Treap::from_with_priorities(&[1, 2, 3], &[7, 3, 0]);
    assert!(t.is_ordered());
    assert!(t.has_priority(0));
    assert_eq!(listed(&t), vec![1, 2, 3]);
    let t = Treap::from_with_priorities(&[1, 2, 3], &[0, 3, 7]);
    assert!(t.is_ordered());
    assert_eq!(t.size(), 3);
}

#[test]
fn from_if_distinct_refuses_a_repeated_priority() {
    let t = Treap::from_if_distinct(&[1, 2, 3], &[7, 3, 7]);
    assert_eq!(t.size(), 0);
    assert!(listed(&t).is_empty());
    let t = Treap::from_if_distinct(&[1, 2, 3], &[7, 3]);
    assert_eq!(t.size(), 0);
    let t = Treap::from_if_distinct(&[1, 2, 3], &[7, 3, 8]);
    assert_eq!(t.size(), 3);
    assert_eq!(listed(&t), vec![1, 2, 3]);
}

#[test]
fn insert_if_fresh_refuses_a_priority_in_use() {
    let t = with_priorities(&[1, 2], &[10, 20]);
    let t = t.insert_if_fresh(3, 20);
    assert_eq!(t.size(), 2);
    assert_eq!(listed(&t), vec![1, 2]);
    let t = t.insert_if_fresh(3, 30);
    assert_eq!(t.size(), 3);
    assert_eq!(listed(&t), vec![1, 2, 3]);
    assert!(t.has_priority(30));
}

#[test]
fn a_deleted_priority_is_no_longer_in_use() {
    let t = with_priorities(&[1, 2, 3], &[10, 20, 30]);
    let t = t.delete(2);
    assert!(t.has_priority(10));
    assert!(!t.has_priority(20));
    assert!(t.has_priority(30));
    let t = t.insert_with_priority(2, 20);
    assert_eq!(listed(&t), vec![1, 2, 3]);
    assert!(t.is_ordered());
}

#[test]
fn inserts_in_every_order_of_priorities() {
    let keys = [3, 1, 2];
    let orders: [[u64; 3]; 6] =
        [[1, 2, 3], [1, 3, 2], [2, 1, 3], [2, 3, 1], [3, 1, 2], [3, 2, 1]];
    for priorities in orders.iter() {
        let t = with_priorities(&keys, priorities);
        assert!(t.is_ordered());
        assert_eq!(t.size(), 3);
        assert_eq!(listed(&t), vec![1, 2, 3]);
        let t = t.delete(2);
        assert!(t.is_ordered());
        assert_eq!(listed(&t), vec![1, 3]);
    }
}

#[test]
fn many_random_inserts_and_deletes() {
    let mut t = Treap::new();
    for i in 0..500 {
        t = t.insert((i * 37) % 501);
    }
    assert_eq!(t.size(), 500);
    assert!(t.is_ordered());
    assert!(ascending(&listed(&t)));
    for i in 0..250 {
        t = t.delete((i * 37) % 501);
    }
    assert_eq!(t.size(), 250);
    assert!(t.is_ordered());
    assert!(ascending(&listed(&t)));
    for i in 0..250 {
        assert!(!t.search(&((i * 37) % 501)));
    }
    for i in 250..500 {
        assert!(t.search(&((i * 37) % 501)));
    }
}

#[test]
fn a_treap_of_strings() {
    let mut t = Treap::new();
    for word in ["pear", "apple", "fig", "plum"] {
        t = t.insert(String::from(word));
    }
    assert_eq!(t.size(), 4);
    let mut seen = Vec::new();
    for word in t.keys() {
        seen.push(word.clone());
    }
    assert_eq!(seen, vec!["apple", "fig", "pear", "plum"]);
    assert!(t.search(&String::from("fig")));
    let t = t.delete(String::from("fig"));
    assert!(!t.search(&String::from("fig")));
}

#[test]
fn the_least_and_the_greatest_key() {
    let t: Treap<i32> = Treap::new();
    assert_eq!(t.min(), None);
    assert_eq!(t.max(), None);
    let t = with_priorities(&[15, 4, 8, 23, 16, 42], &[6, 5, 4, 3, 2, 1]);
    assert_eq!(t.min(), Some(&4));
    assert_eq!(t.max(), Some(&42));
    let t = t.delete(4).delete(42);
    assert_eq!(t.min(), Some(&8));
    assert_eq!(t.max(), Some(&23));
    let t = with_priorities(&[7], &[1]);
    assert_eq!(t.min(), Some(&7));
    assert_eq!(t.max(), Some(&7));
}

#[test]
fn an_insert_into_the_empty_treap_adds_the_key() {
    for key in 0..200 {
        let t = Treap::new().insert(key);
        assert_eq!(t.size(), 1);
        assert_eq!(listed(&t), vec![key]);
        assert!(t.search(&key));
    }
}

#[test]
fn a_treap_from_one_key_holds_it() {
    for key in 0..200 {
        let t = Treap::from(&[key]);
        assert_eq!(t.size(), 1);
        assert_eq!(listed(&t), vec![key]);
        assert!(t.is_ordered());
    }
}

#[test]
fn an_insertion_with_a_priority_in_use_fails_and_hands_all_back() {
    let t = with_priorities(&[1, 2], &[10, 20]);
    match t.try_insert_with_priority(3, 20) {
        Ok(_) => panic!("a priority that is in use was taken"),
        Err((why, back, key)) => {
            assert_eq!(why, Refused::EqualPriority);
            assert_eq!(key, 3);
            assert_eq!(listed(&back), vec![1, 2]);
            assert_eq!(back.size(), 2);
            assert!(back.has_priority(20));
        }
    }
}

#[test]
fn an_insertion_with_a_fresh_priority_succeeds() {
    let t = with_priorities(&[1, 2], &[10, 20]);
    match t.try_insert_with_priority(3, 30) {
        Ok(grown) => {
            assert_eq!(listed(&grown), vec![1, 2, 3]);
            assert!(grown.has_priority(30));
            assert!(grown.is_ordered());
        }
        Err(_) => panic!("a fresh priority was refused"),
    }
}

#[test]
fn a_random_insertion_into_the_empty_treap_succeeds() {
    for key in 0..100 {
        let t: Treap<i32> = Treap::new();
        match t.try_insert(key) {
            Ok(grown) => assert_eq!(listed(&grown), vec![key]),
            Err(_) => panic!("the empty treap refused a key"),
        }
    }
}

#[test]
fn a_treap_from_many_keys_holds_them_all() {
    let mut source = Vec::new();
    for i in 0..5000 {
        source.push(i * 3);
    }
    let t = Treap::from(&source);
    assert_eq!(t.size(), 5000);
    assert_eq!(listed(&t), source);
    assert!(t.is_ordered());
    assert_eq!(t.min(), Some(&0));
    assert_eq!(t.max(), Some(&14997));
}

#[test]
fn deleting_an_absent_key_leaves_every_priority_in_place() {
    let t = with_priorities(&[4, 9, 2, 7], &[3, 1, 4, 5]);
    let t = t.delete(5);
    assert_eq!(listed(&t), vec![2, 4, 7, 9]);
    for p in [3, 1, 4, 5] {
        assert!(t.has_priority(p));
    }
    assert!(t.is_ordered());
}
