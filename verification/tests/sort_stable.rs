use std::cmp::Ordering;

use algorithms::sort::insertion_sort::insertion_sort;
use algorithms::sort::merge_sort::merge_sort_bottom_up;
use algorithms::sort::merge_sort::merge_sort_top_down;

#[derive(Clone, Copy, Debug, PartialEq)]
struct Card {
    rank: i32,
    mark: usize,
}

impl PartialOrd for Card {
    fn partial_cmp(&self, other: &Card) -> Option<Ordering> {
        self.rank.partial_cmp(&other.rank)
    }
}

fn dealt() -> Vec<Card> {
    let mut cards = Vec::new();
    for mark in 0..300 {
        cards.push(Card { rank: ((mark * 37) % 11) as i32, mark: mark });
    }
    cards
}

fn in_order_of_dealing(cards: &Vec<Card>) -> bool {
    let mut i = 1;
    while i < cards.len() {
        if cards[i - 1].rank > cards[i].rank {
            return false;
        }
        if cards[i - 1].rank == cards[i].rank && cards[i - 1].mark > cards[i].mark {
            return false;
        }
        i += 1;
    }
    true
}

#[test]
fn insertion_sort_keeps_equal_elements_in_their_order() {
    let mut cards = dealt();
    assert!(in_order_of_dealing(insertion_sort(&mut cards)));
    assert_eq!(cards.len(), 300);
}

#[test]
fn merge_sort_top_down_keeps_equal_elements_in_their_order() {
    let mut cards = dealt();
    assert!(in_order_of_dealing(merge_sort_top_down(&mut cards)));
    assert_eq!(cards.len(), 300);
}

#[test]
fn merge_sort_bottom_up_keeps_equal_elements_in_their_order() {
    let mut cards = dealt();
    assert!(in_order_of_dealing(merge_sort_bottom_up(&mut cards)));
    assert_eq!(cards.len(), 300);
}
