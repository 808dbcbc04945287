use poker::hand::{Hand, HandRank};
use poker::card::Card;
use std::cmp::Ordering;

fn card(suit: u8, value: u8) -> u8 {
    Card::from_suit_value(suit, value).0
}

#[test]
fn test_hand_high_card() {
    let cards = vec![card(0, 2), card(1, 4), card(2, 6)];
    let hand = Hand(cards.clone());
    let rank = hand.evaluate();
    assert!(matches!(rank, HandRank::HighCard(_, _)));
}

#[test]
fn test_hand_one_pair() {
    let cards = vec![card(0, 2), card(1, 2), card(2, 5)];
    let hand = Hand(cards);
    let rank = hand.evaluate();
    assert!(matches!(rank, HandRank::OnePair(_, _, _)));
}

#[test]
fn test_hand_empty() {
    let hand = Hand::new();
    let rank = hand.evaluate();
    assert_eq!(rank, HandRank::NoCards());
}

#[test]
fn test_to_broadcast_face_up_only() {
    let cards = vec![card(1, 10), card(2, 11)];
    let mut hand = Hand(cards.clone());

    hand.0[0] |= 1 << 6;

    let broadcast = hand.to_broadcast();
    assert_eq!(broadcast[0], hand[0]);
    assert_eq!(broadcast[1], 0);
}

#[test]
fn straights_and_flushes() {
    let royal = Hand(vec![card(2, 10), card(2, 11), card(2, 12), card(2, 13), card(2, 1)]);
    assert!(matches!(royal.evaluate(), HandRank::RoyalFlush(_)));
    let wheel = Hand(vec![card(0, 1), card(1, 2), card(2, 3), card(3, 4), card(0, 5)]);
    assert_eq!(Hand::check_straight(&[1, 2, 3, 4, 5]), Some(5));
    assert!(matches!(wheel.evaluate(), HandRank::Straight(_, _)));
    let flush = Hand(vec![card(3, 2), card(3, 5), card(3, 9), card(3, 11), card(3, 13)]);
    assert!(matches!(flush.evaluate(), HandRank::Flush(_, _)));
    assert_eq!(Hand::check_straight(&[9, 10, 11, 12, 13]), Some(13));
    assert_eq!(Hand::check_straight(&[2, 3, 4, 5, 7]), None);
}

#[test]
fn groups_of_equal_values() {
    let four = Hand(vec![card(0, 9), card(1, 9), card(2, 9), card(3, 9), card(0, 2)]);
    assert!(matches!(four.evaluate(), HandRank::FourOfAKind(_, _, _)));
    let full = Hand(vec![card(0, 9), card(1, 9), card(2, 9), card(3, 4), card(0, 4)]);
    assert!(matches!(full.evaluate(), HandRank::FullHouse(_, _, _)));
    let two = Hand(vec![card(0, 9), card(1, 9), card(2, 4), card(3, 4), card(0, 2)]);
    assert!(matches!(two.evaluate(), HandRank::TwoPair(_, _, _, _)));
    let three = Hand(vec![card(0, 9), card(1, 9), card(2, 9), card(3, 4), card(0, 2)]);
    assert!(matches!(three.evaluate(), HandRank::ThreeOfAKind(_, _, _)));
}

#[test]
fn count_values_counts_each_value() {
    let counts = Hand::count_values(&[3, 3, 7, 1, 3]);
    assert_eq!(counts.len(), 3);
    assert_eq!(counts[&3], 3);
    assert_eq!(counts[&7], 1);
    assert_eq!(counts[&1], 1);
    assert!(counts.get(&2).is_none());
}

#[test]
fn ranks_order_by_category_then_values() {
    let pair = Hand(vec![card(0, 2), card(1, 2), card(2, 5)]).evaluate();
    let high = Hand(vec![card(0, 13), card(1, 12), card(2, 5)]).evaluate();
    assert!(pair.rank_value() > high.rank_value());
    assert_eq!(high.cmp(&pair), Ordering::Less);
    assert_eq!(pair.cmp(&high), Ordering::Greater);
    assert_eq!(pair.cmp(&pair.clone()), Ordering::Equal);
    assert_eq!(HandRank::compare_values(&[5, 3], &[5, 4]), Ordering::Less);
    assert_eq!(HandRank::compare_values(&[5, 3], &[5, 3]), Ordering::Equal);
}

#[test]
fn rank_text() {
    let royal = Hand(vec![card(2, 10), card(2, 11), card(2, 12), card(2, 13), card(2, 1)]).evaluate();
    assert_eq!(royal.to_string(), "Royal Flush");
}
