use poker::deck::Deck;
use poker::card::Card;

#[test]
fn test_deck_creation() {
    let deck = Deck::new(false, 1);
    assert_eq!(deck.len(), 52);
}

#[test]
fn test_deck_shuffling() {
    let unshuffled = Deck::new(false, 1);
    let shuffled = Deck::new(true, 1);
    assert_ne!(unshuffled[..], shuffled[..], "Deck should be shuffled");
}

#[test]
fn deck_test_deal_cards() {
    let mut deck = Deck::new(false, 1);
    let dealt = deck.deal(5);
    assert_eq!(dealt.len(), 5);
    assert_eq!(deck.len(), 47);
}

#[test]
fn test_deal_face_up() {
    let mut deck = Deck::new(false, 1);
    let dealt = deck.deal_face_up(3);
    assert_eq!(dealt.len(), 3);
    for card in dealt {
        assert!(Card(card).face_up());
    }
}

#[test]
fn shuffling_keeps_the_cards() {
    let unshuffled = Deck::new(false, 2);
    let mut shuffled = Deck::new(true, 2).0;
    let mut plain = unshuffled.0.clone();
    assert_eq!(shuffled.len(), 104);
    shuffled.sort();
    plain.sort();
    assert_eq!(shuffled, plain);
}

#[test]
fn dealing_takes_from_the_end() {
    let mut deck = Deck::new(false, 1);
    let last_two = deck[50..].to_vec();
    let dealt = deck.deal(2);
    assert_eq!(dealt, last_two);
    let more = deck.deal(100);
    assert_eq!(more.len(), 50);
    assert_eq!(deck.len(), 0);
    assert!(deck.deal(3).is_empty());
}
