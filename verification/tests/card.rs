use poker::card::{Card, encode_card, decode_card, card_text};

#[test]
fn test_encode_decode_card() {
    for suit in 0..4 {
        for value in 1..14 {
            let encoded = encode_card(suit, value);
            let (decoded_suit, decoded_value) = decode_card(encoded);
            assert_eq!(suit, decoded_suit);
            assert_eq!(value, decoded_value);
        }
    }
}

#[test]
fn test_card_flip() {
    let mut card = Card::from_suit_value(1, 10);
    assert_eq!(card.face_up(), false);

    card.flip();
    assert_eq!(card.face_up(), true);

    card.flip();
    assert_eq!(card.face_up(), false);
}

#[test]
fn test_card_display() {
    let card = Card::from_suit_value(2, 1);
    assert_eq!(card.to_string(), "♥A");
}

#[test]
fn encoding_packs_suit_and_value() {
    assert_eq!(encode_card(2, 1), 0x21);
    assert_eq!(encode_card(3, 13), 0x3D);
    assert_eq!(decode_card(0x21 | 0x40), (2, 1));
}

#[test]
fn flipping_twice_restores_the_card() {
    let mut card = Card::from_suit_value(3, 12);
    let before = card.0;
    card.flip();
    assert_ne!(card.0, before);
    card.flip();
    assert_eq!(card.0, before);
}

#[test]
fn flip_up_and_down_set_the_face() {
    let mut card = Card::from_suit_value(0, 7);
    card.flip_up();
    assert!(card.face_up());
    card.flip_up();
    assert!(card.face_up());
    card.flip_down();
    assert!(!card.face_up());
    assert_eq!(card.decode(), (0, 7));
}

#[test]
fn decode_f_reports_the_face() {
    let card = Card::from_encoded(0x40 | encode_card(1, 11));
    assert_eq!(card.decode_f(), (true, 1, 11));
    assert_eq!(Card::new().0, 0);
}

#[test]
fn card_labels() {
    assert_eq!(card_text(encode_card(0, 10)), "♦10");
    assert_eq!(card_text(encode_card(1, 11)), "♣J");
    assert_eq!(card_text(encode_card(3, 13)), "♠K");
}
