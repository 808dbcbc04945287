use poker::games::fivecarddraw::FiveCardDraw;
use poker::game::Game;
use poker::player::Player;

#[test]
fn test_start_and_deal() {
    let mut game = FiveCardDraw::new();
    game.start_game();
    assert_eq!(game.get_deck().len(), 52);

    let mut player = Player::new(1, "Alice".to_string(), 1000);
    game.deal_to_player(&mut player).unwrap();

    assert_eq!(player.hand.len(), 5);
    assert_eq!(game.get_deck().len(), 47); // 52 - 5
}

#[test]
fn test_replace_cards_success() {
    let mut game = FiveCardDraw::new();
    game.start_game();

    let mut player = Player::new(1, "Bob".to_string(), 1000);
    game.deal_to_player(&mut player).unwrap();

    let hand = player.hand.clone();
    let discard = vec![hand[0], hand[1]];

    game.replace_cards(&mut player, discard).unwrap();
    let new_hand = &player.hand;
    assert_eq!(new_hand.len(), 5);
}

#[test]
fn test_replace_too_many_cards() {
    let mut game = FiveCardDraw::new();
    game.start_game();

    let mut player = Player::new(1, "Bob".to_string(), 1000);
    game.deal_to_player(&mut player).unwrap();

    let hand = player.hand.clone();
    let discard = hand[..5].to_vec();

    let result = game.replace_cards(&mut player, discard);
    assert!(result.is_err());
}

#[test]
fn replacing_a_card_not_held_is_refused() {
    let mut game = FiveCardDraw::new();
    game.start_game();
    let mut player = Player::new(1, "Bob".to_string(), 1000);
    game.deal_to_player(&mut player).unwrap();
    let before = player.hand.0.clone();
    let missing = (1..=255u8).find(|c| !before.contains(c)).unwrap();
    assert_eq!(game.replace_cards(&mut player, vec![missing]), Err("Card not in hand"));
    assert_eq!(player.hand.0, before);
    assert_eq!(game.get_deck().len(), 47);
}

#[test]
fn replacing_keeps_the_other_cards_and_deals_from_the_deck() {
    let mut game = FiveCardDraw::new();
    game.start_game();
    let mut player = Player::new(1, "Bob".to_string(), 1000);
    game.deal_to_player(&mut player).unwrap();
    let hand = player.hand.0.clone();
    let deck_before = game.get_deck().0.clone();
    game.replace_cards(&mut player, vec![hand[1]]).unwrap();
    let mut kept = hand.clone();
    kept.remove(1);
    assert_eq!(player.hand.0[..4], kept[..]);
    assert_eq!(player.hand.0[4], deck_before[deck_before.len() - 1]);
    assert_eq!(game.get_deck().len(), 46);
}

#[test]
fn client_action_outside_round_one_is_a_bet() {
    let mut game = FiveCardDraw::new();
    game.start_game();
    let mut player = Player::new(1, "Bob".to_string(), 1000);
    assert_eq!(game.client_action(&mut player, &["CHECK"]), Err("[BET]"));
    game.advance_round();
    assert_eq!(game.client_action(&mut player, &["CHECK"]), Err("[ERROR] REPLACE CARDS\n"));
    assert_eq!(game.client_action(&mut player, &["REPLACE_CARDS", "x"]), Err("[ERROR] INVALID CARD\n"));
}
