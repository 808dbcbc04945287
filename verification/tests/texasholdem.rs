use poker::games::texasholdem::TexasHoldem;
use poker::game::Game;
use poker::player::Player;
use poker::hand::Hand;

#[test]
fn test_community_card_progression() {
    let mut game = TexasHoldem::new();
    game.start_game();
    assert_eq!(game.community_len(), 0);

    let mut players: Vec<Player> = Vec::new();
    game.advance_round();
    game.handle_round_action(&mut players, &[], &[]); // Flop
    assert_eq!(game.community_len(), 3);

    game.advance_round();
    game.handle_round_action(&mut players, &[], &[]); // Turn
    assert_eq!(game.community_len(), 4);

    game.advance_round();
    game.handle_round_action(&mut players, &[], &[]); // River
    assert_eq!(game.community_len(), 5);
}

#[test]
fn test_determine_winner_combines_community_cards() {
    let mut game = TexasHoldem::new();
    game.start_game();

    game.set_community_cards(Hand(vec![
        0x2E, // ♥10
        0x2B, // ♥11
        0x2C, // ♥12
        0x2D, // ♥13
        0x21, // ♥1 (Ace)
    ]));

    let player1 = Player {
        id: 1,
        name: "P1".into(),
        wallet: 100,
        hand: Hand(vec![0x10, 0x11]), // Low unrelated cards
        bet: 0,
        folded: false,
    };

    let player2 = Player {
        id: 2,
        name: "P2".into(),
        wallet: 100,
        hand: Hand(vec![0x22, 0x23]), // ♥2, ♥3 — completes royal flush
        bet: 0,
        folded: false,
    };

    let winner = game.determine_winner(&[
        (&player1.id, &player1.hand),
        (&player2.id, &player2.hand),
    ]);

    assert_eq!(winner, Some(2));
}

#[test]
fn round_zero_deals_two_cards_around_the_ring() {
    let mut game = TexasHoldem::new();
    game.start_game();
    let mut players = vec![
        Player { id: 1, name: "A".into(), wallet: 100, hand: Hand(vec![]), bet: 0, folded: false },
        Player { id: 2, name: "B".into(), wallet: 100, hand: Hand(vec![]), bet: 0, folded: true },
        Player { id: 3, name: "C".into(), wallet: 100, hand: Hand(vec![]), bet: 0, folded: false },
    ];
    let deck = game.get_deck().0.clone();
    let over = game.handle_round_action(&mut players, &[2, 0, 1], &[2, 0, 1]);
    assert!(!over);
    assert_eq!(players[2].hand.0, deck[50..52].to_vec());
    assert_eq!(players[0].hand.0, deck[48..50].to_vec());
    assert!(players[1].hand.is_empty());
    assert_eq!(game.get_deck().len(), 48);
}

#[test]
fn the_hand_is_over_after_the_river() {
    let mut game = TexasHoldem::new();
    game.start_game();
    let mut players: Vec<Player> = Vec::new();
    for _ in 0..4 {
        game.advance_round();
    }
    assert!(game.handle_round_action(&mut players, &[], &[]));
    assert_eq!(game.get_round(), 4);
}

#[test]
fn betting_moves_are_left_to_the_table() {
    let mut game = TexasHoldem::new();
    let mut player = Player::new(1, "A".into(), 10);
    assert_eq!(game.client_action(&mut player, &["RAISE", "5"]), Err("[BET]"));
    assert!(!game.is_ante());
}
