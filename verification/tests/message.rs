use poker::client::can_raise;
use poker::hand::Hand;
use poker::message::{
    apply_update, game_names, game_state_summary, game_target, low_bytes_of, GameInfoReply, GameLine,
    GameStateView, GamesList, PlayerLine, PlayerUpdate,
};
use poker::player::{joining_player, Player};

#[test]
fn a_table_state_is_summarised() {
    let state = GameStateView {
        turn: Some(Some(7)),
        pot: Some(150),
        players: Some(vec![
            PlayerLine { id: Some(7), name: Some("Alice".to_string()), wallet: 950, bet: 50, folded: false, hand: vec![0x41, 0x5D] },
            PlayerLine { id: None, name: Some("Nobody".to_string()), wallet: 0, bet: 0, folded: false, hand: vec![] },
        ]),
        game: Some(GameLine { round: Some(1), community_cards: Some(vec![]) }),
    };
    let expected = format!(
        "\n=== Game State Update ===\nCurrent turn: Player 7\nPot: 150\nPlayers:\n  \"Alice\" (7):\n  Wallet=950,\n  Bet=50,\n  Folded=false,\n  Hand={}\nGame State:\n  Round: 1\n  Community Cards: \n=========================\n\n",
        Hand(vec![0x41, 0x5D]).to_string()
    );
    assert_eq!(game_state_summary(&state), expected);
}

#[test]
fn a_state_without_a_turn_or_players() {
    let state = GameStateView { turn: Some(None), pot: None, players: None, game: None };
    assert_eq!(
        game_state_summary(&state),
        "\n=== Game State Update ===\nCurrent turn: Player null\n\n=========================\n\n"
    );
}

#[test]
fn card_numbers_keep_their_low_byte() {
    assert_eq!(low_bytes_of(&[0x41, 0x141, 3]), vec![0x41, 0x41, 3]);
}

#[test]
fn the_game_target_uses_the_lobby_address() {
    let reply = GameInfoReply { port: 10001, multicast: "224.0.0.2".to_string() };
    assert_eq!(game_target("10.0.0.5", &reply), ("10.0.0.5:10001".to_string(), "224.0.0.2".to_string()));
    let wide = GameInfoReply { port: 65536 + 80, multicast: "x".to_string() };
    assert_eq!(game_target("h", &wide).0, "h:80");
}

#[test]
fn game_names_are_listed_once() {
    let lists = vec![
        GamesList { games: vec!["TexasHoldem".to_string(), "FiveCardDraw".to_string()] },
        GamesList { games: vec!["FiveCardDraw".to_string(), "SevenCardStud".to_string(), "TexasHoldem".to_string()] },
    ];
    assert_eq!(game_names(&lists), vec!["TexasHoldem", "FiveCardDraw", "SevenCardStud"]);
    assert!(game_names(&[]).is_empty());
}

#[test]
fn an_update_replaces_the_given_fields() {
    let mut p = Player::new(3, "Cleo".to_string(), 1000);
    apply_update(&mut p, &PlayerUpdate { wallet: Some(900), bet: None, hand: Some(vec![0x12, 0x1A]) });
    assert_eq!(p.wallet, 900);
    assert_eq!(p.bet, 0);
    assert_eq!(p.hand.0, vec![0x12, 0x1A]);
    apply_update(&mut p, &PlayerUpdate { wallet: None, bet: Some(100), hand: None });
    assert_eq!(p.wallet, 900);
    assert_eq!(p.bet, 100);
    assert_eq!(p.hand.0, vec![0x12, 0x1A]);
    assert_eq!(p.name, "Cleo");
}

#[test]
fn a_raise_needs_the_money() {
    assert!(can_raise(100, 100));
    assert!(can_raise(100, 0));
    assert!(!can_raise(100, 101));
}

#[test]
fn a_joining_player_keeps_the_stored_record() {
    let mut stored = Player::new(5, "Old".to_string(), 420);
    stored.bet = 0;
    let p = joining_player(Some(stored), 5, "New".to_string(), Some(9));
    assert_eq!((p.id, p.name.as_str(), p.wallet), (5, "New", 420));
    let q = joining_player(None, 6, "Fresh".to_string(), None);
    assert_eq!((q.id, q.name.as_str(), q.wallet, q.bet, q.folded), (6, "Fresh", 1000, 0, false));
    assert!(q.hand.is_empty());
    assert_eq!(joining_player(None, 6, "Rich".to_string(), Some(5000)).wallet, 5000);
}
