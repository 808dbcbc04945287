use poker::games::sevencardstud::SevenCardStud;
use poker::games::texasholdem::TexasHoldem;
use poker::game::Game;
use poker::hand::Hand;
use poker::player::Player;
use poker::table::{ActionReply, Table, TurnError};

fn player(id: u64, name: &str, wallet: u64) -> Player {
    Player { id, name: name.to_string(), wallet, hand: Hand(vec![]), bet: 0, folded: false }
}

fn ids<G: Game>(table: &Table<G>) -> Vec<u64> {
    table.players.iter().map(|p| p.id).collect()
}

fn money<G: Game>(table: &Table<G>) -> u64 {
    table.players.iter().map(|p| p.wallet).sum::<u64>() + table.pot
}

#[test]
fn test_table_creation() {
    let table: Table<TexasHoldem> = Table::new();
    assert_eq!(table.players.len(), 0);
    assert_eq!(table.get_num_players(), 0);
    assert!(table.head.is_none());
    assert!(table.blind.is_none());
    assert!(table.turn.is_none());
    assert!(table.bettor.is_none());
    assert_eq!(table.bet, 0);
    assert_eq!(table.pot, 0);
    assert!(!table.is_running());
    assert!(table.showdown.is_none());
}

#[test]
fn test_add_player() {
    let mut table: Table<TexasHoldem> = Table::new();
    assert!(table.add_player(player(1, "Alice", 1000)).is_ok());
    assert_eq!(table.players.len(), 1);
    assert_eq!(table.head, Some(1));
    assert_eq!(table.blind, Some(1));
    let found = table.get_player(1).unwrap();
    assert_eq!(found.name, "Alice");
    assert_eq!(found.wallet, 1000);
}

#[test]
fn test_add_multiple_players() {
    let mut table: Table<TexasHoldem> = Table::new();
    table.add_player(player(1, "Alice", 1000)).unwrap();
    table.add_player(player(2, "Bob", 1500)).unwrap();
    assert_eq!(table.players.len(), 2);
    // A newcomer sits just before the head, last in the order of the ring.
    assert_eq!(ids(&table), vec![2, 1]);
    assert_eq!(table.head, Some(1));
    assert_eq!(table.add_player(player(1, "Again", 5)), Err("Player with ID 1 already exists".to_string()));
    assert_eq!(table.players.len(), 2);
}

#[test]
fn test_get_player() {
    let mut table: Table<TexasHoldem> = Table::new();
    table.add_player(player(42, "Charlie", 2000)).unwrap();
    assert_eq!(table.get_player(42).unwrap().id, 42);
    assert!(table.get_player(99).is_none());
}

#[test]
fn test_remove_player() {
    let mut table: Table<TexasHoldem> = Table::new();
    for i in 1..=3 {
        table.add_player(player(i, &format!("Player{}", i), 1000 * i)).unwrap();
    }
    assert_eq!(ids(&table), vec![2, 3, 1]);

    assert_eq!(table.remove_player(2).unwrap().1, "REMOVED\n");
    assert_eq!(ids(&table), vec![3, 1]);
    assert_eq!(table.head, Some(1));

    assert_eq!(table.remove_player(1).unwrap().1, "REMOVED\n");
    assert_eq!(ids(&table), vec![3]);
    assert_eq!(table.head, Some(3));
    assert_eq!(table.blind, Some(3));

    assert_eq!(table.remove_player(3).unwrap().1, "REMOVED\n");
    assert_eq!(table.players.len(), 0);
    assert!(table.head.is_none());
    assert!(table.blind.is_none());

    assert_eq!(table.remove_player(3).unwrap_err(), "Player not found");
}

#[test]
fn test_raise() {
    let mut table: Table<TexasHoldem> = Table::new();
    table.add_player(player(1, "Alice", 1000)).unwrap();
    assert!(table.raise(1, 100).is_ok());
    assert_eq!(table.pot, 100);
    assert_eq!(table.bet, 100);
    let p = table.get_player(1).unwrap();
    assert_eq!(p.wallet, 900);
    assert_eq!(p.bet, 100);
    assert_eq!(table.bettor, Some(1));
    assert_eq!(table.raise(99, 100), Err("Player not found".to_string()));
    assert_eq!(table.raise(1, 5000), Err("Insufficient funds".to_string()));
    assert_eq!(table.pot, 100);
}

#[test]
fn test_check() {
    let mut table: Table<TexasHoldem> = Table::new();
    table.add_player(player(1, "Alice", 1000)).unwrap();
    table.add_player(player(2, "Bob", 1000)).unwrap();
    table.raise(1, 50).unwrap();
    assert_eq!(table.bet, 50);
    assert!(table.check(2).is_ok());
    assert_eq!(table.pot, 100);
    let bob = table.get_player(2).unwrap();
    assert_eq!(bob.wallet, 950);
    assert_eq!(bob.bet, 50);
    assert_eq!(table.check(99), Err("Player not found".to_string()));
}

#[test]
fn check_without_the_money_is_refused() {
    let mut table: Table<TexasHoldem> = Table::new();
    table.add_player(player(1, "Alice", 1000)).unwrap();
    table.add_player(player(2, "Bob", 30)).unwrap();
    table.raise(1, 50).unwrap();
    assert_eq!(table.check(2), Err("Insufficient funds to check".to_string()));
    assert_eq!(table.get_player(2).unwrap().wallet, 30);
    assert_eq!(table.pot, 50);
}

#[test]
fn test_fold() {
    let mut table: Table<TexasHoldem> = Table::new();
    table.add_player(player(1, "Alice", 1000)).unwrap();
    assert!(table.fold(1).is_ok());
    assert!(table.get_player(1).unwrap().folded);
    assert_eq!(table.fold(99).unwrap_err(), "Player not found");
}

#[test]
fn test_start_game_and_advance_turn() {
    let mut table: Table<TexasHoldem> = Table::new();
    for i in 1..=3 {
        table.add_player(player(i, &format!("Player{}", i), 1000)).unwrap();
    }
    let events = table.start_game();
    assert!(events.started);
    assert!(!events.ended);
    // The blind (the first player) put in 50; the turn is with the seat after it.
    assert_eq!(table.get_player(1).unwrap().wallet, 950);
    assert_eq!(table.pot, 50);
    assert_eq!(table.bet, 50);
    assert_eq!(table.bettor, Some(1));
    assert_eq!(table.turn, Some(2));
    for p in table.players.iter() {
        assert_eq!(p.hand.len(), 2);
        assert!(!p.folded);
    }
    assert_eq!(table.game.get_deck().len(), 46);

    table.advance_turn();
    assert_eq!(table.turn, Some(3));
    table.advance_turn();
    assert_eq!(table.turn, Some(1));
    assert_eq!(table.game.get_round(), 0);
}

#[test]
fn a_matched_round_moves_the_game_on() {
    let mut table: Table<TexasHoldem> = Table::new();
    for i in 1..=3 {
        table.add_player(player(i, &format!("Player{}", i), 1000)).unwrap();
    }
    table.start_game();
    let start = money(&table);
    let ev = table.play_turn(2, &["CHECK"]).unwrap();
    assert!(!ev.round_advanced);
    assert_eq!(table.turn, Some(3));
    let ev = table.play_turn(3, &["CHECK"]).unwrap();
    assert!(ev.round_advanced);
    assert_eq!(table.game.get_round(), 1);
    assert_eq!(table.game.community_len(), 3);
    assert_eq!(table.turn, Some(1));
    assert_eq!(table.pot, 150);
    assert_eq!(money(&table), start);
}

#[test]
fn moves_out_of_turn_or_unknown_are_refused() {
    let mut table: Table<TexasHoldem> = Table::new();
    for i in 1..=3 {
        table.add_player(player(i, &format!("Player{}", i), 1000)).unwrap();
    }
    table.start_game();
    assert!(matches!(table.play_turn(3, &["CHECK"]), Err(TurnError::NotYourTurn)));
    assert!(matches!(table.play_turn(2, &["RAISE", "lots"]), Err(TurnError::InvalidAmount)));
    assert!(matches!(table.play_turn(2, &["DANCE"]), Err(TurnError::InvalidCommand)));
    match table.play_turn(2, &["RAISE", "5000"]) {
        Err(TurnError::Refused(m)) => assert_eq!(m, "Insufficient funds"),
        _ => panic!("a raise beyond the wallet is refused"),
    }
    assert_eq!(table.turn, Some(2));
}

#[test]
fn folding_down_to_one_player_pays_the_pot() {
    let mut table: Table<TexasHoldem> = Table::new();
    table.add_player(player(1, "Alice", 1000)).unwrap();
    table.add_player(player(2, "Bob", 1000)).unwrap();
    table.start_game();
    assert_eq!(table.turn, Some(2));
    let start = money(&table);
    let ev = table.play_turn(2, &["FOLD"]).unwrap();
    assert!(ev.ended);
    let showdown = table.showdown.as_ref().unwrap();
    assert_eq!(showdown.winner, 1);
    assert_eq!(showdown.players.len(), 1);
    assert_eq!(showdown.players[0].id, 1);
    assert_eq!(table.get_player(1).unwrap().wallet, 1000);
    assert_eq!(table.pot, 0);
    assert_eq!(table.head, Some(1));
    assert!(table.turn.is_none());
    assert!(!table.is_running());
    assert!(table.in_hand.iter().all(|b| !*b));
    assert_eq!(money(&table), start);
}

#[test]
fn the_showdown_goes_to_the_best_hand() {
    let mut table: Table<SevenCardStud> = Table::new();
    table.add_player(player(1, "Alice", 100)).unwrap();
    table.add_player(player(2, "Bob", 100)).unwrap();
    table.add_player(player(3, "Cleo", 100)).unwrap();
    table.pot = 30;
    // Bob holds a pair of kings, Alice a pair of twos, Cleo has folded with a flush.
    table.players[0].hand = Hand(vec![0x0D, 0x1D, 0x22, 0x34, 0x06]);
    table.players[2].hand = Hand(vec![0x02, 0x12, 0x25, 0x37, 0x09]);
    table.players[1].hand = Hand(vec![0x32, 0x34, 0x36, 0x38, 0x3A]);
    table.players[1].folded = true;
    let start = money(&table);
    assert!(table.end_game());
    let showdown = table.showdown.as_ref().unwrap();
    assert_eq!(showdown.winner, 2);
    assert_eq!(showdown.players.iter().map(|e| e.id).collect::<Vec<_>>(), vec![2, 1]);
    assert_eq!(showdown.players[0].rank, "One Pair (K) with kickers 6, 4, 2");
    assert_eq!(table.get_player(2).unwrap().wallet, 130);
    assert_eq!(money(&table), start);
    for p in table.players.iter() {
        assert!(p.hand.is_empty());
        assert_eq!(p.bet, 0);
        assert!(p.folded);
    }
}

#[test]
fn antes_are_checked_to_the_blind() {
    let mut table: Table<SevenCardStud> = Table::new();
    table.add_player(player(1, "Alice", 1000)).unwrap();
    table.add_player(player(2, "Bob", 1000)).unwrap();
    table.start_game();
    assert_eq!(table.turn, Some(1));
    assert_eq!(table.pot, 100);
    assert_eq!(table.get_player(2).unwrap().wallet, 950);
    assert_eq!(table.get_player(2).unwrap().bet, 50);
}

#[test]
fn keep_playing_and_leaving_after_a_showdown() {
    let mut table: Table<TexasHoldem> = Table::new();
    table.add_player(player(1, "Alice", 1000)).unwrap();
    table.add_player(player(2, "Bob", 1000)).unwrap();
    assert_eq!(table.keep_playing(1), Err("[ERROR] NO SHOWDOWN".to_string()));
    table.start_game();
    table.play_turn(2, &["FOLD"]).unwrap();
    assert_eq!(table.keep_playing(9), Err("Player not found".to_string()));
    assert_eq!(table.keep_playing(1), Ok("KEEP_PLAYING\n".to_string()));
    let gone = table.remove_unconfirmed_players();
    assert_eq!(gone, vec![2]);
    assert_eq!(ids(&table), vec![1]);
    table.start_game();
    assert!(table.showdown.is_none());
    assert!(table.next_game_players.is_empty());
}

#[test]
fn leaving_after_a_showdown_moves_the_head_and_the_blind() {
    for keep in [1u64, 2u64] {
        let mut table: Table<TexasHoldem> = Table::new();
        table.add_player(player(1, "Alice", 1000)).unwrap();
        table.add_player(player(2, "Bob", 1000)).unwrap();
        table.start_game();
        table.play_turn(2, &["FOLD"]).unwrap();
        assert_eq!(table.head, Some(1));
        assert_eq!(table.blind, Some(2));
        assert!(table.keep_playing(keep).is_ok());
        let gone = table.remove_unconfirmed_players();
        assert_eq!(gone, vec![3 - keep]);
        assert_eq!(ids(&table), vec![keep]);
        assert_eq!(table.head, Some(keep));
        assert_eq!(table.blind, Some(keep));
        assert!(table.turn.is_none());
        assert!(table.bettor.is_none());
    }
}

#[test]
fn nobody_leaves_when_everyone_plays_on() {
    let mut table: Table<TexasHoldem> = Table::new();
    table.add_player(player(1, "Alice", 1000)).unwrap();
    table.add_player(player(2, "Bob", 1000)).unwrap();
    table.start_game();
    table.play_turn(2, &["FOLD"]).unwrap();
    assert!(table.keep_playing(1).is_ok());
    assert!(table.keep_playing(2).is_ok());
    assert!(table.remove_unconfirmed_players().is_empty());
    assert_eq!(ids(&table), vec![2, 1]);
    assert_eq!(table.head, Some(1));
    assert_eq!(table.blind, Some(2));
}

#[test]
fn browser_requests() {
    let mut table: Table<TexasHoldem> = Table::new();
    table.add_player(player(1, "Alice", 1000)).unwrap();
    table.add_player(player(2, "Bob", 1000)).unwrap();
    table.add_player(player(3, "Cleo", 1000)).unwrap();
    table.start_game();
    assert_eq!(table.run_action(2, &[]).err().unwrap(), "Command is required");
    assert_eq!(table.run_action(3, &["CHECK"]).err().unwrap(), "[ERROR] NOT YOUR TURN");
    assert_eq!(table.run_action(2, &["RAISE", "x"]).err().unwrap(), "[ERROR] INVALID AMOUNT");
    assert_eq!(table.run_action(2, &["JUMP"]).err().unwrap(), "[ERROR] INVALID COMMAND");
    assert!(matches!(table.run_action(2, &["UPDATE"]), Ok(ActionReply::Update)));
    assert_eq!(table.run_action(9, &["UPDATE"]).err().unwrap(), "Player not found");
    assert_eq!(table.run_action(2, &["KEEP_PLAYING"]).err().unwrap(), "[ERROR] NO SHOWDOWN");
    assert!(matches!(table.run_action(2, &["RAISE", "100"]), Ok(ActionReply::Played(_))));
    assert_eq!(table.bet, 100);
    assert_eq!(table.turn, Some(3));
    assert!(matches!(table.run_action(3, &["LEAVE"]), Ok(ActionReply::Left(_, _))));
    assert_eq!(ids(&table), vec![2, 1]);
    assert!(table.action_is_safe(1, &["CHECK"]));
}

#[test]
fn what_a_browser_is_shown() {
    let mut table: Table<TexasHoldem> = Table::new();
    table.add_player(player(1, "Alice", 1000)).unwrap();
    table.add_player(player(2, "Bob", 1000)).unwrap();
    table.start_game();
    let view = table.player_view(Some(2));
    assert_eq!(view.turn, Some(2));
    assert_eq!(view.pot, 50);
    assert!(view.is_running);
    assert_eq!(view.players.len(), 2);
    // Cards dealt face down are hidden from everyone but their owner.
    for p in view.players.iter() {
        assert!(p.hand.iter().all(|c| *c == 0));
    }
    let me = view.me.unwrap();
    assert_eq!(me.id, 2);
    assert_eq!(me.hand.0, table.get_player(2).unwrap().hand.0);
    assert!(table.player_view(Some(9)).me.is_none());
    assert_eq!(view.game.round, 0);
    assert_eq!(view.game.community_cards, Some(vec![]));
}

#[test]
fn saved_states() {
    let mut table: Table<TexasHoldem> = Table::new();
    table.add_player(player(1, "Alice", 1000)).unwrap();
    table.add_player(player(2, "Bob", 1000)).unwrap();
    table.start_game();
    let start = table.snapshot("start");
    assert_eq!(start.winner, None);
    assert_eq!(start.pot, 50);
    assert_eq!(start.players.iter().map(|p| p.id).collect::<Vec<_>>(), vec![2, 1]);
    table.play_turn(2, &["FOLD"]).unwrap();
    let end = table.snapshot("end");
    assert_eq!(end.winner, Some(1));
    assert_eq!(end.turn, None);
}

#[test]
fn the_table_as_text() {
    let mut table: Table<TexasHoldem> = Table::new();
    assert_eq!(
        table.to_string(),
        "Table State:\nCurrent Bet: 0\nPot: 0\nGame: \n Texas Hold'em:\n  Round: 0\n  Community Cards: \nNo players at the table.\nCurrent Turn: None\nCurrent Bettor: None\nCurrent Blind: None\n"
    );
    table.add_player(player(1, "Alice", 10)).unwrap();
    let text = table.to_string();
    // A lone player is shown twice, as the walk round the table comes back to the head.
    assert_eq!(text.matches("  Player 1 (Alice)\n  Wallet: 10\n").count(), 2);
    assert!(text.ends_with("Current Turn: None\nCurrent Bettor: None\nCurrent Blind: 1 (Alice)\n"));
}

#[test]
fn a_lost_connection_leaves_the_table() {
    let mut table: Table<TexasHoldem> = Table::new();
    for i in 1..=3 {
        table.add_player(player(i, &format!("Player{}", i), 1000)).unwrap();
    }
    table.start_game();
    assert_eq!(table.turn, Some(2));
    let ev = table.disconnect(2, true);
    assert!(!ev.ended);
    assert_eq!(ids(&table), vec![3, 1]);
    // The turn went back to the seat before the one that left, then on to the next.
    assert_eq!(table.turn, Some(3));
    let ev = table.disconnect(3, true);
    assert!(ev.ended);
    assert_eq!(ids(&table), vec![1]);
    assert!(table.showdown.is_some());
}

#[test]
fn table_unit_test_deal_cards() {
    let mut table: Table<TexasHoldem> = Table::new();
    table.add_player(player(1, "Alice", 1000)).unwrap();
    table.game.start_game();
    // Texas Hold'em deals two cards to a player.
    let seat = table.find(1).unwrap();
    assert!(table.game.deal_to_player(&mut table.players[seat]).is_ok());
    assert_eq!(table.get_player(1).unwrap().hand.len(), 2);
    assert_eq!(table.game.get_deck().len(), 50);
}
