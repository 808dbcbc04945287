use poker::protocol::{
    classify_request, games_message, lobby_address, lobby_reply, table_address, DebugCommand, GameInfo,
    Request,
};

#[test]
fn requests_of_game_clients() {
    assert_eq!(classify_request(&[]), Request::Empty);
    assert_eq!(classify_request(&["PONG"]), Request::Pong);
    assert_eq!(classify_request(&["DEBUG"]), Request::Debug(DebugCommand::Print));
    assert_eq!(classify_request(&["DEBUG_START"]), Request::Debug(DebugCommand::Start));
    assert_eq!(classify_request(&["DEBUG_END"]), Request::Debug(DebugCommand::End));
    assert_eq!(classify_request(&["JOIN", "1", "Dave", "1000"]), Request::Join(Some(1)));
    assert_eq!(classify_request(&["JOIN", "x", "Dave", "1000"]), Request::Join(None));
    assert_eq!(classify_request(&["JOIN", "1", "Dave"]), Request::Move);
    assert_eq!(classify_request(&["LEAVE"]), Request::Leave);
    assert_eq!(classify_request(&["UPDATE"]), Request::Update);
    assert_eq!(classify_request(&["RAISE", "50"]), Request::Move);
    assert_eq!(classify_request(&["PONG", "PONG"]), Request::Move);
}

fn games() -> Vec<GameInfo> {
    vec![
        GameInfo { name: "TexasHoldem".to_string(), port: 10000, multicast: "224.0.0.1".to_string() },
        GameInfo { name: "FiveCardDraw".to_string(), port: 10001, multicast: "224.0.0.2".to_string() },
    ]
}

#[test]
fn the_lobby_answers_with_where_a_game_is() {
    assert_eq!(
        lobby_reply(&games(), "FiveCardDraw\n"),
        Some("[GAME_INFO] {\"port\":10001,\"multicast\":\"224.0.0.2\"}\n".to_string())
    );
    assert_eq!(lobby_reply(&games(), "Bridge\n"), Some("[ERROR] Game not found\n".to_string()));
    assert_eq!(lobby_reply(&games(), " PONG \n"), None);
}

#[test]
fn the_lobby_lists_its_games() {
    let names = vec!["TexasHoldem".to_string(), "FiveCardDraw".to_string()];
    assert_eq!(games_message(&names), "[GAMES] {\"games\":[\"TexasHoldem\",\"FiveCardDraw\"]}\n");
    assert_eq!(games_message(&[]), "[GAMES] {\"games\":[\"\"]}\n");
}

#[test]
fn tables_get_ports_and_groups_in_turn() {
    assert_eq!(table_address(0), (10000, "224.0.0.1".to_string()));
    assert_eq!(table_address(2), (10002, "224.0.0.3".to_string()));
    assert_eq!(table_address(255), (10255, "224.0.0.0".to_string()));
}

#[test]
fn lobby_announcements() {
    assert_eq!(lobby_address("LOBBY:192.168.1.5:12345"), Some("192.168.1.5:12345".to_string()));
    assert_eq!(lobby_address("LOBBY:192.168.1.5:12345\n"), Some("192.168.1.5:12345".to_string()));
    assert_eq!(lobby_address("HELLO:1:2"), None);
    assert_eq!(lobby_address("LOBBY:1:2:3"), None);
}
