use poker::client::{
    client_command, command_line, discard_cards, frames, game_state_text, join_command, lobby_choice,
    parse_input, replace_command, server_message, starts_with_text, ClientCommand, LobbyChoice,
    ServerMessage,
};

#[test]
fn typed_commands() {
    assert_eq!(parse_input("  raise 120 "), Some(ClientCommand::Raise(120)));
    assert_eq!(parse_input("r"), Some(ClientCommand::Raise(50)));
    assert_eq!(parse_input("R lots"), Some(ClientCommand::Raise(50)));
    assert_eq!(parse_input("check"), Some(ClientCommand::Check));
    assert_eq!(parse_input("all_in"), Some(ClientCommand::AllIn));
    assert_eq!(parse_input("A"), Some(ClientCommand::AllIn));
    assert_eq!(parse_input("f"), Some(ClientCommand::Fold));
    assert_eq!(parse_input("Re"), Some(ClientCommand::Replace));
    assert_eq!(parse_input("u"), Some(ClientCommand::Update));
    assert_eq!(parse_input("p"), Some(ClientCommand::Print));
    assert_eq!(parse_input("leave"), Some(ClientCommand::Leave));
    assert_eq!(parse_input("dance"), Some(ClientCommand::Unknown));
    assert_eq!(parse_input("   "), None);
    assert_eq!(client_command("RAISE", &["raise", "7"]), ClientCommand::Raise(7));
}

#[test]
fn cards_chosen_by_position() {
    let hand = [11, 22, 33, 44, 55];
    assert_eq!(discard_cards(&hand, &["0", "2", "4"]), vec![11, 33, 55]);
    assert_eq!(discard_cards(&hand, &["9", "x", "1"]), vec![22]);
    assert!(discard_cards(&hand, &[]).is_empty());
}

#[test]
fn lobby_menu_choices() {
    assert_eq!(lobby_choice("0\n", 3), LobbyChoice::Exit);
    assert_eq!(lobby_choice("abc\n", 3), LobbyChoice::Exit);
    assert_eq!(lobby_choice("2\n", 3), LobbyChoice::Game(1));
    assert_eq!(lobby_choice("4\n", 3), LobbyChoice::Invalid);
}

#[test]
fn command_texts() {
    assert_eq!(command_line("CHECK"), "CHECK\n");
    assert_eq!(command_line("CHECK\n"), "CHECK\n");
    assert_eq!(join_command(7, "Ann", 1000), "JOIN 7 Ann 1000");
    assert_eq!(replace_command(&[3, 40]), "REPLACE_CARDS 3 40");
    assert_eq!(replace_command(&[]), "REPLACE_CARDS ");
}

#[test]
fn messages_from_the_server() {
    let two = "[UPDATE] {\"wallet\":5}\n[UPDATE]{\"wallet\":6}";
    assert_eq!(frames(two, "[UPDATE]"), vec!["{\"wallet\":5}", "{\"wallet\":6}"]);
    assert!(frames("nothing here", "[UPDATE]").is_empty());
    assert_eq!(frames("x [GAMES] {\"games\":[]} ", "[GAMES]"), vec!["{\"games\":[]}"]);
    assert_eq!(server_message("[UPDATE] {}"), ServerMessage::Update);
    assert_eq!(server_message("[GAMESTATE] {}"), ServerMessage::GameState);
    assert_eq!(server_message("[GAMES] {}"), ServerMessage::Games);
    assert_eq!(server_message("JOINED\n"), ServerMessage::Other);
    assert_eq!(server_message(" \n"), ServerMessage::Blank);
    assert_eq!(game_state_text("[GAMESTATE] {\"turn\":1}\n"), Some("{\"turn\":1}"));
    assert_eq!(game_state_text("{\"turn\":null}"), Some("{\"turn\":null}"));
    assert_eq!(game_state_text("hello"), None);
    assert!(starts_with_text("[ERROR] no", "[ERROR]"));
    assert!(!starts_with_text("ok", "[ERROR]"));
}
