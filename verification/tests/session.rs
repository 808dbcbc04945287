use poker::session::{
    new_player_id, player_id_from_cookie, player_id_from_uuid_bytes, session_cookie_text, split_on,
    MAX_SAFE_JS_INTEGER,
};

#[test]
fn cookie_names_the_session() {
    assert_eq!(player_id_from_cookie("poker_session=42"), Some(42));
    assert_eq!(player_id_from_cookie("theme=dark; poker_session=77; lang=en"), Some(77));
    assert_eq!(player_id_from_cookie("  poker_session=5  "), Some(5));
}

#[test]
fn cookie_without_a_valid_session() {
    assert_eq!(player_id_from_cookie(""), None);
    assert_eq!(player_id_from_cookie("theme=dark"), None);
    assert_eq!(player_id_from_cookie("poker_session=0"), None);
    assert_eq!(player_id_from_cookie("poker_session=abc"), None);
    assert_eq!(player_id_from_cookie("poker_session"), None);
    assert_eq!(player_id_from_cookie("poker_session =3"), None);
    assert_eq!(player_id_from_cookie("poker_session=99999999999999999999"), None);
}

#[test]
fn the_first_valid_session_cookie_counts() {
    assert_eq!(player_id_from_cookie("poker_session=x; poker_session=8; poker_session=9"), Some(8));
    assert_eq!(player_id_from_cookie("poker_session=+12"), Some(12));
}

#[test]
fn split_keeps_empty_pieces() {
    assert_eq!(split_on("a;;b", ';'), vec!["a", "", "b"]);
    assert_eq!(split_on("", ';'), vec![""]);
    assert_eq!(split_on("é;ü", ';'), vec!["é", "ü"]);
}

#[test]
fn ids_from_uuid_bytes() {
    let mut bytes = [0u8; 16];
    bytes[7] = 5;
    assert_eq!(player_id_from_uuid_bytes(&bytes), 5);
    assert_eq!(player_id_from_uuid_bytes(&[0u8; 16]), 1);
    let all = [0xFFu8; 16];
    assert_eq!(player_id_from_uuid_bytes(&all), u64::MAX % MAX_SAFE_JS_INTEGER);
    let mut big = [0u8; 16];
    big[1] = 0x20;
    // 0x0020_0000_0000_0000 is one more than the largest safe integer.
    assert_eq!(player_id_from_uuid_bytes(&big), 1);
    big[0] = 1;
    assert_eq!(player_id_from_uuid_bytes(&big), 0x0120_0000_0000_0000 % MAX_SAFE_JS_INTEGER);
}

#[test]
fn new_ids_are_in_range_and_differ() {
    let a = new_player_id();
    let b = new_player_id();
    assert!(a >= 1 && a < MAX_SAFE_JS_INTEGER);
    assert!(b >= 1 && b < MAX_SAFE_JS_INTEGER);
    assert_ne!(a, b);
}

#[test]
fn session_cookie() {
    assert_eq!(session_cookie_text(42), "poker_session=42; Path=/; HttpOnly; SameSite=Lax");
    assert_eq!(player_id_from_cookie(&session_cookie_text(42)), Some(42));
}
