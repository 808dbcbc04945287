use poker::text::{decimal_text, parse_u64, parse_u8, trim, words};

#[test]
fn words_split_on_white_space() {
    assert_eq!(words("  RAISE   100 \n"), vec!["RAISE", "100"]);
    assert_eq!(words(""), Vec::<&str>::new());
    assert_eq!(words(" \t "), Vec::<&str>::new());
    assert_eq!(words("a\u{3000}b\u{85}c"), vec!["a", "b", "c"]);
    assert_eq!(words("REPLACE_CARDS 1 2"), "REPLACE_CARDS 1 2".split_whitespace().collect::<Vec<_>>());
}

#[test]
fn trim_drops_white_space_at_both_ends() {
    assert_eq!(trim("  x y \r\n"), "x y");
    assert_eq!(trim("   "), "");
    assert_eq!(trim("\u{a0}é\u{2009}"), "é");
}

#[test]
fn numbers_are_read_as_str_parse_reads_them() {
    assert_eq!(parse_u64("18446744073709551615"), Some(u64::MAX));
    assert_eq!(parse_u64("18446744073709551616"), None);
    assert_eq!(parse_u64("+7"), Some(7));
    assert_eq!(parse_u64("-7"), None);
    assert_eq!(parse_u64(""), None);
    assert_eq!(parse_u8("256"), None);
    assert_eq!(parse_u8("0255"), Some(255));
    assert_eq!(decimal_text(0), "0");
    assert_eq!(decimal_text(1234567890), "1234567890");
}
