use cpbot::text::{contains, parse_bounded, push_decimal, same_text, split_at_char, split_words, trim, position_of};

#[test]
fn trims_unicode_whitespace() {
    assert_eq!(trim("  a b \t\n"), "a b");
    assert_eq!(trim("\u{3000}x\u{a0}"), "x");
    assert_eq!(trim("   "), "");
}

#[test]
fn parses_bounded_numbers() {
    assert_eq!(parse_bounded("100", u32::MAX), Some(100));
    assert_eq!(parse_bounded("+7", 255), Some(7));
    assert_eq!(parse_bounded("007", 255), Some(7));
    assert_eq!(parse_bounded("256", 255), None);
    assert_eq!(parse_bounded("4294967295", u32::MAX), Some(4294967295));
    assert_eq!(parse_bounded("4294967296", u32::MAX), None);
    assert_eq!(parse_bounded("", 255), None);
    assert_eq!(parse_bounded("+", 255), None);
    assert_eq!(parse_bounded("1 2", 255), None);
    assert_eq!(parse_bounded("-1", 255), None);
}

#[test]
fn decimal_notation() {
    let mut s = String::from("n=");
    push_decimal(&mut s, 0);
    push_decimal(&mut s, 1452);
    assert_eq!(s, "n=01452");
}

#[test]
fn splits_words_and_cells() {
    assert_eq!(split_words("  800  dp\tgreedy "), vec!["800", "dp", "greedy"]);
    assert!(split_words("   ").is_empty());
    assert_eq!(split_at_char("a,,b,", ','), vec!["a", "", "b", ""]);
    assert_eq!(split_at_char("", ','), vec![""]);
}

#[test]
fn searches_text() {
    assert!(contains("foo !cf bar", "!cf"));
    assert!(!contains("!c f", "!cf"));
    assert!(contains("abc", ""));
    assert!(same_text("!top", "!top"));
    assert!(!same_text("!top ", "!top"));
    assert_eq!(position_of("a:b:c", ':'), Some(1));
    assert_eq!(position_of("abc", ':'), None);
}
