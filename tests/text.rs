use aoc2023::text::{has_prefix, has_suffix, parse_int, parse_numbers, split_at_char, split_words};

#[test]
fn integers_read_like_str_parse() {
    assert_eq!(parse_int("0"), Some(0));
    assert_eq!(parse_int("42"), Some(42));
    assert_eq!(parse_int("-17"), Some(-17));
    assert_eq!(parse_int("+8"), Some(8));
    assert_eq!(parse_int("007"), Some(7));
    assert_eq!(parse_int(""), None);
    assert_eq!(parse_int("-"), None);
    assert_eq!(parse_int("+"), None);
    assert_eq!(parse_int("1a"), None);
    assert_eq!(parse_int(" 1"), None);
    assert_eq!(parse_int("9223372036854775807"), Some(i64::MAX));
    assert_eq!(parse_int("-9223372036854775808"), Some(i64::MIN));
    assert_eq!(parse_int("9223372036854775808"), None);
    assert_eq!(parse_int("-9223372036854775809"), None);
    assert_eq!(parse_int("123456789012345678901234567890"), None);
}

#[test]
fn splitting_keeps_empty_pieces() {
    assert_eq!(split_at_char("a b", ' '), vec!["a", "b"]);
    assert_eq!(split_at_char("a  b", ' '), vec!["a", "", "b"]);
    assert_eq!(split_at_char("", ' '), vec![""]);
    assert_eq!(split_at_char(";", ';'), vec!["", ""]);
}

#[test]
fn words_drop_empty_pieces() {
    assert_eq!(split_words("  Time:   7  15 "), vec!["Time:", "7", "15"]);
    assert_eq!(split_words(""), Vec::<String>::new());
}

#[test]
fn number_lists() {
    assert_eq!(parse_numbers("0 3 -6  9"), Some(vec![0, 3, -6, 9]));
    assert_eq!(parse_numbers("1 x 3"), None);
    assert_eq!(parse_numbers(""), Some(vec![]));
}

#[test]
fn prefixes_and_suffixes() {
    assert!(has_prefix("seeds: 1", "seeds:"));
    assert!(!has_prefix("seed", "seeds:"));
    assert!(has_suffix("seed-to-soil map:", " map:"));
    assert!(!has_suffix("map:", " map:"));
    assert!(has_prefix("abc", ""));
}
