use aoc2023::calibration::{contains_digit, expand_digit_words, get_calib, get_calib_with_words};

#[test]
fn calibration_values() {
    assert_eq!(get_calib("1abc2".to_string()), 12);
    assert_eq!(get_calib("pqr3stu8vwx".to_string()), 38);
    assert_eq!(get_calib("a1b2c3d4e5f".to_string()), 15);
    assert_eq!(get_calib("treb7uchet".to_string()), 77);
    assert_eq!(get_calib("0".to_string()), 0);
}

#[test]
fn calibration_values_with_words() {
    let cases = [
        ("two1nine", 29),
        ("eightwothree", 83),
        ("abcone2threexyz", 13),
        ("xtwone3four", 24),
        ("4nineeightseven2", 42),
        ("zoneight234", 14),
        ("7pqrstsixteen", 76),
    ];
    let mut total = 0;
    for (line, want) in cases {
        assert_eq!(get_calib_with_words(line), Some(want), "{}", line);
        total += want;
    }
    assert_eq!(total, 281);
}

#[test]
fn line_without_digits_has_no_value() {
    assert_eq!(get_calib_with_words("abc"), None);
    assert!(!contains_digit("abc"));
    assert!(contains_digit("ab7c"));
}

#[test]
fn words_become_digits_keeping_their_ends() {
    assert_eq!(expand_digit_words("one"), "o1e");
    assert_eq!(expand_digit_words("twone"), "t2o1e");
    assert_eq!(expand_digit_words("xyz"), "xyz");
}
