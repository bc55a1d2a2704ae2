use lat_plaintext::decimal::{format_decimal, parse_decimal, push_decimal};
use lat_plaintext::text::to_chars;

#[test]
fn digits_are_read_as_a_number() {
    assert_eq!(parse_decimal("0"), Some(0));
    assert_eq!(parse_decimal("7"), Some(7));
    assert_eq!(parse_decimal("42"), Some(42));
    assert_eq!(parse_decimal("1000000"), Some(1_000_000));
    assert_eq!(parse_decimal("0012"), Some(12));
    assert_eq!(parse_decimal("+12"), Some(12));
}

#[test]
fn other_text_is_no_number() {
    assert_eq!(parse_decimal(""), None);
    assert_eq!(parse_decimal("+"), None);
    assert_eq!(parse_decimal("-"), None);
    assert_eq!(parse_decimal("-1"), None);
    assert_eq!(parse_decimal("1-"), None);
    assert_eq!(parse_decimal(" 1"), None);
    assert_eq!(parse_decimal("1 "), None);
    assert_eq!(parse_decimal("1_000"), None);
    assert_eq!(parse_decimal("12a"), None);
    assert_eq!(parse_decimal("a12"), None);
    assert_eq!(parse_decimal("1+2"), None);
    assert_eq!(parse_decimal("٣"), None);
    assert_eq!(parse_decimal("1٣"), None);
}

#[test]
fn numbers_beyond_the_machine_word_are_refused() {
    assert_eq!(parse_decimal(&format!("{}", usize::MAX)), Some(usize::MAX));
    assert_eq!(parse_decimal(&format!("{}", usize::MAX as u128 + 1)), None);
    assert_eq!(parse_decimal(&format!("{}0", usize::MAX)), None);
    assert_eq!(parse_decimal(&format!("000{}", usize::MAX)), Some(usize::MAX));
    assert_eq!(parse_decimal("99999999999999999999999999999999999999999999"), None);
    assert_eq!(parse_decimal("99999999999999999999999999999999999999999999x"), None);
}

#[test]
fn parse_agrees_with_the_standard_library() {
    let samples = [
        "", "0", "1", "+1", "-1", "+", "++1", "01", "18446744073709551615",
        "18446744073709551616", "4294967295", "4294967296", "12 ", "a", "1a", "+0", "00", "9",
    ];
    for sample in samples {
        assert_eq!(parse_decimal(sample), sample.parse::<usize>().ok(), "{:?}", sample);
    }
}

#[test]
fn numbers_are_written_in_shortest_form() {
    assert_eq!(format_decimal(0), "0");
    assert_eq!(format_decimal(5), "5");
    assert_eq!(format_decimal(10), "10");
    assert_eq!(format_decimal(109), "109");
    assert_eq!(format_decimal(9_876_543_210), "9876543210");
    assert_eq!(format_decimal(usize::MAX), usize::MAX.to_string());
}

#[test]
fn written_numbers_are_read_back() {
    for n in [0usize, 1, 9, 10, 11, 99, 100, 101, 65_535, 65_536, usize::MAX - 1, usize::MAX] {
        assert_eq!(parse_decimal(&format_decimal(n)), Some(n));
    }
}

#[test]
fn push_decimal_appends() {
    let mut out = String::from("line ");
    push_decimal(&mut out, 305);
    assert_eq!(out, "line 305");
    push_decimal(&mut out, 0);
    assert_eq!(out, "line 3050");
}

#[test]
fn characters_are_collected_in_order() {
    let text = "aé\n日本\t😀 z";
    let chars = to_chars(text);
    assert_eq!(chars, text.chars().collect::<Vec<char>>());
    assert_eq!(chars.len(), 9);
    assert_eq!(to_chars(""), Vec::<char>::new());
}
