use lat_plaintext::{format_marker, parse_more_anchor, split_anchor};

#[test]
fn anchor_behind_a_path_names_its_line() {
    assert_eq!(parse_more_anchor("file.txt#more:3"), Some(3));
    assert_eq!(parse_more_anchor("#more:50"), Some(50));
    assert_eq!(parse_more_anchor("dir/notes.md#more:1200"), Some(1200));
}

#[test]
fn path_without_anchor_names_no_line() {
    assert_eq!(parse_more_anchor("file.txt"), None);
    assert_eq!(parse_more_anchor(""), None);
    assert_eq!(parse_more_anchor("#more"), None);
    assert_eq!(parse_more_anchor("more:3"), None);
}

#[test]
fn anchor_without_a_number_names_no_line() {
    assert_eq!(parse_more_anchor("file.txt#more:"), None);
    assert_eq!(parse_more_anchor("file.txt#more:abc"), None);
    assert_eq!(parse_more_anchor("file.txt#more:3x"), None);
    assert_eq!(parse_more_anchor("file.txt#more: 3"), None);
    assert_eq!(parse_more_anchor("file.txt#more:-3"), None);
    assert_eq!(parse_more_anchor("file.txt#more:3.5"), None);
}

#[test]
fn anchor_number_may_be_zero_signed_or_padded() {
    assert_eq!(parse_more_anchor("f#more:0"), Some(0));
    assert_eq!(parse_more_anchor("f#more:+7"), Some(7));
    assert_eq!(parse_more_anchor("f#more:007"), Some(7));
    assert_eq!(parse_more_anchor("f#more:+"), None);
    assert_eq!(parse_more_anchor("f#more:++7"), None);
}

#[test]
fn anchor_number_must_fit_the_machine_word() {
    let largest = format!("f#more:{}", usize::MAX);
    assert_eq!(parse_more_anchor(&largest), Some(usize::MAX));
    assert_eq!(parse_more_anchor("f#more:340282366920938463463374607431768211456"), None);
    let too_large = format!("f#more:{}0", usize::MAX);
    assert_eq!(parse_more_anchor(&too_large), None);
}

#[test]
fn first_anchor_decides() {
    assert_eq!(parse_more_anchor("a#more:1#more:2"), None);
    assert_eq!(parse_more_anchor("a#more:x#more:2"), None);
    assert_eq!(parse_more_anchor("##more:9"), Some(9));
    assert_eq!(parse_more_anchor("#mor#more:4"), Some(4));
}

#[test]
fn anchor_works_on_paths_with_wide_characters() {
    assert_eq!(parse_more_anchor("übersicht/日本語.txt#more:12"), Some(12));
    assert_eq!(split_anchor("übersicht/日本語.txt#more:12"), ("übersicht/日本語.txt", 12));
}

#[test]
fn split_anchor_separates_path_and_line() {
    assert_eq!(split_anchor("file.txt#more:3"), ("file.txt", 3));
    assert_eq!(split_anchor("#more:8"), ("", 8));
    assert_eq!(split_anchor("a#b#more:0"), ("a#b", 0));
}

#[test]
fn split_anchor_without_anchor_starts_at_line_one() {
    assert_eq!(split_anchor("file.txt"), ("file.txt", 1));
    assert_eq!(split_anchor(""), ("", 1));
}

#[test]
fn split_anchor_keeps_a_malformed_anchor_in_the_path() {
    assert_eq!(split_anchor("file.txt#more:abc"), ("file.txt#more:abc", 1));
    assert_eq!(split_anchor("file.txt#more:"), ("file.txt#more:", 1));
    assert_eq!(split_anchor("a#more:1#more:2"), ("a#more:1#more:2", 1));
}

#[test]
fn marker_is_tag_and_decimal_number() {
    assert_eq!(format_marker(2), "#more:2");
    assert_eq!(format_marker(0), "#more:0");
    assert_eq!(format_marker(1234567890), "#more:1234567890");
    assert_eq!(format_marker(usize::MAX), format!("#more:{}", usize::MAX));
}

#[test]
fn marker_behind_a_path_is_read_back() {
    for line in [0usize, 1, 9, 10, 99, 100, 4096, usize::MAX] {
        let argument = format!("some/file.txt{}", format_marker(line));
        assert_eq!(parse_more_anchor(&argument), Some(line));
        assert_eq!(split_anchor(&argument), ("some/file.txt", line));
    }
}
