use lat_plaintext::range::parse_range_list;
use lat_plaintext::{parse_range, parse_ranges, RangeSpec};

fn fields(range: RangeSpec) -> (usize, Option<usize>) {
    (range.start, range.end)
}

#[test]
fn start_and_end_are_read_at_the_colon() {
    assert_eq!(parse_range("2:4"), Some((2, Some(4))));
    assert_eq!(parse_range("10:20"), Some((10, Some(20))));
    assert_eq!(parse_range("1:1"), Some((1, Some(1))));
    assert_eq!(parse_range("0:0"), Some((0, Some(0))));
    assert_eq!(parse_range("+3:+5"), Some((3, Some(5))));
}

#[test]
fn end_before_start_is_read_as_written() {
    assert_eq!(parse_range("5:2"), Some((5, Some(2))));
}

#[test]
fn single_number_is_a_single_line() {
    assert_eq!(parse_range("7"), Some((7, Some(7))));
    assert_eq!(parse_range("0"), Some((0, Some(0))));
    assert_eq!(parse_range("0042"), Some((42, Some(42))));
}

#[test]
fn anchor_is_an_open_range() {
    assert_eq!(parse_range("#more:50"), Some((50, None)));
    assert_eq!(parse_range("file.txt#more:3"), Some((3, None)));
    assert_eq!(parse_range("#more:0"), Some((0, None)));
}

#[test]
fn malformed_tokens_denote_nothing() {
    assert_eq!(parse_range(""), None);
    assert_eq!(parse_range(":"), None);
    assert_eq!(parse_range("1:"), None);
    assert_eq!(parse_range(":2"), None);
    assert_eq!(parse_range("a:b"), None);
    assert_eq!(parse_range("1:b"), None);
    assert_eq!(parse_range("a:2"), None);
    assert_eq!(parse_range("1:2:3"), None);
    assert_eq!(parse_range("1-2"), None);
    assert_eq!(parse_range("1 : 2"), None);
    assert_eq!(parse_range("-1:2"), None);
    assert_eq!(parse_range("abc"), None);
}

#[test]
fn malformed_anchor_is_read_as_a_plain_token() {
    assert_eq!(parse_range("#more:"), None);
    assert_eq!(parse_range("#more:x"), None);
    assert_eq!(parse_range("#more:1:2"), None);
}

#[test]
fn numbers_too_large_denote_nothing() {
    assert_eq!(parse_range("1:99999999999999999999999999"), None);
    assert_eq!(parse_range("99999999999999999999999999:1"), None);
    assert_eq!(parse_range("99999999999999999999999999"), None);
    let largest = format!("{}:{}", usize::MAX, usize::MAX);
    assert_eq!(parse_range(&largest), Some((usize::MAX, Some(usize::MAX))));
}

#[test]
fn lenient_reading_falls_back_to_the_whole_document() {
    assert_eq!(fields(RangeSpec::from_token("2:4")), (2, Some(4)));
    assert_eq!(fields(RangeSpec::from_token("9")), (9, Some(9)));
    assert_eq!(fields(RangeSpec::from_token("#more:6")), (6, None));
    assert_eq!(fields(RangeSpec::from_token("nonsense")), (1, None));
    assert_eq!(fields(RangeSpec::from_token("")), (1, None));
    assert_eq!(fields(RangeSpec::from_token("3:")), (1, None));
}

fn list(text: &str) -> Vec<(usize, Option<usize>)> {
    parse_range_list(text).into_iter().map(fields).collect()
}

#[test]
fn each_token_is_read_on_its_own() {
    assert_eq!(
        list("10:20,oops,30:40,#more:50,5"),
        vec![(10, Some(20)), (1, None), (30, Some(40)), (50, None), (5, Some(5))]
    );
}

#[test]
fn list_without_comma_is_one_token() {
    assert_eq!(list("2:4"), vec![(2, Some(4))]);
    assert_eq!(list("7"), vec![(7, Some(7))]);
    assert_eq!(list("x"), vec![(1, None)]);
    assert_eq!(list(""), vec![(1, None)]);
}

#[test]
fn empty_tokens_ask_for_the_whole_document() {
    assert_eq!(list(","), vec![(1, None), (1, None)]);
    assert_eq!(list("1:2,"), vec![(1, Some(2)), (1, None)]);
    assert_eq!(list(",1:2"), vec![(1, None), (1, Some(2))]);
    assert_eq!(list("3,,4"), vec![(3, Some(3)), (1, None), (4, Some(4))]);
}

#[test]
fn tokens_are_not_trimmed() {
    assert_eq!(list("1:2, 3:4"), vec![(1, Some(2)), (1, None)]);
    assert_eq!(list("Ä,3:4,日本"), vec![(1, None), (3, Some(4)), (1, None)]);
}

#[test]
fn tokens_are_parted_as_the_standard_library_parts_them() {
    for sample in ["", ",", "a", "a,b", ",a", "a,", "1:2,3:4,5", ",,", "ä,ö,,ü", "#more:3,4"] {
        let expected: Vec<(usize, Option<usize>)> =
            sample.split(',').map(|token| fields(RangeSpec::from_token(token))).collect();
        assert_eq!(list(sample), expected, "{:?}", sample);
    }
}

#[test]
fn several_lists_are_read_in_order() {
    let lists = vec![String::from("10:20,30:40"), String::from("oops"), String::from("#more:50,5")];
    let ranges: Vec<(usize, Option<usize>)> =
        parse_ranges(&lists).into_iter().map(fields).collect();
    assert_eq!(
        ranges,
        vec![(10, Some(20)), (30, Some(40)), (1, None), (50, None), (5, Some(5))]
    );
    assert!(parse_ranges(&Vec::new()).is_empty());
    assert_eq!(parse_ranges(&vec![String::new()]).len(), 1);
}

#[test]
fn header_names_the_range() {
    let mut out = String::new();
    RangeSpec { start: 2, end: Some(4) }.push_header(&mut out);
    assert_eq!(out, "2:4");
    let mut out = String::from("> ");
    RangeSpec { start: 50, end: None }.push_header(&mut out);
    assert_eq!(out, "> #more:50");
    let mut out = String::new();
    RangeSpec { start: 0, end: Some(0) }.push_header(&mut out);
    assert_eq!(out, "0:0");
}
