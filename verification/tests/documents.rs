use lat_plaintext::SourceDocument;

fn lines_of(text: &str) -> Vec<String> {
    let doc = SourceDocument::from_text(text);
    doc.as_lines().iter().map(|line| String::from(*line)).collect()
}

fn strings(lines: &[&str]) -> Vec<String> {
    lines.iter().map(|line| String::from(*line)).collect()
}

#[test]
fn text_is_split_at_line_feeds() {
    assert_eq!(lines_of("a\nb\nc"), strings(&["a", "b", "c"]));
    assert_eq!(lines_of("one line"), strings(&["one line"]));
    assert_eq!(lines_of("a\n\nb"), strings(&["a", "", "b"]));
}

#[test]
fn empty_text_has_no_lines() {
    assert_eq!(lines_of(""), Vec::<String>::new());
    assert_eq!(SourceDocument::from_text("").line_count(), 0);
}

#[test]
fn final_line_feed_starts_no_line() {
    assert_eq!(lines_of("a\nb\n"), strings(&["a", "b"]));
    assert_eq!(lines_of("a\n"), strings(&["a"]));
    assert_eq!(lines_of("\n"), strings(&[""]));
    assert_eq!(lines_of("a\n\n"), strings(&["a", ""]));
    assert_eq!(lines_of("\n\n\n"), strings(&["", "", ""]));
}

#[test]
fn carriage_return_before_line_feed_ends_the_line() {
    assert_eq!(lines_of("a\r\nb\r\n"), strings(&["a", "b"]));
    assert_eq!(lines_of("a\r\nb"), strings(&["a", "b"]));
    assert_eq!(lines_of("\r\n"), strings(&[""]));
    assert_eq!(lines_of("a\r\r\nb"), strings(&["a\r", "b"]));
}

#[test]
fn other_carriage_returns_stay() {
    assert_eq!(lines_of("a\rb\nc"), strings(&["a\rb", "c"]));
    assert_eq!(lines_of("a\nb\r"), strings(&["a", "b\r"]));
    assert_eq!(lines_of("\r"), strings(&["\r"]));
}

#[test]
fn splitting_agrees_with_the_standard_library() {
    let samples = [
        "", "a", "a\n", "\n", "\n\n", "a\nb", "a\r\nb", "a\r", "\r\n", "\r\r\n", "a\n\r\nb\r",
        "ä\n日本\r\n\n😀", "x\n\ny\n\n",
    ];
    for sample in samples {
        let expected: Vec<String> = sample.lines().map(String::from).collect();
        assert_eq!(lines_of(sample), expected, "{:?}", sample);
    }
}

#[test]
fn joined_lines_are_the_text_without_its_final_line_feed() {
    for sample in ["", "a", "a\n", "a\nb", "a\nb\n", "\n", "\n\n", "x\n\ny\n\n", "ä\n日本\n😀"] {
        let joined = lines_of(sample).join("\n");
        let expected = sample.strip_suffix('\n').unwrap_or(sample);
        assert_eq!(joined, expected, "{:?}", sample);
    }
}

#[test]
fn lines_are_counted_and_reached_by_index() {
    let doc = SourceDocument::from_text("a\nbb\n\nccc\n");
    assert_eq!(doc.line_count(), 4);
    assert_eq!(doc.line(0), Some("a"));
    assert_eq!(doc.line(1), Some("bb"));
    assert_eq!(doc.line(2), Some(""));
    assert_eq!(doc.line(3), Some("ccc"));
    assert_eq!(doc.line(4), None);
    assert_eq!(doc.line(usize::MAX), None);
    assert_eq!(doc.as_lines(), ["a", "bb", "", "ccc"]);
}

#[test]
fn document_of_given_lines() {
    let doc = SourceDocument::from_lines(vec!["a", "b", ""]).unwrap();
    assert_eq!(doc.line_count(), 3);
    assert_eq!(doc.as_lines(), ["a", "b", ""]);
    let empty = SourceDocument::from_lines(Vec::new()).unwrap();
    assert_eq!(empty.line_count(), 0);
}

#[test]
fn line_with_a_line_feed_is_refused() {
    assert!(SourceDocument::from_lines(vec!["a", "b\nc"]).is_none());
    assert!(SourceDocument::from_lines(vec!["\n"]).is_none());
    assert!(SourceDocument::from_lines(vec!["日本\n"]).is_none());
    assert!(SourceDocument::from_lines(vec!["a\r", "b"]).is_some());
    assert!(SourceDocument::from_lines(vec!["日本", "äö"]).is_some());
}

#[test]
fn wide_characters_are_never_cut() {
    assert_eq!(lines_of("日本\n語"), strings(&["日本", "語"]));
    assert_eq!(lines_of("ä\r\nö\r\n"), strings(&["ä", "ö"]));
    assert_eq!(lines_of("😀\n😀\n"), strings(&["😀", "😀"]));
    assert_eq!(lines_of("日本\r"), strings(&["日本\r"]));
    // U+010A and U+0A0A hold the code of the line feed, yet are no line feeds.
    assert_eq!(lines_of("\u{10a}\u{a0a}"), strings(&["\u{10a}\u{a0a}"]));
    assert_eq!(lines_of("\u{10d}\n\u{d0d}"), strings(&["\u{10d}", "\u{d0d}"]));
}
