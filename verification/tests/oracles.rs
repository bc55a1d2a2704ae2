use lat_plaintext::{
    extract_lines, paginate, parse_more_anchor, parse_range, truncate_to_line_boundary,
    SourceDocument,
};

/// A small deterministic generator of test data.
struct Dice(u64);

impl Dice {
    fn roll(&mut self, sides: usize) -> usize {
        self.0 = self.0.wrapping_mul(6364136223846793005).wrapping_add(1442695040888963407);
        ((self.0 >> 33) as usize) % sides
    }

    fn text(&mut self, alphabet: &[char], longest: usize) -> String {
        let length = self.roll(longest + 1);
        (0..length).map(|_| alphabet[self.roll(alphabet.len())]).collect()
    }
}

fn cut_by_bytes(s: &str, budget: usize) -> (&str, usize) {
    if s.len() <= budget {
        return (s, 0);
    }
    let mut end = budget;
    while !s.is_char_boundary(end) {
        end -= 1;
    }
    let head = &s[..end];
    let cut = head.rfind('\n').unwrap_or(end);
    (&head[..cut], head[..cut].matches('\n').count() + 1)
}

#[test]
fn truncation_of_plain_text_agrees_with_a_search_from_the_back() {
    let mut dice = Dice(1);
    for _ in 0..4000 {
        let text = dice.text(&['a', 'b', ' ', '\n', '\n'], 24);
        let budget = dice.roll(28);
        assert_eq!(
            truncate_to_line_boundary(&text, budget),
            cut_by_bytes(&text, budget),
            "{:?} under {}",
            text,
            budget
        );
    }
}

#[test]
fn truncation_of_wide_text_counts_bytes() {
    let mut dice = Dice(2);
    for _ in 0..6000 {
        let text = dice.text(&['a', 'ä', '日', '😀', '\n', '\r'], 12);
        let budget = dice.roll(40);
        let (kept, lines) = truncate_to_line_boundary(&text, budget);
        assert_eq!((kept, lines), cut_by_bytes(&text, budget), "{:?} under {}", text, budget);
        if text.len() > budget {
            assert!(kept.len() <= budget);
            assert!(text.starts_with(kept));
            // Within three bytes of the budget there is a place between two
            // characters, so nothing more could have been kept of a text
            // without line feeds.
            if !text.contains('\n') {
                assert!(kept.len() + 4 > budget);
            }
        }
    }
}

#[test]
fn extraction_agrees_with_slicing() {
    let mut dice = Dice(3);
    for _ in 0..4000 {
        let count = dice.roll(7);
        let owned: Vec<String> = (0..count).map(|_| dice.text(&['x', 'y', 'é'], 3)).collect();
        let lines: Vec<&str> = owned.iter().map(|line| line.as_str()).collect();
        let start = dice.roll(10);
        let end = if dice.roll(3) == 0 { None } else { Some(dice.roll(10)) };
        let first = start.saturating_sub(1);
        let last = end.unwrap_or(count).min(count);
        let expected = if first < last { lines[first..last].join("\n") } else { String::new() };
        assert_eq!(
            extract_lines(&lines, start, end),
            expected,
            "{:?} from {} to {:?}",
            lines,
            start,
            end
        );
    }
}

#[test]
fn lines_agree_with_the_standard_library_on_generated_text() {
    let mut dice = Dice(4);
    for _ in 0..4000 {
        let text = dice.text(&['a', 'ß', '\r', '\n', '\n', '語'], 14);
        let doc = SourceDocument::from_text(&text);
        let expected: Vec<&str> = text.lines().collect();
        assert_eq!(doc.as_lines(), expected.as_slice(), "{:?}", text);
        assert_eq!(doc.line_count(), expected.len());
    }
}

#[test]
fn tokens_are_read_as_the_standard_library_reads_numbers() {
    let mut dice = Dice(5);
    let alphabet = ['0', '1', '9', ':', '#', 'm', '+', '-', ' '];
    for _ in 0..6000 {
        let token = dice.text(&alphabet, 6);
        let expected = match token.split_once(':') {
            Some((start, end)) => match (start.parse::<usize>(), end.parse::<usize>()) {
                (Ok(start), Ok(end)) => Some((start, Some(end))),
                _ => None,
            },
            None => token.parse::<usize>().ok().map(|line| (line, Some(line))),
        };
        assert_eq!(parse_range(&token), expected, "{:?}", token);
    }
}

#[test]
fn anchors_are_read_behind_the_first_tag() {
    let mut dice = Dice(6);
    let alphabet = ['0', '7', '#', 'x', '+'];
    for _ in 0..4000 {
        let before = dice.text(&alphabet, 4);
        let after = dice.text(&alphabet, 4);
        let argument = format!("{}#more:{}", before, after);
        let behind_first_tag = &argument[argument.find("#more:").unwrap() + 6..];
        let expected = behind_first_tag.parse::<usize>().ok();
        assert_eq!(parse_more_anchor(&argument), expected, "{:?}", argument);
        assert_eq!(parse_range(&argument).map(|range| range.0), expected);
        assert_eq!(parse_more_anchor(&before), None);
    }
}

#[test]
fn paging_any_text_by_its_markers_shows_every_line_once() {
    let mut dice = Dice(7);
    for _ in 0..1500 {
        let text = dice.text(&['a', 'b', 'ö', '\n'], 30);
        let doc = SourceDocument::from_text(&text);
        let longest = doc.as_lines().iter().map(|line| line.len()).max().unwrap_or(0);
        // One byte more than the longest line: every page ends at a line end.
        let budget = longest + 1 + dice.roll(4);
        let whole = doc.as_lines().join("\n");
        let mut bodies: Vec<String> = Vec::new();
        let mut resume_line: usize = 1;
        loop {
            let page = paginate(&doc, resume_line, &[], Some(budget));
            bodies.push(page.text.clone());
            match page.truncated_at_line {
                Some(next) => {
                    assert!(next > resume_line, "{:?} under {}", text, budget);
                    resume_line = next;
                }
                None => break,
            }
        }
        assert_eq!(bodies.join("\n"), whole, "{:?} under {}", text, budget);
    }
}
