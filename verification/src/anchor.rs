//! Continuation anchors: the text `#more:N` that says "go on from line N".
//!
//! An anchor may follow a file's path in one argument, and it is what a
//! truncated page ends with, so that a reader can hand it back to get the next
//! page.

use crate::decimal::{
    decimal_text, lemma_parse_decimal_text, parse_decimal_in, parse_decimal_spec, push_decimal,
};
use crate::search::{
    find, first_occurrence, lemma_first_occurrence, lemma_first_occurrence_unique, occurs_at,
};
use crate::text::to_chars;
use vstd::prelude::*;

verus! {

/// The text that introduces an anchor.
pub open spec fn anchor_tag() -> Seq<char> {
    seq!['#', 'm', 'o', 'r', 'e', ':']
}

/// The line that the anchor in `path` names: the number that the text behind
/// the first `#more:` denotes. There is none where `path` holds no `#more:`,
/// or where what follows it is not a number.
pub open spec fn parse_more_anchor_spec(path: Seq<char>) -> Option<usize> {
    match first_occurrence(path, anchor_tag()) {
        Some(at) => parse_decimal_spec(path.skip(at + anchor_tag().len())),
        None => None,
    }
}

/// A path argument taken apart: the path proper, and the line to resume at.
/// With an anchor these are the text before `#more:` and the anchor's line;
/// without one, or with one that names no line, the whole argument and line 1.
pub open spec fn split_anchor_spec(path: Seq<char>) -> (Seq<char>, usize) {
    match parse_more_anchor_spec(path) {
        Some(line) => (path.take(first_occurrence(path, anchor_tag())->0), line),
        None => (path, 1),
    }
}

/// The anchor that names `line`.
pub open spec fn marker_text(line: nat) -> Seq<char> {
    anchor_tag() + decimal_text(line)
}

/// An anchor put behind a path that holds none is found again, with its line,
/// and the path comes back as it was.
pub proof fn lemma_anchor_round_trip(path: Seq<char>, line: usize)
    requires
        first_occurrence(path, anchor_tag()) is None,
    ensures
        parse_more_anchor_spec(path + marker_text(line as nat)) == Some(line),
        split_anchor_spec(path + marker_text(line as nat)) == (path, line),
{
    let tag = anchor_tag();
    let whole = path + marker_text(line as nat);
    let at: int = path.len() as int;
    lemma_first_occurrence(path, tag);
    assert(whole.subrange(at, at + 6) =~= tag);
    assert forall|j: int| 0 <= j < at implies !occurs_at(whole, tag, j) by {
        if j + 6 <= at {
            assert(whole.subrange(j, j + 6) =~= path.subrange(j, j + 6));
            assert(!occurs_at(path, tag, j));
        } else if j + 6 <= whole.len() {
            let k: int = at - j;
            assert(whole.subrange(j, j + 6)[k] == whole[at]);
            assert(whole[at] == '#');
            assert(tag[k] != '#');
        }
    }
    lemma_first_occurrence_unique(whole, tag, at);
    assert(whole.skip(at + 6) =~= decimal_text(line as nat));
    lemma_parse_decimal_text(line);
    assert(whole.take(at) =~= path);
}

/// Where the first `#more:` stands in `chars`.
pub(crate) fn find_anchor(chars: &[char]) -> (found: Option<usize>)
    ensures
        match found {
            Some(at) => first_occurrence(chars@, anchor_tag()) == Some(at as int) && at + 6
                <= chars@.len(),
            None => first_occurrence(chars@, anchor_tag()) is None,
        },
{
    let tag: Vec<char> = vec!['#', 'm', 'o', 'r', 'e', ':'];
    assert(tag@ =~= anchor_tag());
    proof {
        lemma_first_occurrence(chars@, anchor_tag());
    }
    find(chars, tag.as_slice())
}

/// Reads the line that the anchor in `path` names.
///
/// The anchor is the first `#more:` in `path`; all that follows it must be a
/// number. The result is `None` where there is no anchor and where the text
/// behind it is not a number.
pub fn parse_more_anchor(path: &str) -> (line: Option<usize>)
    ensures
        line == parse_more_anchor_spec(path@),
{
    let chars = to_chars(path);
    match find_anchor(chars.as_slice()) {
        Some(at) => {
            assert(chars@.subrange(at + 6, chars@.len() as int) =~= chars@.skip(at + 6));
            parse_decimal_in(chars.as_slice(), at + 6, chars.len())
        },
        None => None,
    }
}

/// Takes a path argument apart into the path proper and the line to resume at.
///
/// `file.txt#more:40` gives `file.txt` and 40. An argument without an anchor,
/// or with an anchor that names no line, is a path as it stands, to be read
/// from line 1.
pub fn split_anchor(path: &str) -> (parts: (&str, usize))
    ensures
        parts.0@ == split_anchor_spec(path@).0,
        parts.1 == split_anchor_spec(path@).1,
{
    let chars = to_chars(path);
    match find_anchor(chars.as_slice()) {
        Some(at) => {
            assert(chars@.subrange(at + 6, chars@.len() as int) =~= chars@.skip(at + 6));
            match parse_decimal_in(chars.as_slice(), at + 6, chars.len()) {
                Some(line) => (path.substring_char(0, at), line),
                None => (path, 1),
            }
        },
        None => (path, 1),
    }
}

/// Writes the anchor that names `line` at the end of `out`.
pub fn push_marker(out: &mut String, line: usize)
    ensures
        final(out)@ == old(out)@ + marker_text(line as nat),
{
    proof {
        reveal_strlit("#more:");
    }
    out.append("#more:");
    assert(out@ =~= old(out)@ + anchor_tag());
    push_decimal(out, line);
    assert(out@ =~= old(out)@ + marker_text(line as nat));
}

/// The anchor that names `line`.
pub fn format_marker(line: usize) -> (text: String)
    ensures
        text@ == marker_text(line as nat),
{
    let mut text = String::new();
    push_marker(&mut text, line);
    assert(text@ =~= marker_text(line as nat));
    text
}

} // verus!
