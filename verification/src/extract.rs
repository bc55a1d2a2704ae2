//! Taking a window of lines out of a document.

use crate::document::{
    has_plain_line_ends, lemma_join_split_lines, split_lines, without_final_line_feed,
};
use crate::text::{join_lines, line_views};
use vstd::prelude::*;

verus! {

/// The index, from 0, of the line that a range starting at `start` begins
/// with. Lines are counted from 1; a start of 0 is read as line 1.
pub open spec fn first_index(start: usize) -> int {
    if start <= 1 {
        0
    } else {
        start - 1
    }
}

/// The index, from 0, behind the last line of a range that ends at `end`, in
/// a document of `total` lines: an end behind the document is the document's
/// end, and so is an open end.
pub open spec fn end_index(total: nat, end: Option<usize>) -> int {
    match end {
        Some(end) => if end < total {
            end as int
        } else {
            total as int
        },
        None => total as int,
    }
}

/// The lines of `lines` that the range from `start` to `end` holds. A range
/// that begins behind the document, or ends before it begins, holds none.
pub open spec fn select_lines(lines: Seq<Seq<char>>, start: usize, end: Option<usize>) -> Seq<
    Seq<char>,
> {
    let first = first_index(start);
    let last = end_index(lines.len(), end);
    if first < last {
        lines.subrange(first, last)
    } else {
        Seq::empty()
    }
}

/// The text of the range from `start` to `end`: its lines, joined by line feeds.
pub open spec fn extract_lines_spec(lines: Seq<Seq<char>>, start: usize, end: Option<usize>) -> Seq<
    char,
> {
    join_lines(select_lines(lines, start, end))
}

/// The range from line 1 to the last line, or to any line behind it, or with
/// an open end, gives the whole document back, line for line.
pub proof fn lemma_whole_range(lines: Seq<Seq<char>>, start: usize, end: Option<usize>)
    requires
        start <= 1,
        end matches Some(last) ==> last >= lines.len(),
    ensures
        select_lines(lines, start, end) == lines,
        extract_lines_spec(lines, start, end) == join_lines(lines),
{
    assert(select_lines(lines, start, end) =~= lines);
}

/// Taking the lines of a text apart and asking for all of them, from line 1
/// to the last or beyond, gives the text back, without the one line feed that
/// may end it, provided that no carriage return in it stands directly before
/// a line feed.
pub proof fn lemma_whole_range_of_text(text: Seq<char>, start: usize, end: Option<usize>)
    requires
        has_plain_line_ends(text),
        start <= 1,
        end matches Some(last) ==> last >= split_lines(text).len(),
    ensures
        extract_lines_spec(split_lines(text), start, end) == without_final_line_feed(text),
{
    lemma_whole_range(split_lines(text), start, end);
    lemma_join_split_lines(text);
}

/// A range that starts behind the last line holds nothing.
pub proof fn lemma_range_out_of_bounds(lines: Seq<Seq<char>>, start: usize, end: Option<usize>)
    requires
        start > lines.len(),
    ensures
        select_lines(lines, start, end).len() == 0,
        extract_lines_spec(lines, start, end).len() == 0,
{
}

/// The lines from `start` to `end`, joined by line feeds.
///
/// Lines are counted from 1, and both ends belong to the range; without an
/// end the range runs to the last line. The range is cut to the document: a
/// start of 0 means line 1, an end behind the last line means the last line. A
/// range that starts behind the last line, or ends before it starts, gives the
/// empty string.
pub fn extract_lines(lines: &[&str], start: usize, end: Option<usize>) -> (text: String)
    ensures
        text@ == extract_lines_spec(line_views(lines@), start, end),
        start > lines@.len() ==> text@.len() == 0,
{
    let ghost views = line_views(lines@);
    let total: usize = lines.len();
    let first: usize = if start <= 1 {
        0
    } else {
        start - 1
    };
    let last: usize = match end {
        Some(end) => if end < total {
            end
        } else {
            total
        },
        None => total,
    };
    let mut text = String::new();
    if first >= last {
        return text;
    }
    proof {
        reveal_strlit("\n");
    }
    let mut at: usize = first;
    while at < last
        invariant
            first <= at <= last <= total,
            total == lines@.len(),
            views == line_views(lines@),
            "\n"@ == seq!['\n'],
            text@ == join_lines(views.subrange(first as int, at as int)),
        decreases last - at,
    {
        let ghost done = views.subrange(first as int, at as int);
        let ghost next = views.subrange(first as int, at + 1);
        assert(next.drop_last() =~= done);
        assert(next.last() == lines@[at as int]@);
        if at > first {
            text.append("\n");
        }
        text.append(lines[at]);
        at += 1;
        assert(text@ =~= join_lines(next));
    }
    text
}

} // verus!
