//! Pages: the text that a request selects from a document, cut to the
//! reader's budget of bytes, with the line at which the next page begins.

use crate::anchor::{marker_text, push_marker};
use crate::document::{
    has_plain_line_ends, lemma_join_split_lines, lemma_join_split_lines_byte_len, split_lines,
    without_final_line_feed, SourceDocument,
};
use crate::extract::{
    extract_lines, extract_lines_spec, first_index, lemma_whole_range, select_lines,
};
use crate::range::RangeSpec;
use crate::encoding::{
    byte_len, chars_within, lemma_byte_len_at_least, lemma_byte_len_of_prefixes,
    lemma_chars_within,
};
use crate::search::{
    last_index_of, lemma_count_of_absent, lemma_count_of_bound, lemma_count_of_concat,
    lemma_last_index_of,
};
use crate::text::{
    all_single_lines, is_single_line, join_lines, join_with, lemma_join_lines_count,
    lemma_join_lines_split, line_views,
};
use crate::truncate::{
    cut_point, first_line_fits, lemma_cut_at_line_end, lemma_cut_point_bounds, lines_kept,
    truncate_to_line_boundary,
};
use vstd::prelude::*;

verus! {

/// A page: its text, and where the text was cut short to fit the budget, the
/// line at which the next page begins.
#[derive(Debug)]
pub struct PaginatedResult {
    pub text: String,
    pub truncated_at_line: Option<usize>,
}

/// What stands between the blocks of two ranges: an empty line.
pub open spec fn block_separator() -> Seq<char> {
    seq!['\n', '\n']
}

/// The block of one range: its header line, then its lines.
pub open spec fn range_block(lines: Seq<Seq<char>>, range: RangeSpec) -> Seq<char> {
    range.header() + seq!['\n'] + extract_lines_spec(lines, range.start, range.end)
}

/// The text for a list of ranges: the block of each, in the order given, with
/// an empty line between each two.
pub open spec fn ranged_text(lines: Seq<Seq<char>>, ranges: Seq<RangeSpec>) -> Seq<char> {
    join_with(ranges.map_values(|range: RangeSpec| range_block(lines, range)), block_separator())
}

/// The text from `resume_line` to the end of the document.
pub open spec fn resumed_text(lines: Seq<Seq<char>>, resume_line: usize) -> Seq<char> {
    extract_lines_spec(lines, resume_line, None)
}

/// The text that a request selects, before any budget is applied: with
/// ranges, their blocks; without, the document from `resume_line` on.
pub open spec fn assembled_text(
    lines: Seq<Seq<char>>,
    resume_line: usize,
    ranges: Seq<RangeSpec>,
) -> Seq<char> {
    if ranges.len() > 0 {
        ranged_text(lines, ranges)
    } else {
        resumed_text(lines, resume_line)
    }
}

/// The number that the first line of the selected text counts as: the line
/// resumed at (at least 1) where the document is read on, and 1 for ranges.
pub open spec fn base_line(resume_line: usize, ranges: Seq<RangeSpec>) -> nat {
    if ranges.len() > 0 || resume_line <= 1 {
        1
    } else {
        resume_line as nat
    }
}

/// The text takes more bytes than the budget allows.
pub open spec fn exceeds(whole: Seq<char>, budget: Option<usize>) -> bool {
    budget matches Some(max_chars) && byte_len(whole) > max_chars
}

/// The text of the page: the selected text, cut to the budget where it is
/// longer.
pub open spec fn page_text(
    lines: Seq<Seq<char>>,
    resume_line: usize,
    ranges: Seq<RangeSpec>,
    budget: Option<usize>,
) -> Seq<char> {
    let whole = assembled_text(lines, resume_line, ranges);
    if exceeds(whole, budget) {
        whole.take(cut_point(whole, budget->0))
    } else {
        whole
    }
}

/// The line at which the next page begins: none where nothing was cut off,
/// else the number of the first line plus the lines that the page stands for.
pub open spec fn page_next_line(
    lines: Seq<Seq<char>>,
    resume_line: usize,
    ranges: Seq<RangeSpec>,
    budget: Option<usize>,
) -> Option<nat> {
    let whole = assembled_text(lines, resume_line, ranges);
    if exceeds(whole, budget) {
        Some(base_line(resume_line, ranges) + lines_kept(whole, budget->0))
    } else {
        None
    }
}

/// What is written out for a page: its text and a line feed, and after a cut
/// the anchor of the next page and a line feed.
pub open spec fn rendered(text: Seq<char>, next_line: Option<usize>) -> Seq<char> {
    match next_line {
        Some(line) => text + seq!['\n'] + marker_text(line as nat) + seq!['\n'],
        None => text + seq!['\n'],
    }
}

impl PaginatedResult {
    /// What is written out for the page.
    pub fn render(&self) -> (out: String)
        ensures
            out@ == rendered(self.text@, self.truncated_at_line),
    {
        proof {
            reveal_strlit("\n");
        }
        let mut out = String::new();
        out.append(self.text.as_str());
        out.append("\n");
        if let Some(line) = self.truncated_at_line {
            push_marker(&mut out, line);
            out.append("\n");
        }
        assert(out@ =~= rendered(self.text@, self.truncated_at_line));
        out
    }
}

/// The blocks of the ranges, joined by empty lines.
fn assemble_ranges(lines: &[&str], ranges: &[RangeSpec]) -> (text: String)
    ensures
        text@ == ranged_text(line_views(lines@), ranges@),
{
    let ghost views = line_views(lines@);
    let ghost blocks = ranges@.map_values(|range: RangeSpec| range_block(views, range));
    proof {
        reveal_strlit("\n");
        reveal_strlit("\n\n");
    }
    let mut text = String::new();
    let mut at: usize = 0;
    while at < ranges.len()
        invariant
            at <= ranges@.len(),
            views == line_views(lines@),
            blocks == ranges@.map_values(|range: RangeSpec| range_block(views, range)),
            "\n"@ == seq!['\n'],
            "\n\n"@ == seq!['\n', '\n'],
            text@ == join_with(blocks.take(at as int), block_separator()),
        decreases ranges@.len() - at,
    {
        let ghost done = blocks.take(at as int);
        let ghost next = blocks.take(at + 1);
        let ghost before = text@;
        assert(next.drop_last() =~= done);
        assert(next.last() == range_block(views, ranges@[at as int]));
        if at > 0 {
            text.append("\n\n");
        }
        let range = ranges[at];
        range.push_header(&mut text);
        text.append("\n");
        let body = extract_lines(lines, range.start, range.end);
        text.append(body.as_str());
        at += 1;
        assert(text@ =~= join_with(next, block_separator()));
    }
    assert(blocks.take(at as int) =~= blocks);
    text
}

/// A page that was cut stands for one line, or for no more lines than the
/// budget has bytes.
proof fn lemma_lines_kept_bound(whole: Seq<char>, max_chars: usize)
    requires
        byte_len(whole) > max_chars,
    ensures
        lines_kept(whole, max_chars) <= max_chars || lines_kept(whole, max_chars) == 1,
{
    let covered: int = chars_within(whole, max_chars as int);
    let head = whole.take(covered);
    let cut: int = cut_point(whole, max_chars);
    lemma_chars_within(whole, max_chars as int);
    lemma_last_index_of(head, '\n');
    lemma_cut_point_bounds(whole, max_chars);
    lemma_count_of_bound(whole.take(cut), '\n');
    if cut == covered {
        assert(whole.take(cut) =~= head);
        if last_index_of(head, '\n') is None {
            lemma_count_of_absent(head, '\n');
        }
    } else {
        lemma_byte_len_of_prefixes(whole, cut, covered);
        lemma_byte_len_at_least(whole.take(cut));
    }
}

/// A page of a document that is read on stands for no more lines than are
/// left from the line resumed at.
proof fn lemma_lines_kept_of_document(lines: Seq<Seq<char>>, resume_line: usize, max_chars: usize)
    requires
        all_single_lines(lines),
        byte_len(resumed_text(lines, resume_line)) > max_chars,
    ensures
        first_index(resume_line) < lines.len(),
        first_index(resume_line) + lines_kept(resumed_text(lines, resume_line), max_chars)
            <= lines.len(),
{
    let whole = resumed_text(lines, resume_line);
    let chosen = select_lines(lines, resume_line, None);
    let cut: int = cut_point(whole, max_chars);
    lemma_cut_point_bounds(whole, max_chars);
    assert forall|i: int| 0 <= i < chosen.len() implies is_single_line(#[trigger] chosen[i]) by {
        assert(chosen[i] == lines[first_index(resume_line) + i]);
    }
    lemma_join_lines_count(chosen);
    assert(whole =~= whole.take(cut) + whole.skip(cut));
    lemma_count_of_concat(whole.take(cut), whole.skip(cut), '\n');
}

/// Without a budget, or with one that the selected text fits, the page is the
/// whole selected text and names no next line.
pub proof fn lemma_page_within_budget(
    lines: Seq<Seq<char>>,
    resume_line: usize,
    ranges: Seq<RangeSpec>,
    budget: Option<usize>,
)
    requires
        budget matches Some(max_chars) ==> byte_len(assembled_text(lines, resume_line, ranges))
            <= max_chars,
    ensures
        page_text(lines, resume_line, ranges, budget) == assembled_text(lines, resume_line, ranges),
        page_next_line(lines, resume_line, ranges, budget) is None,
{
}

/// A text read from its first line under a budget of at least its bytes is
/// shown whole: the page holds all its lines, joined, and names no next line.
/// Where no carriage return stands before a line feed, that is the text
/// itself without the one line feed that may end it, so that what is written
/// out is the text, ended by a line feed if it was not.
pub proof fn lemma_whole_text_within_budget(
    text: Seq<char>,
    resume_line: usize,
    budget: Option<usize>,
)
    requires
        resume_line <= 1,
        budget matches Some(max_chars) ==> byte_len(text) <= max_chars,
    ensures
        page_text(split_lines(text), resume_line, Seq::empty(), budget) == join_lines(
            split_lines(text),
        ),
        page_next_line(split_lines(text), resume_line, Seq::empty(), budget) is None,
        has_plain_line_ends(text) ==> page_text(split_lines(text), resume_line, Seq::empty(), budget)
            == without_final_line_feed(text),
        has_plain_line_ends(text) ==> rendered(
            page_text(split_lines(text), resume_line, Seq::empty(), budget),
            None,
        ) == if text.len() > 0 && text.last() == '\n' {
            text
        } else {
            text + seq!['\n']
        },
{
    let lines = split_lines(text);
    lemma_whole_range(lines, resume_line, None);
    lemma_join_split_lines_byte_len(text);
    if has_plain_line_ends(text) {
        lemma_join_split_lines(text);
        if text.len() > 0 && text.last() == '\n' {
            assert(text.drop_last() + seq!['\n'] =~= text);
        }
    }
}

/// A page that was cut, and whose first line fits the budget, ends at the end
/// of a line: in the selected text a line feed follows it. So the page and
/// the line feed written behind it are a prefix of the selected text, made of
/// whole lines.
pub proof fn lemma_page_ends_at_line_end(
    lines: Seq<Seq<char>>,
    resume_line: usize,
    ranges: Seq<RangeSpec>,
    max_chars: usize,
)
    requires
        byte_len(assembled_text(lines, resume_line, ranges)) > max_chars,
        first_line_fits(assembled_text(lines, resume_line, ranges), max_chars),
    ensures
        byte_len(page_text(lines, resume_line, ranges, Some(max_chars))) <= max_chars,
        assembled_text(lines, resume_line, ranges)[page_text(
            lines,
            resume_line,
            ranges,
            Some(max_chars),
        ).len() as int] == '\n',
        (page_text(lines, resume_line, ranges, Some(max_chars)) + seq!['\n']).is_prefix_of(
            assembled_text(lines, resume_line, ranges),
        ),
{
    let whole = assembled_text(lines, resume_line, ranges);
    let page = page_text(lines, resume_line, ranges, Some(max_chars));
    lemma_cut_point_bounds(whole, max_chars);
    lemma_cut_at_line_end(whole, max_chars);
    assert(page + seq!['\n'] =~= whole.subrange(0, page.len() as int + 1));
}

/// Reading on from the line that a cut page names goes on exactly where the
/// page stopped.
///
/// Take a document that is read from `resume_line` under a budget, a page that
/// was cut, and whose first line fits the budget. The page holds whole lines:
/// those from `resume_line` up to the line before the one it names. The text
/// from the named line on is the rest of the document. So the page, a line
/// feed, and the page read from the named line, under any budget, together
/// are a prefix of the text that was asked for: no line comes twice and none
/// is left out.
pub proof fn lemma_resumed_page_continues(
    lines: Seq<Seq<char>>,
    resume_line: usize,
    max_chars: usize,
    next_budget: Option<usize>,
)
    requires
        all_single_lines(lines),
        lines.len() < usize::MAX,
        byte_len(resumed_text(lines, resume_line)) > max_chars,
        first_line_fits(resumed_text(lines, resume_line), max_chars),
    ensures
        ({
            let whole = resumed_text(lines, resume_line);
            let first = page_text(lines, resume_line, Seq::empty(), Some(max_chars));
            let next: int = page_next_line(lines, resume_line, Seq::empty(), Some(max_chars))->0 as int;
            let second = page_text(lines, next as usize, Seq::empty(), next_budget);
            &&& first_index(resume_line) + 1 < next <= lines.len()
            &&& first == join_lines(lines.subrange(first_index(resume_line), next - 1))
            &&& resumed_text(lines, next as usize) == join_lines(
                lines.subrange(next - 1, lines.len() as int),
            )
            &&& whole == first + seq!['\n'] + resumed_text(lines, next as usize)
            &&& (first + seq!['\n'] + second).is_prefix_of(whole)
        }),
{
    let none = Seq::<RangeSpec>::empty();
    let whole = resumed_text(lines, resume_line);
    let begin: int = first_index(resume_line);
    let total: int = lines.len() as int;
    let chosen = select_lines(lines, resume_line, None);
    let cut: int = cut_point(whole, max_chars);
    lemma_cut_point_bounds(whole, max_chars);
    lemma_cut_at_line_end(whole, max_chars);
    assert(begin < total);
    assert(chosen == lines.subrange(begin, total));
    assert forall|i: int| 0 <= i < chosen.len() implies is_single_line(#[trigger] chosen[i]) by {
        assert(chosen[i] == lines[begin + i]);
    }
    lemma_join_lines_split(chosen, cut);
    let kept: int = lines_kept(whole, max_chars) as int;
    let next: int = page_next_line(lines, resume_line, none, Some(max_chars))->0 as int;
    assert(next == begin + 1 + kept);
    assert(chosen.take(kept) =~= lines.subrange(begin, next - 1));
    assert(chosen.skip(kept) =~= lines.subrange(next - 1, total));
    assert(select_lines(lines, next as usize, None) == lines.subrange(next - 1, total));
    let rest = resumed_text(lines, next as usize);
    let first = page_text(lines, resume_line, none, Some(max_chars));
    let second = page_text(lines, next as usize, none, next_budget);
    assert(whole =~= first + seq!['\n'] + rest);
    assert(second.is_prefix_of(rest)) by {
        if exceeds(rest, next_budget) {
            lemma_cut_point_bounds(rest, next_budget->0);
        }
    }
    assert((first + seq!['\n'] + second).is_prefix_of(whole)) by {
        let joined = first + seq!['\n'] + second;
        assert(joined =~= whole.subrange(0, joined.len() as int));
    }
}

/// Makes the page that a request asks for.
///
/// With ranges, the page shows the block of each range, in the order given:
/// a header line that names the range, then its lines, with an empty line
/// between two blocks. Without ranges it shows the document from
/// `resume_line` to its end.
///
/// The budget counts bytes. Without a budget, or where the text takes no more
/// bytes than it allows, the page is the whole text and names no next line. A
/// longer text is cut as `truncate_to_line_boundary` cuts it, and the page
/// names the line to go on from: the lines that the page stands for, counted
/// on from `resume_line` where the document is read on, and from 1 for ranges.
pub fn paginate(
    doc: &SourceDocument,
    resume_line: usize,
    ranges: &[RangeSpec],
    budget: Option<usize>,
) -> (page: PaginatedResult)
    requires
        doc.wf(),
        doc@.len() < usize::MAX,
    ensures
        page.text@ == page_text(doc@, resume_line, ranges@, budget),
        match page.truncated_at_line {
            Some(line) => page_next_line(doc@, resume_line, ranges@, budget) == Some(line as nat),
            None => page_next_line(doc@, resume_line, ranges@, budget) is None,
        },
{
    let lines = doc.as_lines();
    let whole: String = if ranges.len() > 0 {
        assemble_ranges(lines, ranges)
    } else {
        extract_lines(lines, resume_line, None)
    };
    assert(whole@ == assembled_text(doc@, resume_line, ranges@));
    let max_chars: usize = match budget {
        Some(max_chars) => max_chars,
        None => {
            return PaginatedResult { text: whole, truncated_at_line: None };
        },
    };
    let total: usize = whole.as_str().as_bytes().len();
    if total <= max_chars {
        return PaginatedResult { text: whole, truncated_at_line: None };
    }
    let (kept, count) = truncate_to_line_boundary(whole.as_str(), max_chars);
    proof {
        lemma_lines_kept_bound(whole@, max_chars);
        if ranges@.len() == 0 {
            lemma_lines_kept_of_document(doc@, resume_line, max_chars);
        }
    }
    let base: usize = if ranges.len() > 0 || resume_line <= 1 {
        1
    } else {
        resume_line
    };
    PaginatedResult { text: kept.to_owned(), truncated_at_line: Some(base + count) }
}

} // verus!
