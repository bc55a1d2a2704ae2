//! Line ranges: which lines of a document a reader asks for.

use crate::anchor::{find_anchor, marker_text, parse_more_anchor_spec, push_marker};
use crate::decimal::{decimal_text, parse_decimal_in, parse_decimal_spec, push_decimal};
use crate::encoding::split_at_ascii;
use crate::search::{find_char, first_index_of, lemma_first_index_of};
use crate::text::{string_views, to_chars};
use vstd::prelude::*;

verus! {

/// A range of lines, counted from 1, both ends included. Without an end the
/// range is open: it runs to the end of the document.
#[derive(Clone, Copy, Debug)]
pub struct RangeSpec {
    pub start: usize,
    pub end: Option<usize>,
}

/// What a range token denotes, if anything.
///
/// - A token with an anchor that names a line, such as `#more:40`, denotes
///   the open range from that line.
/// - Any other token with a colon is read at its first colon: the text before
///   it and the text behind it must both be numbers, the start and the end.
/// - A token without a colon must be a number, and denotes that one line.
pub open spec fn parse_range_spec(token: Seq<char>) -> Option<(usize, Option<usize>)> {
    match parse_more_anchor_spec(token) {
        Some(start) => Some((start, None)),
        None => match first_index_of(token, ':') {
            Some(colon) => match (
                parse_decimal_spec(token.take(colon)),
                parse_decimal_spec(token.skip(colon + 1)),
            ) {
                (Some(start), Some(end)) => Some((start, Some(end))),
                _ => None,
            },
            None => match parse_decimal_spec(token) {
                Some(line) => Some((line, Some(line))),
                None => None,
            },
        },
    }
}

impl RangeSpec {
    /// The range that holds every line: from line 1, open.
    pub open spec fn whole() -> RangeSpec {
        RangeSpec { start: 1, end: None }
    }

    /// The range that a token asks for. A token that denotes no range asks
    /// for the whole document.
    pub open spec fn of_token(token: Seq<char>) -> RangeSpec {
        match parse_range_spec(token) {
            Some((start, end)) => RangeSpec { start, end },
            None => RangeSpec::whole(),
        }
    }

    /// The line that names the range above its text: `start:end`, or
    /// `#more:start` for an open range.
    pub open spec fn header(self) -> Seq<char> {
        match self.end {
            Some(end) => decimal_text(self.start as nat) + seq![':'] + decimal_text(end as nat),
            None => marker_text(self.start as nat),
        }
    }

    /// Reads a range token leniently: a token that denotes no range stands
    /// for the whole document.
    pub fn from_token(token: &str) -> (range: RangeSpec)
        ensures
            range == RangeSpec::of_token(token@),
    {
        match parse_range(token) {
            Some((start, end)) => RangeSpec { start, end },
            None => RangeSpec { start: 1, end: None },
        }
    }

    /// Writes the range's header at the end of `out`.
    pub fn push_header(&self, out: &mut String)
        ensures
            final(out)@ == old(out)@ + self.header(),
    {
        match self.end {
            Some(end) => {
                push_decimal(out, self.start);
                proof {
                    reveal_strlit(":");
                }
                out.append(":");
                push_decimal(out, end);
                assert(out@ =~= old(out)@ + self.header());
            },
            None => {
                push_marker(out, self.start);
            },
        }
    }
}

/// Reads a range token.
///
/// `#more:40` is the open range from line 40, `10:20` the lines 10 to 20,
/// and `7` the single line 7. The result is `None` for a token that is none
/// of these.
pub fn parse_range(range: &str) -> (parsed: Option<(usize, Option<usize>)>)
    ensures
        parsed == parse_range_spec(range@),
{
    let chars = to_chars(range);
    let total: usize = chars.len();
    proof {
        lemma_first_index_of(chars@, ':');
    }
    if let Some(at) = find_anchor(chars.as_slice()) {
        assert(chars@.subrange(at + 6, total as int) =~= chars@.skip(at + 6));
        if let Some(start) = parse_decimal_in(chars.as_slice(), at + 6, total) {
            return Some((start, None));
        }
    }
    match find_char(chars.as_slice(), ':') {
        Some(colon) => {
            assert(chars@.subrange(0, colon as int) =~= chars@.take(colon as int));
            assert(chars@.subrange(colon + 1, total as int) =~= chars@.skip(colon + 1));
            let start = parse_decimal_in(chars.as_slice(), 0, colon);
            let end = parse_decimal_in(chars.as_slice(), colon + 1, total);
            match (start, end) {
                (Some(start), Some(end)) => Some((start, Some(end))),
                _ => None,
            }
        },
        None => {
            assert(chars@.subrange(0, total as int) =~= chars@);
            match parse_decimal_in(chars.as_slice(), 0, total) {
                Some(line) => Some((line, Some(line))),
                None => None,
            }
        },
    }
}

/// The code of the comma, which parts the tokens of a list.
pub const COMMA: u8 = 44;

/// The tokens of a list: the texts between its commas, in order. A list
/// without a comma is one token, and so is the empty list.
pub open spec fn split_tokens(list: Seq<char>) -> Seq<Seq<char>>
    decreases list.len(),
{
    match first_index_of(list, ',') {
        Some(at) => {
            proof {
                lemma_first_index_of(list, ',');
            }
            seq![list.take(at)] + split_tokens(list.skip(at + 1))
        },
        None => seq![list],
    }
}

/// The ranges that a list of tokens asks for: that of each token, in order.
pub open spec fn ranges_of_list(list: Seq<char>) -> Seq<RangeSpec> {
    split_tokens(list).map_values(|token: Seq<char>| RangeSpec::of_token(token))
}

/// The ranges that several lists ask for: those of each list, in order.
pub open spec fn ranges_of_lists(lists: Seq<Seq<char>>) -> Seq<RangeSpec>
    decreases lists.len(),
{
    if lists.len() == 0 {
        Seq::empty()
    } else {
        ranges_of_lists(lists.drop_last()) + ranges_of_list(lists.last())
    }
}

/// Every list asks for at least one range: lists, if there are any, never
/// ask for nothing.
pub proof fn lemma_ranges_of_lists_len(lists: Seq<Seq<char>>)
    ensures
        ranges_of_lists(lists).len() >= lists.len(),
    decreases lists.len(),
{
    if lists.len() > 0 {
        lemma_ranges_of_lists_len(lists.drop_last());
        lemma_first_index_of(lists.last(), ',');
    }
}

/// Reads the tokens of `list`, which commas part, and writes the range of
/// each at the end of `ranges`. Each token is read leniently and on its own.
pub fn push_range_list(ranges: &mut Vec<RangeSpec>, list: &str)
    ensures
        final(ranges)@ == old(ranges)@ + ranges_of_list(list@),
{
    let mut rest: &str = list;
    assert(ranges@ + ranges_of_list(rest@) =~= old(ranges)@ + ranges_of_list(list@));
    loop
        invariant
            ranges@ + ranges_of_list(rest@) == old(ranges)@ + ranges_of_list(list@),
        ensures
            first_index_of(rest@, ',') is None,
        decreases rest@.len(),
    {
        let ghost done = ranges@;
        let ghost before = rest@;
        proof {
            lemma_first_index_of(before, ',');
        }
        match split_at_ascii(rest, COMMA) {
            Some((token, tail)) => {
                ranges.push(RangeSpec::from_token(token));
                rest = tail;
                assert(ranges_of_list(before) =~= seq![RangeSpec::of_token(token@)]
                    + ranges_of_list(rest@));
                assert(ranges@ + ranges_of_list(rest@) =~= done + ranges_of_list(before));
            },
            None => {
                break;
            },
        }
    }
    let ghost done = ranges@;
    ranges.push(RangeSpec::from_token(rest));
    assert(ranges_of_list(rest@) =~= seq![RangeSpec::of_token(rest@)]);
    assert(ranges@ =~= done + ranges_of_list(rest@));
}

/// Reads a list of range tokens, which commas part: `10:20,30:40,#more:50`.
///
/// Each token is read leniently and on its own: one that denotes no range
/// asks for the whole document, whatever the others say.
pub fn parse_range_list(list: &str) -> (ranges: Vec<RangeSpec>)
    ensures
        ranges@ == ranges_of_list(list@),
{
    let mut ranges: Vec<RangeSpec> = Vec::new();
    push_range_list(&mut ranges, list);
    assert(ranges@ =~= ranges_of_list(list@));
    ranges
}

/// Reads several lists of range tokens, in order.
pub fn parse_ranges(lists: &Vec<String>) -> (ranges: Vec<RangeSpec>)
    ensures
        ranges@ == ranges_of_lists(string_views(lists@)),
{
    let ghost views = string_views(lists@);
    let mut ranges: Vec<RangeSpec> = Vec::new();
    let mut at: usize = 0;
    while at < lists.len()
        invariant
            at <= lists@.len(),
            views == string_views(lists@),
            ranges@ == ranges_of_lists(views.take(at as int)),
        decreases lists@.len() - at,
    {
        assert(views.take(at + 1).drop_last() =~= views.take(at as int));
        assert(views.take(at + 1).last() == lists@[at as int]@);
        push_range_list(&mut ranges, lists[at].as_str());
        at += 1;
    }
    assert(views.take(at as int) =~= views);
    ranges
}

} // verus!
