//! Cutting a text to a budget of bytes without cutting through a line.
//!
//! The budget counts bytes, as the length of a string does. A cut is only
//! ever made between two characters: where the budget ends inside a
//! character, that character is left out.

use crate::document::LINE_FEED;
use crate::encoding::{
    byte_len, chars_within, lemma_byte_len_at_least, lemma_byte_len_concat,
    lemma_byte_len_of_prefixes, lemma_chars_within, lemma_chars_within_covers,
    lemma_chars_within_exact, lemma_encode_ascii, prefix_within, split_at_last_ascii,
};
use crate::search::{
    count_of, last_index_of, lemma_count_of_absent, lemma_count_of_bound, lemma_last_index_of,
};
use crate::text::{all_single_lines, join_lines, lemma_join_lines_split};
use vstd::prelude::*;

verus! {

/// How many characters of `text` a budget of `budget` bytes keeps.
///
/// A text of at most `budget` bytes is kept whole. Of a longer one, the whole
/// characters that the budget covers are looked at: the text is kept up to
/// the last line feed among them, without that line feed. Where there is none
/// among them, all of them are kept.
pub open spec fn cut_point(text: Seq<char>, budget: usize) -> int {
    if byte_len(text) <= budget {
        text.len() as int
    } else {
        let covered: int = chars_within(text, budget as int);
        match last_index_of(text.take(covered), '\n') {
            Some(at) => at,
            None => covered,
        }
    }
}

/// How many lines the kept part stands for: none where nothing was cut off,
/// else one more than the line feeds that the kept part holds.
pub open spec fn lines_kept(text: Seq<char>, budget: usize) -> nat {
    if byte_len(text) <= budget {
        0
    } else {
        count_of(text.take(cut_point(text, budget)), '\n') + 1
    }
}

/// The kept part of `text` under a budget, and the lines it stands for.
pub open spec fn truncate_spec(text: Seq<char>, budget: usize) -> (Seq<char>, nat) {
    (text.take(cut_point(text, budget)), lines_kept(text, budget))
}

/// The first line of `text` fits the budget: the text holds a line feed, and
/// what stands before it takes at most `budget` bytes.
pub open spec fn first_line_fits(text: Seq<char>, budget: usize) -> bool {
    exists|i: int| 0 <= i < text.len() && text[i] == '\n' && byte_len(text.take(i)) <= budget
}

/// The cut lies within the text. Where the text is longer than the budget,
/// the kept part takes at most `budget` bytes and is shorter than the text,
/// and there is no line feed between the cut and the last character that the
/// budget covers: no later line end within the budget was passed over.
pub proof fn lemma_cut_point_bounds(text: Seq<char>, budget: usize)
    ensures
        0 <= cut_point(text, budget) <= text.len(),
        byte_len(text) > budget ==> {
            &&& cut_point(text, budget) <= chars_within(text, budget as int)
            &&& cut_point(text, budget) < text.len()
            &&& byte_len(text.take(cut_point(text, budget))) <= budget
            &&& cut_point(text, budget) <= budget
            &&& forall|j: int|
                cut_point(text, budget) < j < chars_within(text, budget as int) ==> text[j]
                    != '\n'
        },
{
    if byte_len(text) > budget {
        let covered: int = chars_within(text, budget as int);
        let head = text.take(covered);
        let cut: int = cut_point(text, budget);
        lemma_chars_within(text, budget as int);
        lemma_last_index_of(head, '\n');
        lemma_byte_len_of_prefixes(text, cut, covered);
        lemma_byte_len_at_least(text.take(cut));
        if cut == text.len() {
            assert(text.take(cut) =~= text);
        }
        assert forall|j: int| cut < j < covered implies text[j] != '\n' by {
            assert(head[j] == text[j]);
        }
    }
}

/// A text within the budget is kept whole, and counts as not cut; a longer
/// one counts for at least one line.
pub proof fn lemma_within_budget(text: Seq<char>, budget: usize)
    ensures
        byte_len(text) <= budget ==> truncate_spec(text, budget) == (text, 0nat),
        byte_len(text) > budget ==> lines_kept(text, budget) >= 1,
{
    assert(text.take(text.len() as int) =~= text);
}

/// A text over the budget whose first line fits the budget is cut at the end
/// of a line: the character behind the kept part is a line feed.
pub proof fn lemma_cut_at_line_end(text: Seq<char>, budget: usize)
    requires
        byte_len(text) > budget,
        first_line_fits(text, budget),
    ensures
        cut_point(text, budget) < text.len(),
        text[cut_point(text, budget)] == '\n',
        byte_len(text.take(cut_point(text, budget))) <= budget,
{
    let covered: int = chars_within(text, budget as int);
    let head = text.take(covered);
    let first: int = choose|i: int|
        0 <= i < text.len() && text[i] == '\n' && byte_len(text.take(i)) <= budget;
    lemma_chars_within(text, budget as int);
    lemma_cut_point_bounds(text, budget);
    lemma_chars_within_covers(text, budget as int, first);
    lemma_last_index_of(head, '\n');
    match last_index_of(head, '\n') {
        Some(at) => {
            assert(head[at] == text[at]);
        },
        None => {
            if first < covered {
                assert(head[first] == text[first]);
            }
        },
    }
}

/// A text over the budget that holds a line feed among its first `budget`
/// bytes is kept to less than the budget.
pub proof fn lemma_cut_below_budget(text: Seq<char>, budget: usize)
    requires
        byte_len(text) > budget,
        exists|i: int|
            0 <= i < text.len() && text[i] == '\n' && byte_len(text.take(i)) < budget,
    ensures
        byte_len(text.take(cut_point(text, budget))) < budget,
        text[cut_point(text, budget)] == '\n',
{
    let covered: int = chars_within(text, budget as int);
    let head = text.take(covered);
    let cut: int = cut_point(text, budget);
    let found: int = choose|i: int|
        0 <= i < text.len() && text[i] == '\n' && byte_len(text.take(i)) < budget;
    lemma_chars_within(text, budget as int);
    assert(text.take(found + 1) =~= text.take(found) + seq!['\n']);
    lemma_byte_len_concat(text.take(found), seq!['\n']);
    lemma_encode_ascii('\n');
    lemma_chars_within_covers(text, budget as int, found + 1);
    assert(head[found] == text[found]);
    lemma_last_index_of(head, '\n');
    assert(head[cut] == text[cut]);
    lemma_byte_len_of_prefixes(text, cut, covered);
}

/// Lines without line feeds, joined and cut: where the first line fits the
/// budget, the kept part is made of the first lines, whole, as many as it
/// counts for, at least one and not all; what follows the line feed behind
/// it is the join of the other lines.
pub proof fn lemma_cut_keeps_whole_lines(lines: Seq<Seq<char>>, budget: usize)
    requires
        all_single_lines(lines),
        byte_len(join_lines(lines)) > budget,
        first_line_fits(join_lines(lines), budget),
    ensures
        ({
            let whole = join_lines(lines);
            let kept: int = lines_kept(whole, budget) as int;
            &&& 1 <= kept < lines.len()
            &&& truncate_spec(whole, budget).0 == join_lines(lines.take(kept))
            &&& whole.skip(cut_point(whole, budget) + 1) == join_lines(lines.skip(kept))
            &&& whole == truncate_spec(whole, budget).0 + seq!['\n'] + join_lines(
                lines.skip(kept),
            )
        }),
{
    let whole = join_lines(lines);
    let cut: int = cut_point(whole, budget);
    lemma_cut_point_bounds(whole, budget);
    lemma_cut_at_line_end(whole, budget);
    lemma_join_lines_split(lines, cut);
    assert(whole =~= whole.take(cut) + seq!['\n'] + whole.skip(cut + 1));
}

/// A text over the budget with no line feed among the characters that the
/// budget covers is cut right behind them, and counts for one line.
pub proof fn lemma_cut_without_line_feed(text: Seq<char>, budget: usize)
    requires
        byte_len(text) > budget,
        forall|j: int| 0 <= j < chars_within(text, budget as int) ==> text[j] != '\n',
    ensures
        cut_point(text, budget) == chars_within(text, budget as int),
        lines_kept(text, budget) == 1,
{
    let covered: int = chars_within(text, budget as int);
    let head = text.take(covered);
    lemma_chars_within(text, budget as int);
    lemma_last_index_of(head, '\n');
    match last_index_of(head, '\n') {
        Some(at) => {
            assert(head[at] == text[at]);
        },
        None => {},
    }
    lemma_count_of_absent(head, '\n');
}

/// A text over the budget, where the budget ends between two characters and
/// no line feed stands before that place, is kept exactly up to that place,
/// and counts for one line.
pub proof fn lemma_cut_on_boundary(text: Seq<char>, budget: usize, prefix: int)
    requires
        0 <= prefix <= text.len(),
        byte_len(text.take(prefix)) == budget,
        byte_len(text) > budget,
        forall|j: int| 0 <= j < prefix ==> text[j] != '\n',
    ensures
        truncate_spec(text, budget) == (text.take(prefix), 1nat),
{
    lemma_chars_within_exact(text, prefix);
    lemma_cut_without_line_feed(text, budget);
}

/// How many line feeds `s` holds.
fn count_line_feeds(s: &str) -> (feeds: usize)
    ensures
        feeds == count_of(s@, '\n'),
{
    let total: usize = s.as_bytes().len();
    proof {
        lemma_byte_len_at_least(s@);
    }
    let mut feeds: usize = 0;
    for c in it: s.chars()
        invariant
            it.seq() == s@,
            s@.len() <= total,
            feeds <= it.index(),
            feeds == count_of(s@.take(it.index()), '\n'),
    {
        assert(s@.take(it.index() + 1).drop_last() =~= s@.take(it.index()));
        if c == '\n' {
            feeds += 1;
        }
    }
    assert(s@.take(s@.len() as int) =~= s@);
    feeds
}

/// Cuts `s` to at most `max_chars` bytes, at the end of a line.
///
/// The result is the kept part and the number of lines it stands for. A text
/// of at most `max_chars` bytes comes back whole, with 0. Of a longer one the
/// first `max_chars` bytes are looked at, less the bytes of a character that
/// would be cut through: the text is kept up to the last line feed among
/// them, that line feed left out, and the number is one more than the line
/// feeds kept. Only where they hold no line feed, all of them are kept, and
/// the number is 1.
pub fn truncate_to_line_boundary(s: &str, max_chars: usize) -> (cut: (&str, usize))
    ensures
        cut.0@ == truncate_spec(s@, max_chars).0,
        cut.1 == truncate_spec(s@, max_chars).1,
        cut.0@.is_prefix_of(s@),
        cut.1 == 0 <==> byte_len(s@) <= max_chars,
        byte_len(s@) > max_chars ==> byte_len(cut.0@) <= max_chars && cut.0@.len() < s@.len(),
        byte_len(s@) > max_chars && first_line_fits(s@, max_chars) ==> s@[cut.0@.len() as int]
            == '\n',
{
    let total: usize = s.as_bytes().len();
    proof {
        lemma_within_budget(s@, max_chars);
        lemma_chars_within(s@, max_chars as int);
        lemma_cut_point_bounds(s@, max_chars);
        if byte_len(s@) > max_chars && first_line_fits(s@, max_chars) {
            lemma_cut_at_line_end(s@, max_chars);
        }
    }
    if total <= max_chars {
        return (s, 0);
    }
    let covered = prefix_within(s, max_chars);
    let kept = match split_at_last_ascii(covered, LINE_FEED) {
        Some((head, _)) => head,
        None => covered,
    };
    assert(kept@ =~= s@.take(cut_point(s@, max_chars))) by {
        assert(kept@.len() == cut_point(s@, max_chars));
        assert(covered@.take(kept@.len() as int) =~= s@.take(kept@.len() as int));
        assert(covered@.take(covered@.len() as int) =~= covered@);
    }
    proof {
        lemma_count_of_bound(kept@, '\n');
        lemma_byte_len_at_least(kept@);
    }
    let feeds = count_line_feeds(kept);
    (kept, feeds + 1)
}

} // verus!
