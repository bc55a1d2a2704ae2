//! Texts as sequences of characters: lines, and how they are joined.

use crate::search::{count_of, lemma_count_of_absent, lemma_count_of_concat};
use vstd::prelude::*;

verus! {

/// `line` holds no line feed.
pub open spec fn is_single_line(line: Seq<char>) -> bool {
    forall|i: int| 0 <= i < line.len() ==> line[i] != '\n'
}

/// None of `lines` holds a line feed.
pub open spec fn all_single_lines(lines: Seq<Seq<char>>) -> bool {
    forall|i: int| 0 <= i < lines.len() ==> is_single_line(#[trigger] lines[i])
}

/// The parts in order, with `sep` between each two neighbours.
pub open spec fn join_with(parts: Seq<Seq<char>>, sep: Seq<char>) -> Seq<char>
    decreases parts.len(),
{
    if parts.len() == 0 {
        Seq::empty()
    } else if parts.len() == 1 {
        parts[0]
    } else {
        join_with(parts.drop_last(), sep) + sep + parts.last()
    }
}

/// The lines in order, with a line feed between each two neighbours.
pub open spec fn join_lines(lines: Seq<Seq<char>>) -> Seq<char> {
    join_with(lines, seq!['\n'])
}

/// What each of the strings holds.
pub open spec fn string_views(texts: Seq<String>) -> Seq<Seq<char>> {
    texts.map_values(|text: String| text@)
}

/// What each of the string slices holds.
pub open spec fn line_views(lines: Seq<&str>) -> Seq<Seq<char>> {
    lines.map_values(|line: &str| line@)
}

/// Joining two runs of parts: the joined runs, with a separator between them
/// where neither is empty.
pub proof fn lemma_join_with_concat(a: Seq<Seq<char>>, b: Seq<Seq<char>>, sep: Seq<char>)
    ensures
        join_with(a + b, sep) == if a.len() == 0 {
            join_with(b, sep)
        } else if b.len() == 0 {
            join_with(a, sep)
        } else {
            join_with(a, sep) + sep + join_with(b, sep)
        },
    decreases b.len(),
{
    if a.len() == 0 {
        assert(a + b =~= b);
    } else if b.len() == 0 {
        assert(a + b =~= a);
    } else {
        assert((a + b).drop_last() =~= a + b.drop_last());
        assert((a + b).last() == b.last());
        lemma_join_with_concat(a, b.drop_last(), sep);
        if b.len() == 1 {
            assert(b.drop_last().len() == 0);
        } else {
            assert(join_with(a + b, sep) =~= join_with(a, sep) + sep + join_with(b, sep));
        }
    }
}

/// Lines that hold no line feed are joined by exactly one line feed fewer
/// than there are lines.
pub proof fn lemma_join_lines_count(lines: Seq<Seq<char>>)
    requires
        all_single_lines(lines),
        lines.len() > 0,
    ensures
        count_of(join_lines(lines), '\n') == lines.len() - 1,
    decreases lines.len(),
{
    let feed = seq!['\n'];
    if lines.len() == 1 {
        assert(is_single_line(lines[0]));
        lemma_count_of_absent(lines[0], '\n');
    } else {
        let front = lines.drop_last();
        assert forall|i: int| 0 <= i < front.len() implies is_single_line(#[trigger] front[i]) by {
            assert(front[i] == lines[i]);
        }
        lemma_join_lines_count(front);
        assert(is_single_line(lines[lines.len() - 1]));
        lemma_count_of_absent(lines.last(), '\n');
        lemma_count_of_concat(join_lines(front), feed, '\n');
        lemma_count_of_concat(join_lines(front) + feed, lines.last(), '\n');
        assert(count_of(feed, '\n') == 1) by {
            reveal_with_fuel(count_of, 2);
        }
    }
}

/// In the join of lines that hold no line feed, every line feed stands
/// between two lines: the text before it is the join of the lines before it,
/// the text behind it the join of the lines behind it, and the number of those
/// before it is one more than the line feeds before it.
pub proof fn lemma_join_lines_split(lines: Seq<Seq<char>>, at: int)
    requires
        all_single_lines(lines),
        0 <= at < join_lines(lines).len(),
        join_lines(lines)[at] == '\n',
    ensures
        ({
            let whole = join_lines(lines);
            let before: int = count_of(whole.take(at), '\n') as int + 1;
            &&& 1 <= before < lines.len()
            &&& whole.take(at) == join_lines(lines.take(before))
            &&& whole.skip(at + 1) == join_lines(lines.skip(before))
        }),
    decreases lines.len(),
{
    let feed = seq!['\n'];
    let whole = join_lines(lines);
    if lines.len() == 0 {
    } else if lines.len() == 1 {
        assert(is_single_line(lines[0]));
    } else {
        let front = lines.drop_last();
        let last = lines.last();
        let joined = join_lines(front);
        assert(is_single_line(lines[lines.len() - 1]));
        assert forall|i: int| 0 <= i < front.len() implies is_single_line(#[trigger] front[i]) by {
            assert(front[i] == lines[i]);
        }
        assert(whole == joined + feed + last);
        if at < joined.len() {
            lemma_join_lines_split(front, at);
            let before: int = count_of(joined.take(at), '\n') as int + 1;
            assert(whole.take(at) =~= joined.take(at));
            assert(front.take(before) =~= lines.take(before));
            assert(whole.skip(at + 1) =~= joined.skip(at + 1) + feed + last);
            assert(lines.skip(before).drop_last() =~= front.skip(before));
            assert(lines.skip(before).last() == last);
        } else if at == joined.len() {
            lemma_join_lines_count(front);
            assert(whole.take(at) =~= joined);
            assert(lines.take(front.len() as int) =~= front);
            assert(whole.skip(at + 1) =~= last);
            assert(lines.skip(front.len() as int) =~= seq![last]);
        } else {
            assert(whole[at] == last[at - joined.len() - 1]);
        }
    }
}

/// Collects the characters of `s`, in order.
pub fn to_chars(s: &str) -> (chars: Vec<char>)
    ensures
        chars@ == s@,
{
    let mut chars: Vec<char> = Vec::new();
    for c in it: s.chars()
        invariant
            it.seq() == s@,
            chars@ == it.seq().take(it.index()),
    {
        chars.push(c);
    }
    chars
}

} // verus!
