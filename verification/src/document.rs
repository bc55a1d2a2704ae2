//! A text taken apart into lines.

use crate::encoding::{byte_len, lemma_byte_len_concat, split_at_ascii, strip_final_ascii};
use crate::search::{first_index_of, lemma_first_index_of};
use crate::text::{
    all_single_lines, is_single_line, join_lines, lemma_join_with_concat, line_views,
};
use vstd::prelude::*;

verus! {

/// The code of the line feed.
pub const LINE_FEED: u8 = 10;

/// The code of the carriage return.
pub const CARRIAGE_RETURN: u8 = 13;

/// `line` without the one carriage return that may end it.
pub open spec fn without_carriage_return(line: Seq<char>) -> Seq<char> {
    if line.len() > 0 && line.last() == '\r' {
        line.drop_last()
    } else {
        line
    }
}

/// The lines of `text`.
///
/// A line ends at a line feed; a carriage return directly before that line
/// feed belongs to the line's end, not to the line. What follows the last
/// line feed is a line too, unless it is empty. So the empty text has no
/// lines, and a final line feed starts no further line.
pub open spec fn split_lines(text: Seq<char>) -> Seq<Seq<char>>
    decreases text.len(),
{
    if text.len() == 0 {
        Seq::empty()
    } else {
        match first_index_of(text, '\n') {
            Some(at) => {
                proof {
                    lemma_first_index_of(text, '\n');
                }
                seq![without_carriage_return(text.take(at))] + split_lines(text.skip(at + 1))
            },
            None => seq![text],
        }
    }
}

/// `text` without the one line feed that may end it.
pub open spec fn without_final_line_feed(text: Seq<char>) -> Seq<char> {
    if text.len() > 0 && text.last() == '\n' {
        text.drop_last()
    } else {
        text
    }
}

/// No carriage return in `text` stands directly before a line feed.
pub open spec fn has_plain_line_ends(text: Seq<char>) -> bool {
    forall|i: int| 0 < i < text.len() && #[trigger] text[i] == '\n' ==> text[i - 1] != '\r'
}

/// None of the lines of a text holds a line feed, there are at most as many
/// lines as characters, and only the empty text has no lines.
pub proof fn lemma_split_lines(text: Seq<char>)
    ensures
        all_single_lines(split_lines(text)),
        split_lines(text).len() <= text.len(),
        split_lines(text).len() == 0 <==> text.len() == 0,
    decreases text.len(),
{
    if text.len() > 0 {
        lemma_first_index_of(text, '\n');
        match first_index_of(text, '\n') {
            Some(at) => {
                let rest = text.skip(at + 1);
                lemma_split_lines(rest);
                let head = without_carriage_return(text.take(at));
                assert(is_single_line(head)) by {
                    assert forall|i: int| 0 <= i < head.len() implies head[i] != '\n' by {
                        assert(head[i] == text[i]);
                    }
                }
                let lines = split_lines(text);
                assert forall|i: int| 0 <= i < lines.len() implies is_single_line(
                    #[trigger] lines[i],
                ) by {
                    if i > 0 {
                        assert(lines[i] == split_lines(rest)[i - 1]);
                    }
                }
            },
            None => {},
        }
    }
}

/// Taking a text apart and joining its lines gives the text back, without
/// its final line feed, provided that no carriage return in it stands
/// directly before a line feed.
pub proof fn lemma_join_split_lines(text: Seq<char>)
    requires
        has_plain_line_ends(text),
    ensures
        join_lines(split_lines(text)) == without_final_line_feed(text),
    decreases text.len(),
{
    if text.len() > 0 {
        lemma_first_index_of(text, '\n');
        match first_index_of(text, '\n') {
            Some(at) => {
                let head = text.take(at);
                let rest = text.skip(at + 1);
                assert(without_carriage_return(head) == head) by {
                    if head.len() > 0 {
                        assert(head.last() == text[at - 1]);
                    }
                }
                assert(has_plain_line_ends(rest)) by {
                    assert forall|i: int| 0 < i < rest.len() && #[trigger] rest[i]
                        == '\n' implies rest[i - 1] != '\r' by {
                        assert(rest[i] == text[at + 1 + i]);
                        assert(rest[i - 1] == text[at + i]);
                    }
                }
                lemma_join_split_lines(rest);
                lemma_split_lines(rest);
                lemma_join_with_concat(seq![head], split_lines(rest), seq!['\n']);
                if rest.len() == 0 {
                    assert(without_final_line_feed(text) =~= head);
                } else {
                    assert(text.last() == rest.last());
                    assert(without_final_line_feed(text) =~= head + seq!['\n']
                        + without_final_line_feed(rest));
                }
            },
            None => {
                assert(text.last() == text[text.len() - 1]);
            },
        }
    }
}

/// The joined lines of a text never take more bytes than the text.
pub proof fn lemma_join_split_lines_byte_len(text: Seq<char>)
    ensures
        byte_len(join_lines(split_lines(text))) <= byte_len(text),
    decreases text.len(),
{
    if text.len() > 0 {
        lemma_first_index_of(text, '\n');
        match first_index_of(text, '\n') {
            Some(at) => {
                let head = text.take(at);
                let line = without_carriage_return(head);
                let rest = text.skip(at + 1);
                let feed = seq!['\n'];
                lemma_join_split_lines_byte_len(rest);
                lemma_join_with_concat(seq![line], split_lines(rest), feed);
                assert(text =~= head + feed + rest);
                lemma_byte_len_concat(head + feed, rest);
                lemma_byte_len_concat(head, feed);
                lemma_byte_len_concat(line + feed, join_lines(split_lines(rest)));
                lemma_byte_len_concat(line, feed);
                if line != head {
                    assert(head =~= line + seq![head.last()]);
                    lemma_byte_len_concat(line, seq![head.last()]);
                }
            },
            None => {},
        }
    }
}

/// A document: the lines of a text, in order. None of them holds a line feed.
#[derive(Debug)]
pub struct SourceDocument<'a> {
    lines: Vec<&'a str>,
}

impl<'a> View for SourceDocument<'a> {
    type V = Seq<Seq<char>>;

    /// The lines, each as the characters it holds.
    closed spec fn view(&self) -> Seq<Seq<char>> {
        line_views(self.lines@)
    }
}

impl<'a> SourceDocument<'a> {
    /// The document is well formed: none of its lines holds a line feed.
    pub open spec fn wf(&self) -> bool {
        all_single_lines(self@)
    }

    /// Takes a text apart into its lines.
    pub fn from_text(text: &'a str) -> (doc: SourceDocument<'a>)
        ensures
            doc@ == split_lines(text@),
            doc.wf(),
    {
        let mut lines: Vec<&'a str> = Vec::new();
        let mut rest: &'a str = text;
        assert(line_views(lines@) + split_lines(rest@) =~= split_lines(text@));
        loop
            invariant
                line_views(lines@) + split_lines(rest@) == split_lines(text@),
            ensures
                first_index_of(rest@, '\n') is None,
            decreases rest@.len(),
        {
            let ghost done = line_views(lines@);
            let ghost before = rest@;
            proof {
                lemma_first_index_of(before, '\n');
            }
            match split_at_ascii(rest, LINE_FEED) {
                Some((head, tail)) => {
                    let line = strip_final_ascii(head, CARRIAGE_RETURN);
                    lines.push(line);
                    rest = tail;
                    assert(line_views(lines@) =~= done + seq![line@]);
                    assert(line_views(lines@) + split_lines(rest@) =~= done + split_lines(before));
                },
                None => {
                    break;
                },
            }
        }
        let ghost done = line_views(lines@);
        if !rest.is_empty() {
            lines.push(rest);
            assert(line_views(lines@) =~= done + split_lines(rest@));
        } else {
            assert(line_views(lines@) =~= done + split_lines(rest@));
        }
        proof {
            lemma_split_lines(text@);
        }
        SourceDocument { lines }
    }

    /// Makes a document of the given lines, unless one of them holds a line feed.
    pub fn from_lines(lines: Vec<&'a str>) -> (doc: Option<SourceDocument<'a>>)
        ensures
            match doc {
                Some(doc) => doc@ == line_views(lines@) && doc.wf(),
                None => !all_single_lines(line_views(lines@)),
            },
    {
        let ghost views = line_views(lines@);
        let mut at: usize = 0;
        while at < lines.len()
            invariant
                at <= lines@.len(),
                views == line_views(lines@),
                forall|i: int| 0 <= i < at ==> is_single_line(#[trigger] views[i]),
            decreases lines@.len() - at,
        {
            proof {
                lemma_first_index_of(lines@[at as int]@, '\n');
            }
            if split_at_ascii(lines[at], LINE_FEED).is_some() {
                assert(!is_single_line(views[at as int]));
                return None;
            }
            at += 1;
        }
        Some(SourceDocument { lines })
    }

    /// The number of lines.
    pub fn line_count(&self) -> (count: usize)
        ensures
            count == self@.len(),
    {
        self.lines.len()
    }

    /// The line with index `index`, counted from 0, if the document has one.
    pub fn line(&self, index: usize) -> (line: Option<&'a str>)
        ensures
            match line {
                Some(line) => index < self@.len() && line@ == self@[index as int],
                None => index >= self@.len(),
            },
    {
        if index < self.lines.len() {
            Some(self.lines[index])
        } else {
            None
        }
    }

    /// The lines, in order.
    pub fn as_lines(&self) -> (lines: &[&'a str])
        ensures
            line_views(lines@) == self@,
    {
        self.lines.as_slice()
    }
}

} // verus!
