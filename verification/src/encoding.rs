//! Texts and their bytes.
//!
//! A string is held as UTF-8: each character takes one to four bytes, an
//! ASCII character is the one byte of its code, and no other character has
//! such a byte. So the length of a text in bytes is a measure of its own, a
//! budget of bytes covers a number of whole characters, and a slice can be
//! searched for an ASCII character byte by byte and cut where one is found,
//! without ever cutting through a character.

use crate::search::{
    first_index_of, last_index_of, lemma_first_index_of_absent, lemma_first_index_of_unique,
    lemma_last_index_of_unique,
};
use vstd::prelude::*;
use vstd::string::StringSliceAdditionalSpecFns;
use vstd::utf8::{
    char_u32_cast, decode_first_scalar, decode_utf8, decode_utf8_split, encode_scalar,
    encode_utf8, encode_utf8_decode_utf8, encode_utf8_first_scalar, encode_utf8_valid_utf8,
    is_char_boundary, is_char_boundary_iff_not_is_continuation_byte, leading_byte_width_1,
    length_of_first_scalar, pop_first_scalar, valid_utf8,
};

verus! {

/// The length of `text` in bytes, as a string holds it.
pub open spec fn byte_len(text: Seq<char>) -> nat {
    encode_utf8(text).len()
}

/// How many bytes the character `c` takes.
pub open spec fn char_width(c: char) -> nat {
    encode_scalar(c as u32).len()
}

/// How many whole characters from the start of `text` a budget of `budget`
/// bytes covers: the characters are taken one by one for as long as the next
/// one still fits.
pub open spec fn chars_within(text: Seq<char>, budget: int) -> int
    decreases text.len(),
{
    if text.len() == 0 || char_width(text[0]) > budget {
        0
    } else {
        1 + chars_within(text.drop_first(), budget - char_width(text[0]))
    }
}

/// A character takes one to four bytes.
pub proof fn lemma_char_width(c: char)
    ensures
        1 <= char_width(c) <= 4,
{
}

/// A text takes the bytes of its first character and those of the rest.
pub proof fn lemma_byte_len_first(text: Seq<char>)
    requires
        text.len() > 0,
    ensures
        byte_len(text) == char_width(text[0]) + byte_len(text.drop_first()),
{
}

/// Two texts in a row take the bytes of both.
pub proof fn lemma_byte_len_concat(a: Seq<char>, b: Seq<char>)
    ensures
        byte_len(a + b) == byte_len(a) + byte_len(b),
{
    lemma_encode_concat(a, b);
}

/// A text takes at least one byte for each character.
pub proof fn lemma_byte_len_at_least(text: Seq<char>)
    ensures
        text.len() <= byte_len(text),
    decreases text.len(),
{
    if text.len() > 0 {
        lemma_char_width(text[0]);
        lemma_byte_len_at_least(text.drop_first());
    }
}

/// A longer prefix takes more bytes: at least one more for each character more.
pub proof fn lemma_byte_len_of_prefixes(text: Seq<char>, shorter: int, longer: int)
    requires
        0 <= shorter <= longer <= text.len(),
    ensures
        byte_len(text.take(shorter)) + (longer - shorter) <= byte_len(text.take(longer)),
{
    let between = text.subrange(shorter, longer);
    assert(text.take(longer) =~= text.take(shorter) + between);
    lemma_byte_len_concat(text.take(shorter), between);
    lemma_byte_len_at_least(between);
}

/// What `chars_within` gives fits the budget, and one character more, if the
/// text has one more, does not.
pub proof fn lemma_chars_within(text: Seq<char>, budget: int)
    requires
        0 <= budget,
    ensures
        0 <= chars_within(text, budget) <= text.len(),
        byte_len(text.take(chars_within(text, budget))) <= budget,
        chars_within(text, budget) < text.len() ==> byte_len(
            text.take(chars_within(text, budget) + 1),
        ) > budget,
    decreases text.len(),
{
    if text.len() == 0 {
        assert(text.take(0) =~= text);
    } else if char_width(text[0]) > budget {
        assert(text.take(0) =~= Seq::<char>::empty());
        assert(text.take(1).drop_first() =~= Seq::<char>::empty());
        lemma_byte_len_first(text.take(1));
    } else {
        let rest = text.drop_first();
        let left: int = budget - char_width(text[0]);
        let covered: int = chars_within(rest, left);
        lemma_chars_within(rest, left);
        assert(text.take(covered + 1).drop_first() =~= rest.take(covered));
        lemma_byte_len_first(text.take(covered + 1));
        if covered < rest.len() {
            assert(text.take(covered + 2).drop_first() =~= rest.take(covered + 1));
            lemma_byte_len_first(text.take(covered + 2));
        }
    }
}

/// The number of characters that fits the budget, while one more does not, is
/// the one that `chars_within` gives.
pub proof fn lemma_chars_within_unique(text: Seq<char>, budget: int, covered: int)
    requires
        0 <= budget,
        0 <= covered <= text.len(),
        byte_len(text.take(covered)) <= budget,
        covered < text.len() ==> byte_len(text.take(covered + 1)) > budget,
    ensures
        chars_within(text, budget) == covered,
{
    let given: int = chars_within(text, budget);
    lemma_chars_within(text, budget);
    if given < covered {
        lemma_byte_len_of_prefixes(text, given + 1, covered);
    }
    if covered < given {
        lemma_byte_len_of_prefixes(text, covered + 1, given);
    }
}

/// A budget that covers a prefix covers at least its characters.
pub proof fn lemma_chars_within_covers(text: Seq<char>, budget: int, prefix: int)
    requires
        0 <= prefix <= text.len(),
        byte_len(text.take(prefix)) <= budget,
    ensures
        prefix <= chars_within(text, budget),
{
    let given: int = chars_within(text, budget);
    lemma_chars_within(text, budget);
    if given < prefix {
        lemma_byte_len_of_prefixes(text, given + 1, prefix);
    }
}

/// A budget of at least the text's bytes covers the whole text.
pub proof fn lemma_chars_within_whole(text: Seq<char>, budget: int)
    requires
        byte_len(text) <= budget,
    ensures
        chars_within(text, budget) == text.len(),
{
    assert(text.take(text.len() as int) =~= text);
    lemma_chars_within_unique(text, budget, text.len() as int);
}

/// A budget that a prefix takes exactly covers just that prefix.
pub proof fn lemma_chars_within_exact(text: Seq<char>, prefix: int)
    requires
        0 <= prefix <= text.len(),
    ensures
        chars_within(text, byte_len(text.take(prefix)) as int) == prefix,
{
    if prefix < text.len() {
        lemma_byte_len_of_prefixes(text, prefix, prefix + 1);
    }
    lemma_chars_within_unique(text, byte_len(text.take(prefix)) as int, prefix);
}

/// Where a prefix of whole characters ends, no character of the encoding is
/// cut through.
proof fn lemma_prefix_is_boundary(text: Seq<char>, prefix: int)
    requires
        0 <= prefix <= text.len(),
    ensures
        is_char_boundary(encode_utf8(text), byte_len(text.take(prefix)) as int),
    decreases prefix,
{
    let bytes = encode_utf8(text);
    encode_utf8_valid_utf8(text);
    if prefix == 0 {
        assert(text.take(0) =~= Seq::<char>::empty());
    } else {
        let rest = text.drop_first();
        encode_utf8_first_scalar(text);
        assert(pop_first_scalar(bytes) =~= encode_utf8(rest));
        assert(text.take(prefix).drop_first() =~= rest.take(prefix - 1));
        lemma_byte_len_first(text.take(prefix));
        lemma_prefix_is_boundary(rest, prefix - 1);
        lemma_byte_len_of_prefixes(text, prefix, text.len() as int);
        assert(text.take(text.len() as int) =~= text);
        assert(length_of_first_scalar(bytes) == char_width(text[0]));
    }
}

/// The encoding of two texts in a row is their encodings in a row.
pub proof fn lemma_encode_concat(a: Seq<char>, b: Seq<char>)
    ensures
        encode_utf8(a + b) == encode_utf8(a) + encode_utf8(b),
    decreases a.len(),
{
    if a.len() == 0 {
        assert(a + b =~= b);
        assert(encode_utf8(a) + encode_utf8(b) =~= encode_utf8(b));
    } else {
        assert((a + b).drop_first() =~= a.drop_first() + b);
        lemma_encode_concat(a.drop_first(), b);
        assert(encode_utf8(a + b) =~= encode_utf8(a) + encode_utf8(b));
    }
}

/// An ASCII character is encoded as the one byte of its code.
pub proof fn lemma_encode_ascii(c: char)
    requires
        c as u32 <= 0x7f,
    ensures
        encode_utf8(seq![c]) == seq![c as u8],
{
    let code: u32 = c as u32;
    assert(code as u8 == leading_byte_width_1(code)) by (bit_vector)
        requires
            code <= 0x7f,
    ;
    reveal_with_fuel(encode_utf8, 2);
    assert(encode_utf8(seq![c]) =~= seq![c as u8]);
}

/// A text that holds an ASCII character holds that character's byte in its
/// encoding.
proof fn lemma_ascii_char_has_byte(chars: Seq<char>, at: int)
    requires
        0 <= at < chars.len(),
        chars[at] as u32 <= 0x7f,
    ensures
        exists|k: int|
            0 <= k < encode_utf8(chars).len() && #[trigger] encode_utf8(chars)[k] == chars[at] as u8,
{
    let c = chars[at];
    let before = chars.take(at);
    let after = chars.skip(at + 1);
    assert(chars =~= before + seq![c] + after);
    lemma_encode_concat(before + seq![c], after);
    lemma_encode_concat(before, seq![c]);
    lemma_encode_ascii(c);
    let k: int = encode_utf8(before).len() as int;
    assert(encode_utf8(chars)[k] == c as u8);
}

/// A text that ends with an ASCII character has that character's byte as the
/// last byte of its encoding.
proof fn lemma_ascii_char_at_end(chars: Seq<char>)
    requires
        chars.len() > 0,
        chars.last() as u32 <= 0x7f,
    ensures
        encode_utf8(chars).len() > 0,
        encode_utf8(chars).last() == chars.last() as u8,
{
    assert(chars =~= chars.drop_last() + seq![chars.last()]);
    lemma_encode_concat(chars.drop_last(), seq![chars.last()]);
    lemma_encode_ascii(chars.last());
}

/// A text whose encoding begins with an ASCII byte begins with the character
/// of that code.
proof fn lemma_ascii_byte_at_start(chars: Seq<char>, byte: u8)
    requires
        encode_utf8(chars).len() > 0,
        encode_utf8(chars)[0] == byte,
        byte <= 0x7f,
    ensures
        chars.len() > 0,
        chars[0] as u32 == byte as u32,
{
    let bytes = encode_utf8(chars);
    assert(chars.len() > 0);
    encode_utf8_first_scalar(chars);
    assert((byte & 0x7F) as u32 == byte as u32) by (bit_vector)
        requires
            byte <= 0x7f,
    ;
    assert(decode_first_scalar(bytes) == byte as u32);
}

/// A text whose encoding is one ASCII byte is the one character of that code.
proof fn lemma_single_ascii_byte(chars: Seq<char>, byte: u8)
    requires
        encode_utf8(chars) == seq![byte],
        byte <= 0x7f,
    ensures
        chars == seq![byte as char],
{
    let bytes = encode_utf8(chars);
    lemma_ascii_byte_at_start(chars, byte);
    char_u32_cast(chars[0], byte as u32);
    encode_utf8_valid_utf8(chars);
    encode_utf8_decode_utf8(chars);
    assert(pop_first_scalar(bytes) =~= Seq::<u8>::empty());
    reveal_with_fuel(decode_utf8, 2);
    assert(chars =~= seq![byte as char]);
}

/// Splits `s` at the first occurrence of the ASCII character with code
/// `delimiter`, into the text before it and the text behind it. The result is
/// `None` where `s` does not hold that character.
pub(crate) fn split_at_ascii(s: &str, delimiter: u8) -> (parts: Option<(&str, &str)>)
    requires
        delimiter <= 0x7f,
    ensures
        match parts {
            Some((head, tail)) => {
                &&& first_index_of(s@, delimiter as char) == Some(head@.len() as int)
                &&& head@ == s@.take(head@.len() as int)
                &&& tail@ == s@.skip(head@.len() as int + 1)
            },
            None => first_index_of(s@, delimiter as char) is None,
        },
{
    let bytes = s.as_bytes();
    let total: usize = bytes.len();
    let mut at: usize = 0;
    while at < total
        invariant
            at <= total,
            total == bytes@.len(),
            bytes@ == encode_utf8(s@),
            delimiter <= 0x7f,
            forall|j: int| 0 <= j < at ==> bytes@[j] != delimiter,
        decreases total - at,
    {
        if bytes[at] == delimiter {
            proof {
                encode_utf8_valid_utf8(s@);
                is_char_boundary_iff_not_is_continuation_byte(bytes@, at as int);
            }
            let (head, more) = s.split_at(at);
            proof {
                encode_utf8_decode_utf8(head@);
                encode_utf8_decode_utf8(more@);
                encode_utf8_decode_utf8(s@);
                decode_utf8_split(bytes@, at as int);
                assert(s@ =~= head@ + more@);
                lemma_ascii_byte_at_start(more@, delimiter);
                char_u32_cast(more@[0], delimiter as u32);
                encode_utf8_valid_utf8(more@);
                assert(is_char_boundary(more.spec_bytes(), 1)) by {
                    reveal_with_fuel(is_char_boundary, 2);
                }
            }
            let (found, tail) = more.split_at(1);
            proof {
                encode_utf8_decode_utf8(found@);
                encode_utf8_decode_utf8(tail@);
                decode_utf8_split(more.spec_bytes(), 1);
                assert(more@ =~= found@ + tail@);
                assert(encode_utf8(found@) =~= seq![delimiter]);
                lemma_single_ascii_byte(found@, delimiter);
                assert(tail@ =~= s@.skip(head@.len() as int + 1));
                assert(head@ =~= s@.take(head@.len() as int));
                assert forall|j: int| 0 <= j < head@.len() implies s@[j] != delimiter as char by {
                    if head@[j] == delimiter as char {
                        lemma_ascii_char_has_byte(head@, j);
                    }
                }
                lemma_first_index_of_unique(s@, delimiter as char, head@.len() as int);
            }
            return Some((head, tail));
        }
        at += 1;
    }
    proof {
        assert forall|j: int| 0 <= j < s@.len() implies s@[j] != delimiter as char by {
            if s@[j] == delimiter as char {
                lemma_ascii_char_has_byte(s@, j);
            }
        }
        lemma_first_index_of_absent(s@, delimiter as char);
    }
    None
}

/// `s` without its last character, where that is the ASCII character with
/// code `ending`; else `s` as it is.
pub(crate) fn strip_final_ascii(s: &str, ending: u8) -> (stripped: &str)
    requires
        ending <= 0x7f,
    ensures
        stripped@ == if s@.len() > 0 && s@.last() == ending as char {
            s@.drop_last()
        } else {
            s@
        },
{
    let bytes = s.as_bytes();
    let total: usize = bytes.len();
    if total > 0 && bytes[total - 1] == ending {
        proof {
            encode_utf8_valid_utf8(s@);
            is_char_boundary_iff_not_is_continuation_byte(bytes@, total - 1);
        }
        let (head, last) = s.split_at(total - 1);
        proof {
            encode_utf8_decode_utf8(head@);
            encode_utf8_decode_utf8(last@);
            encode_utf8_decode_utf8(s@);
            decode_utf8_split(bytes@, total - 1);
            assert(s@ =~= head@ + last@);
            assert(encode_utf8(last@) =~= seq![ending]);
            lemma_single_ascii_byte(last@, ending);
            assert(head@ =~= s@.drop_last());
        }
        head
    } else {
        proof {
            if s@.len() > 0 && s@.last() == ending as char {
                lemma_ascii_char_at_end(s@);
            }
        }
        s
    }
}

/// Splits `s` at the last occurrence of the ASCII character with code
/// `delimiter`, into the text before it and the text behind it. The result is
/// `None` where `s` does not hold that character.
pub(crate) fn split_at_last_ascii(s: &str, delimiter: u8) -> (parts: Option<(&str, &str)>)
    requires
        delimiter <= 0x7f,
    ensures
        match parts {
            Some((head, tail)) => {
                &&& last_index_of(s@, delimiter as char) == Some(head@.len() as int)
                &&& head@ == s@.take(head@.len() as int)
                &&& tail@ == s@.skip(head@.len() as int + 1)
            },
            None => last_index_of(s@, delimiter as char) is None,
        },
{
    let bytes = s.as_bytes();
    let total: usize = bytes.len();
    let mut at: usize = total;
    while at > 0
        invariant
            at <= total,
            total == bytes@.len(),
            bytes@ == encode_utf8(s@),
            delimiter <= 0x7f,
            forall|j: int| at <= j < total ==> bytes@[j] != delimiter,
        decreases at,
    {
        at -= 1;
        if bytes[at] == delimiter {
            proof {
                encode_utf8_valid_utf8(s@);
                is_char_boundary_iff_not_is_continuation_byte(bytes@, at as int);
            }
            let (head, more) = s.split_at(at);
            proof {
                encode_utf8_decode_utf8(head@);
                encode_utf8_decode_utf8(more@);
                encode_utf8_decode_utf8(s@);
                decode_utf8_split(bytes@, at as int);
                assert(s@ =~= head@ + more@);
                lemma_ascii_byte_at_start(more@, delimiter);
                char_u32_cast(more@[0], delimiter as u32);
                encode_utf8_valid_utf8(more@);
                assert(is_char_boundary(more.spec_bytes(), 1)) by {
                    reveal_with_fuel(is_char_boundary, 2);
                }
            }
            let (found, tail) = more.split_at(1);
            proof {
                encode_utf8_decode_utf8(found@);
                encode_utf8_decode_utf8(tail@);
                decode_utf8_split(more.spec_bytes(), 1);
                assert(more@ =~= found@ + tail@);
                assert(encode_utf8(found@) =~= seq![delimiter]);
                lemma_single_ascii_byte(found@, delimiter);
                assert(tail@ =~= s@.skip(head@.len() as int + 1));
                assert(head@ =~= s@.take(head@.len() as int));
                assert(encode_utf8(tail@) =~= bytes@.subrange(at + 1, total as int));
                assert forall|j: int| head@.len() < j < s@.len() implies s@[j] != delimiter as char by {
                    let i: int = j - head@.len() - 1;
                    assert(s@[j] == tail@[i]);
                    if tail@[i] == delimiter as char {
                        lemma_ascii_char_has_byte(tail@, i);
                    }
                }
                lemma_last_index_of_unique(s@, delimiter as char, head@.len() as int);
            }
            return Some((head, tail));
        }
    }
    proof {
        assert forall|j: int| 0 <= j < s@.len() implies s@[j] != delimiter as char by {
            if s@[j] == delimiter as char {
                lemma_ascii_char_has_byte(s@, j);
            }
        }
        assert(!s@.contains(delimiter as char));
    }
    None
}

/// The longest prefix of `s` that is made of whole characters and takes at
/// most `budget` bytes.
pub(crate) fn prefix_within(s: &str, budget: usize) -> (prefix: &str)
    ensures
        prefix@ == s@.take(chars_within(s@, budget as int)),
        byte_len(prefix@) <= budget,
{
    let total: usize = s.as_bytes().len();
    proof {
        encode_utf8_valid_utf8(s@);
        lemma_chars_within(s@, budget as int);
    }
    if total <= budget {
        proof {
            lemma_chars_within_whole(s@, budget as int);
            assert(s@.take(s@.len() as int) =~= s@);
        }
        return s;
    }
    let mut end: usize = budget;
    while !s.is_char_boundary(end)
        invariant
            end <= budget < total,
            total == byte_len(s@),
            valid_utf8(encode_utf8(s@)),
            forall|j: int| end < j <= budget ==> !is_char_boundary(encode_utf8(s@), j),
        decreases end,
    {
        end -= 1;
    }
    let (prefix, rest) = s.split_at(end);
    proof {
        let bytes = encode_utf8(s@);
        encode_utf8_decode_utf8(prefix@);
        encode_utf8_decode_utf8(rest@);
        encode_utf8_decode_utf8(s@);
        decode_utf8_split(bytes, end as int);
        assert(s@ =~= prefix@ + rest@);
        let covered: int = prefix@.len() as int;
        assert(s@.take(covered) =~= prefix@);
        if covered < s@.len() {
            lemma_prefix_is_boundary(s@, covered + 1);
            lemma_byte_len_of_prefixes(s@, covered, covered + 1);
        }
        lemma_chars_within_unique(s@, budget as int, covered);
    }
    prefix
}

} // verus!
