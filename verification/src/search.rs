//! Searching in sequences of characters: the first occurrence of a pattern,
//! the last occurrence of a character, and how often a character occurs.

use vstd::prelude::*;

verus! {

/// `needle` stands in `hay` at position `at`.
pub open spec fn occurs_at(hay: Seq<char>, needle: Seq<char>, at: int) -> bool {
    &&& 0 <= at
    &&& at + needle.len() <= hay.len()
    &&& hay.subrange(at, at + needle.len()) == needle
}

/// `needle` stands in `hay` at position `at`, and at no position before it.
pub open spec fn is_first_occurrence(hay: Seq<char>, needle: Seq<char>, at: int) -> bool {
    &&& occurs_at(hay, needle, at)
    &&& forall|j: int| 0 <= j < at ==> !occurs_at(hay, needle, j)
}

/// The position of the first occurrence of `needle` in `hay`, if there is one.
pub open spec fn first_occurrence(hay: Seq<char>, needle: Seq<char>) -> Option<int> {
    if exists|at: int| occurs_at(hay, needle, at) {
        Some(choose|at: int| is_first_occurrence(hay, needle, at))
    } else {
        None
    }
}

/// The position of the first `c` in `s`, if there is one.
pub open spec fn first_index_of(s: Seq<char>, c: char) -> Option<int> {
    first_occurrence(s, seq![c])
}

/// `s` holds `c` at position `at`, and at no position after it.
pub open spec fn is_last_index_of(s: Seq<char>, c: char, at: int) -> bool {
    &&& 0 <= at < s.len()
    &&& s[at] == c
    &&& forall|j: int| at < j < s.len() ==> s[j] != c
}

/// The position of the last `c` in `s`, if there is one.
pub open spec fn last_index_of(s: Seq<char>, c: char) -> Option<int> {
    if s.contains(c) {
        Some(choose|at: int| is_last_index_of(s, c, at))
    } else {
        None
    }
}

/// How many times `c` occurs in `s`.
pub open spec fn count_of(s: Seq<char>, c: char) -> nat
    decreases s.len(),
{
    if s.len() == 0 {
        0
    } else {
        count_of(s.drop_last(), c) + if s.last() == c {
            1nat
        } else {
            0nat
        }
    }
}

/// Below any occurrence there is a first one.
proof fn lemma_has_first_occurrence(hay: Seq<char>, needle: Seq<char>, at: int)
    requires
        occurs_at(hay, needle, at),
    ensures
        exists|first: int| is_first_occurrence(hay, needle, first) && first <= at,
    decreases at,
{
    if exists|j: int| 0 <= j < at && occurs_at(hay, needle, j) {
        let j: int = choose|j: int| 0 <= j < at && occurs_at(hay, needle, j);
        lemma_has_first_occurrence(hay, needle, j);
    } else {
        assert(is_first_occurrence(hay, needle, at));
    }
}

/// `first_occurrence` is what its name says: where it gives a position, the
/// needle stands there and nowhere before; where it gives none, the needle
/// stands nowhere.
pub proof fn lemma_first_occurrence(hay: Seq<char>, needle: Seq<char>)
    ensures
        match first_occurrence(hay, needle) {
            Some(at) => is_first_occurrence(hay, needle, at),
            None => forall|j: int| !occurs_at(hay, needle, j),
        },
{
    if exists|at: int| occurs_at(hay, needle, at) {
        let at: int = choose|at: int| occurs_at(hay, needle, at);
        lemma_has_first_occurrence(hay, needle, at);
    }
}

/// A position that is a first occurrence is the one `first_occurrence` gives.
pub proof fn lemma_first_occurrence_unique(hay: Seq<char>, needle: Seq<char>, at: int)
    requires
        is_first_occurrence(hay, needle, at),
    ensures
        first_occurrence(hay, needle) == Some(at),
{
    let chosen: int = choose|k: int| is_first_occurrence(hay, needle, k);
    assert(is_first_occurrence(hay, needle, chosen));
    if chosen < at {
        assert(!occurs_at(hay, needle, chosen));
    }
    if at < chosen {
        assert(!occurs_at(hay, needle, at));
    }
}

/// A single character occurs at a position exactly when the sequence holds it there.
pub proof fn lemma_occurs_at_char(s: Seq<char>, c: char, at: int)
    ensures
        occurs_at(s, seq![c], at) <==> (0 <= at < s.len() && s[at] == c),
{
    if 0 <= at < s.len() {
        if s[at] == c {
            assert(s.subrange(at, at + 1) =~= seq![c]);
        } else {
            assert(s.subrange(at, at + 1)[0] == s[at]);
        }
    }
}

/// `first_index_of` gives the least position that holds the character, and
/// none exactly when the sequence does not hold it.
pub proof fn lemma_first_index_of(s: Seq<char>, c: char)
    ensures
        match first_index_of(s, c) {
            Some(at) => 0 <= at < s.len() && s[at] == c && forall|j: int|
                0 <= j < at ==> s[j] != c,
            None => forall|j: int| 0 <= j < s.len() ==> s[j] != c,
        },
{
    lemma_first_occurrence(s, seq![c]);
    match first_index_of(s, c) {
        Some(at) => {
            lemma_occurs_at_char(s, c, at);
            assert forall|j: int| 0 <= j < at implies s[j] != c by {
                lemma_occurs_at_char(s, c, j);
            }
        },
        None => {
            assert forall|j: int| 0 <= j < s.len() implies s[j] != c by {
                lemma_occurs_at_char(s, c, j);
            }
        },
    }
}

/// A position that holds the character, with none before it that does, is the
/// one `first_index_of` gives.
pub proof fn lemma_first_index_of_unique(s: Seq<char>, c: char, at: int)
    requires
        0 <= at < s.len(),
        s[at] == c,
        forall|j: int| 0 <= j < at ==> s[j] != c,
    ensures
        first_index_of(s, c) == Some(at),
{
    lemma_occurs_at_char(s, c, at);
    assert forall|j: int| 0 <= j < at implies !occurs_at(s, seq![c], j) by {
        lemma_occurs_at_char(s, c, j);
    }
    lemma_first_occurrence_unique(s, seq![c], at);
}

/// A sequence that does not hold the character has no first position of it.
pub proof fn lemma_first_index_of_absent(s: Seq<char>, c: char)
    requires
        forall|j: int| 0 <= j < s.len() ==> s[j] != c,
    ensures
        first_index_of(s, c) is None,
{
    assert forall|j: int| !occurs_at(s, seq![c], j) by {
        lemma_occurs_at_char(s, c, j);
    }
}

/// Behind any position that holds the character there is a last one.
proof fn lemma_has_last_index(s: Seq<char>, c: char, at: int)
    requires
        0 <= at < s.len(),
        s[at] == c,
    ensures
        exists|last: int| is_last_index_of(s, c, last) && at <= last,
    decreases s.len() - at,
{
    if exists|j: int| at < j < s.len() && s[j] == c {
        let j: int = choose|j: int| at < j < s.len() && s[j] == c;
        lemma_has_last_index(s, c, j);
    } else {
        assert(is_last_index_of(s, c, at));
    }
}

/// `last_index_of` gives the greatest position that holds the character, and
/// none exactly when the sequence does not hold it.
pub proof fn lemma_last_index_of(s: Seq<char>, c: char)
    ensures
        match last_index_of(s, c) {
            Some(at) => is_last_index_of(s, c, at),
            None => forall|j: int| 0 <= j < s.len() ==> s[j] != c,
        },
{
    if s.contains(c) {
        let at: int = choose|at: int| 0 <= at < s.len() && s[at] == c;
        lemma_has_last_index(s, c, at);
    }
}

/// A position that is a last index is the one `last_index_of` gives.
pub proof fn lemma_last_index_of_unique(s: Seq<char>, c: char, at: int)
    requires
        is_last_index_of(s, c, at),
    ensures
        last_index_of(s, c) == Some(at),
{
    assert(s.contains(c));
    let chosen: int = choose|k: int| is_last_index_of(s, c, k);
    assert(is_last_index_of(s, c, chosen));
}

/// A sequence holds at most as many of a character as it has positions.
pub proof fn lemma_count_of_bound(s: Seq<char>, c: char)
    ensures
        count_of(s, c) <= s.len(),
    decreases s.len(),
{
    if s.len() > 0 {
        lemma_count_of_bound(s.drop_last(), c);
    }
}

/// A sequence without the character counts none of it.
pub proof fn lemma_count_of_absent(s: Seq<char>, c: char)
    requires
        forall|j: int| 0 <= j < s.len() ==> s[j] != c,
    ensures
        count_of(s, c) == 0,
    decreases s.len(),
{
    if s.len() > 0 {
        lemma_count_of_absent(s.drop_last(), c);
    }
}

/// Counting distributes over concatenation.
pub proof fn lemma_count_of_concat(a: Seq<char>, b: Seq<char>, c: char)
    ensures
        count_of(a + b, c) == count_of(a, c) + count_of(b, c),
    decreases b.len(),
{
    if b.len() == 0 {
        assert(a + b =~= a);
    } else {
        assert((a + b).drop_last() =~= a + b.drop_last());
        lemma_count_of_concat(a, b.drop_last(), c);
    }
}

/// Whether `needle` stands in `hay` at position `at`.
fn matches_at(hay: &[char], needle: &[char], at: usize) -> (found: bool)
    requires
        at + needle@.len() <= hay@.len(),
    ensures
        found == occurs_at(hay@, needle@, at as int),
{
    let width: usize = needle.len();
    let total: usize = hay.len();
    let mut k: usize = 0;
    while k < width
        invariant
            width == needle@.len(),
            total == hay@.len(),
            at + width <= total,
            k <= width,
            forall|j: int| 0 <= j < k ==> hay@[at + j] == needle@[j],
        decreases width - k,
    {
        if hay[at + k] != needle[k] {
            assert(hay@.subrange(at as int, at + width)[k as int] == hay@[at + k]);
            return false;
        }
        k += 1;
    }
    assert(hay@.subrange(at as int, at + width) =~= needle@);
    true
}

/// Finds the first occurrence of `needle` in `hay`.
pub fn find(hay: &[char], needle: &[char]) -> (found: Option<usize>)
    ensures
        match found {
            Some(at) => first_occurrence(hay@, needle@) == Some(at as int),
            None => first_occurrence(hay@, needle@) is None,
        },
{
    let width: usize = needle.len();
    let total: usize = hay.len();
    if width > total {
        return None;
    }
    if width == 0 {
        assert(hay@.subrange(0, 0) =~= needle@);
        proof {
            lemma_first_occurrence_unique(hay@, needle@, 0);
        }
        return Some(0);
    }
    let stop: usize = total - width;
    let mut at: usize = 0;
    while at <= stop
        invariant
            width == needle@.len(),
            total == hay@.len(),
            0 < width <= total,
            stop == total - width,
            at <= stop + 1,
            forall|j: int| 0 <= j < at ==> !occurs_at(hay@, needle@, j),
        decreases stop + 1 - at,
    {
        if matches_at(hay, needle, at) {
            proof {
                lemma_first_occurrence_unique(hay@, needle@, at as int);
            }
            return Some(at);
        }
        at += 1;
    }
    None
}

/// Finds the first `c` in `s`.
pub fn find_char(s: &[char], c: char) -> (found: Option<usize>)
    ensures
        match found {
            Some(at) => first_index_of(s@, c) == Some(at as int),
            None => first_index_of(s@, c) is None,
        },
{
    let mut at: usize = 0;
    while at < s.len()
        invariant
            at <= s@.len(),
            forall|j: int| 0 <= j < at ==> s@[j] != c,
        decreases s@.len() - at,
    {
        if s[at] == c {
            proof {
                lemma_first_index_of_unique(s@, c, at as int);
            }
            return Some(at);
        }
        at += 1;
    }
    proof {
        lemma_first_index_of_absent(s@, c);
    }
    None
}

} // verus!
