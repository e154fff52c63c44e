//! Pandoc citations: which characters make a key, and where a text holds one.

use crate::text::{
    ascii_alphanumeric, byte_offset, byte_ranges, byte_span, byte_spans, find_run_end,
    find_run_start, index_at, is_ascii_alphanumeric, is_boundary, is_whitespace, lemma_run_end,
    lemma_run_start, pairs, run_end, run_start, spans, string_of, trim_end_by, trimmed_end,
    white_space, CharClass, Text,
};
use std::ops::Range;
use vstd::prelude::*;

verus! {

/// A character that may stand in a citation key.
pub open spec fn citation_key_char(c: char) -> bool {
    ||| ascii_alphanumeric(c)
    ||| c == '_'
    ||| c == ':'
    ||| c == '.'
    ||| c == '#'
    ||| c == '$'
    ||| c == '%'
    ||| c == '&'
    ||| c == '-'
    ||| c == '+'
    ||| c == '?'
    ||| c == '<'
    ||| c == '>'
    ||| c == '~'
    ||| c == '/'
}

/// Whether a character may stand in a citation key.
pub fn is_citation_key_char(character: char) -> (result: bool)
    ensures
        result == citation_key_char(character),
{
    is_ascii_alphanumeric(character) || matches!(
        character,
        '_' | ':' | '.' | '#' | '$' | '%' | '&' | '-' | '+' | '?' | '<' | '>' | '~' | '/'
    )
}

/// What may stand before the `@` of a citation: nothing, white space, a group separator or `[`.
pub open spec fn opens_citation(before_at: Option<char>) -> bool {
    match before_at {
        None => true,
        Some(c) => white_space(c) || c == ';' || c == '-' || c == '[',
    }
}

/// Whether a citation may start with an `@` behind this character.
pub fn citation_boundary(before_at: Option<char>) -> (result: bool)
    ensures
        result == opens_citation(before_at),
{
    match before_at {
        None => true,
        Some(character) => is_whitespace(character) || matches!(character, ';' | '-' | '['),
    }
}

/// The character in front of index `i`.
pub open spec fn char_before(s: Seq<char>, i: int) -> Option<char> {
    if 0 < i <= s.len() {
        Some(s[i - 1])
    } else {
        None
    }
}

/// The most key characters that may lie between the `@` and the place a key is looked up from.
pub open spec fn max_walk() -> int {
    129
}

/// The most characters of a citation, its `@` counted, that a lookup considers.
pub open spec fn max_citation() -> int {
    257
}

/// The index of the `@` whose key the index `i` stands in or right behind: only key characters,
/// and no more than [`max_walk`] of them, lie between the two, and a citation boundary stands
/// before the `@`.
pub open spec fn citation_at(s: Seq<char>, i: int) -> Option<int> {
    let start = run_start(s, CharClass::CitationKey, i);
    if start > 0 && s[start - 1] == '@' && i - start <= max_walk() && opens_citation(
        char_before(s, start - 1),
    ) {
        Some(start - 1)
    } else {
        None
    }
}

fn find_citation(text: &Text, i: usize) -> (result: Option<usize>)
    requires
        text.wf(),
        i <= text@.len(),
    ensures
        match result {
            Some(at) => citation_at(text@, i as int) == Some(at as int),
            None => citation_at(text@, i as int) is None,
        },
        result matches Some(at) ==> at < i,
{
    let start = find_run_start(text.all(), CharClass::CitationKey, i);
    if start == 0 || text.char_at(start - 1) != '@' || i - start > 129 {
        return None;
    }
    let before = if start > 1 {
        Some(text.char_at(start - 2))
    } else {
        None
    };
    if citation_boundary(before) {
        Some(start - 1)
    } else {
        None
    }
}

/// Where the key being typed starts (just behind the `@`), if the byte offset `offset` sits in a
/// citation context: an `@` that a citation boundary precedes, with nothing but key characters
/// between it and the offset.
pub fn citation_key_start(text: &str, offset: usize) -> (result: Option<usize>)
    requires
        is_boundary(text@, offset as int),
    ensures
        match citation_at(text@, index_at(text@, offset as int)) {
            Some(at) => result == Some(byte_offset(text@, at + 1) as usize) && byte_offset(
                text@,
                at + 1,
            ) <= offset,
            None => result is None,
        },
{
    let text = Text::new(text);
    let i = match text.index_of(offset) {
        Some(i) => i,
        None => {
            return None;
        },
    };
    match find_citation(&text, i) {
        Some(at) => {
            proof {
                crate::text::lemma_byte_offset_grows(text@, at + 1, i as int);
            }
            Some(text.offset(at + 1))
        },
        None => None,
    }
}

/// The key behind the `@` at `at`, when only the characters before `end` count: punctuation is
/// valid inside a key, not at its end.
pub open spec fn key_text(s: Seq<char>, at: int, end: int) -> Seq<char> {
    trim_end_by(s.subrange(at + 1, end), CharClass::KeyPunctuation)
}

/// A key is not empty and starts with a letter, a digit or `_`.
pub open spec fn is_key(key: Seq<char>) -> bool {
    key.len() > 0 && !CharClass::KeyPunctuation.holds(key[0])
}

/// The smaller of two numbers.
pub open spec fn smaller(a: int, b: int) -> int {
    if a < b {
        a
    } else {
        b
    }
}

/// The citation that the index `i` stands in or at the end of, as an index range with its `@`.
pub open spec fn citation_around(s: Seq<char>, i: int) -> Option<(int, int)> {
    match citation_at(s, i) {
        Some(at) => {
            let run = smaller(run_end(s, CharClass::CitationKey, i), at + max_citation());
            let key = key_text(s, at, run);
            if is_key(key) && i <= at + 1 + key.len() {
                Some((at, at + 1 + key.len()))
            } else {
                None
            }
        },
        None => None,
    }
}

fn key_length(text: &[char], at: usize, end: usize) -> (result: Option<usize>)
    requires
        at < end <= text@.len(),
    ensures
        match result {
            Some(length) => is_key(key_text(text@, at as int, end as int)) && length == key_text(
                text@,
                at as int,
                end as int,
            ).len() && at + 1 + length <= end,
            None => !is_key(key_text(text@, at as int, end as int)),
        },
{
    let part = &text[at + 1..end];
    let key = trimmed_end(part, CharClass::KeyPunctuation);
    proof {
        lemma_run_start(part@, CharClass::KeyPunctuation, part@.len() as int);
    }
    if key.len() == 0 || CharClass::KeyPunctuation.contains(key[0]) {
        None
    } else {
        Some(key.len())
    }
}

/// The citation key that holds the byte offset `offset`, if any: its full byte range with the
/// `@`, and the key without it. Bracketed and bare citations look the same from here: an `@`
/// behind a boundary, with key characters behind it.
pub fn citation_key_at(text: &str, offset: usize) -> (result: Option<(Range<usize>, String)>)
    requires
        is_boundary(text@, offset as int),
    ensures
        match citation_around(text@, index_at(text@, offset as int)) {
            Some((start, end)) => result is Some && {
                let (range, key) = result->0;
                &&& (range.start as int, range.end as int) == byte_span(text@, (start, end))
                &&& key@ == text@.subrange(start + 1, end)
            },
            None => result is None,
        },
{
    let text = Text::new(text);
    let i = match text.index_of(offset) {
        Some(i) => i,
        None => {
            return None;
        },
    };
    let at = match find_citation(&text, i) {
        Some(at) => at,
        None => {
            return None;
        },
    };
    let run = find_run_end(text.all(), CharClass::CitationKey, i);
    let end: usize = if run - at < 257 {
        run
    } else {
        at + 257
    };
    proof {
        lemma_run_start(text@, CharClass::CitationKey, i as int);
    }
    match key_length(text.all(), at, end) {
        Some(length) => {
            if i > at + 1 + length {
                return None;
            }
            let last = at + 1 + length;
            let range = text.offset(at)..text.offset(last);
            Some((range, string_of(text.part(at + 1, last))))
        },
        None => None,
    }
}

/// Whether a key of a citation group may start with the `@` at `at`: at the group's start, or
/// behind white space, `;` or `-`.
pub open spec fn opens_key(s: Seq<char>, at: int) -> bool {
    match char_before(s, at) {
        None => true,
        Some(c) => white_space(c) || c == ';' || c == '-',
    }
}

/// Whether a key starts with the character at `at`, and where it ends.
pub open spec fn key_at(s: Seq<char>, at: int) -> Option<int> {
    let key = key_text(s, at, run_end(s, CharClass::CitationKey, at + 1));
    if s[at] == '@' && opens_key(s, at) && is_key(key) {
        Some(at + 1 + key.len())
    } else {
        None
    }
}

/// The keys of a citation group from `i` on, as index ranges with their `@`.
pub open spec fn keys_from(s: Seq<char>, i: int) -> Seq<(int, int)>
    decreases s.len() - i,
{
    if i < 0 || i >= s.len() {
        Seq::empty()
    } else {
        match key_at(s, i) {
            Some(end) => seq![(i, end)] + keys_from(s, i + 1),
            None => keys_from(s, i + 1),
        }
    }
}

/// The keys of a citation group's inner text, as index ranges with their `@`.
pub fn key_ranges(inner: &[char]) -> (keys: Vec<(usize, usize)>)
    ensures
        pairs(keys@) == keys_from(inner@, 0),
        forall|k: int|
            0 <= k < keys@.len() ==> (#[trigger] keys@[k]).0 <= keys@[k].1 <= inner@.len(),
{
    let ghost s = inner@;
    let mut keys: Vec<(usize, usize)> = Vec::new();
    let mut i: usize = 0;
    while i < inner.len()
        invariant
            s == inner@,
            i <= s.len(),
            keys_from(s, 0) == pairs(keys@) + keys_from(s, i as int),
            forall|k: int|
                0 <= k < keys@.len() ==> (#[trigger] keys@[k]).0 <= keys@[k].1 <= s.len(),
        decreases s.len() - i,
    {
        let ghost before = pairs(keys@);
        if inner[i] == '@' {
            let boundary = i == 0 || is_whitespace(inner[i - 1]) || inner[i - 1] == ';'
                || inner[i - 1] == '-';
            if boundary {
                let end = find_run_end(inner, CharClass::CitationKey, i + 1);
                match key_length(inner, i, end) {
                    Some(length) => {
                        keys.push((i, i + 1 + length));
                        assert(pairs(keys@) =~= before.push((i as int, i + 1 + length)));
                    },
                    None => {},
                }
            }
        }
        assert(pairs(keys@) + keys_from(s, i + 1) =~= before + keys_from(s, i as int));
        i += 1;
    }
    assert(pairs(keys@) =~= keys_from(s, 0));
    keys
}

/// The byte ranges, `@` included, of the valid Pandoc citation keys in a citation group's inner
/// text. An `@` only starts a key at an item boundary, so that an e-mail address in brackets does
/// not read as a citation.
pub fn citation_keys(inner: &str) -> (result: Vec<Range<usize>>)
    ensures
        spans(result@) == byte_spans(inner@, keys_from(inner@, 0)),
{
    let text = Text::new(inner);
    let keys = key_ranges(text.all());
    byte_ranges(&text, &keys)
}

proof fn lemma_run_from_mark(s: Seq<char>, at: int, i: int)
    requires
        0 <= at < i <= s.len(),
        s[at] == '@',
        forall|k: int| at < k < i ==> citation_key_char(#[trigger] s[k]),
    ensures
        run_start(s, CharClass::CitationKey, i) == at + 1,
    decreases i - at,
{
    if i > at + 1 {
        assert(citation_key_char(s[i - 1]));
        lemma_run_from_mark(s, at, i - 1);
    }
}

proof fn lemma_run_goes_on(s: Seq<char>, from: int, i: int)
    requires
        0 <= from <= i <= run_end(s, CharClass::CitationKey, from),
    ensures
        run_end(s, CharClass::CitationKey, i) == run_end(s, CharClass::CitationKey, from),
    decreases i - from,
{
    if from < i {
        lemma_run_goes_on(s, from + 1, i);
    }
}

proof fn lemma_run_starts_at(s: Seq<char>, class: CharClass, start: int, i: int)
    requires
        0 <= start <= i <= s.len(),
        start > 0 ==> !class.holds(s[start - 1]),
        forall|k: int| start <= k < i ==> class.holds(#[trigger] s[k]),
    ensures
        run_start(s, class, i) == start,
    decreases i - start,
{
    if start < i {
        assert(class.holds(s[i - 1]));
        lemma_run_starts_at(s, class, start, i - 1);
    }
}

/// Where a citation may start, any offset within its key, the end included, finds it.
proof fn lemma_offset_in_a_citation(s: Seq<char>, at: int, i: int)
    requires
        0 <= at < s.len(),
        s[at] == '@',
        opens_citation(char_before(s, at)),
        ({
            let key = key_text(s, at, run_end(s, CharClass::CitationKey, at + 1));
            &&& is_key(key)
            &&& at < i <= at + 1 + key.len() <= at + max_citation()
        }),
        i - (at + 1) <= max_walk(),
    ensures
        ({
            let key = key_text(s, at, run_end(s, CharClass::CitationKey, at + 1));
            citation_around(s, i) == Some((at, at + 1 + key.len()))
        }),
{
    let class = CharClass::KeyPunctuation;
    let run = run_end(s, CharClass::CitationKey, at + 1);
    lemma_run_end(s, CharClass::CitationKey, at + 1);
    let part = s.subrange(at + 1, run);
    lemma_run_start(part, class, part.len() as int);
    lemma_run_from_mark(s, at, i);
    lemma_run_goes_on(s, at + 1, i);
    let length = run_start(part, class, part.len() as int);
    let read = s.subrange(at + 1, smaller(run, at + max_citation()));
    assert(forall|k: int| 0 <= k < read.len() ==> read[k] == #[trigger] part[k]);
    assert(!class.holds(read[length - 1])) by {
        assert(read[length - 1] == part[length - 1]);
    }
    assert forall|k: int| length <= k < read.len() implies class.holds(#[trigger] read[k]) by {
        assert(read[k] == part[k]);
    }
    lemma_run_starts_at(read, class, length, read.len() as int);
    assert(key_text(s, at, run) =~= read.take(length));
}

/// Any offset within a key of a citation group, its end included, finds that key, as far as a
/// lookup walks back and reads on.
pub proof fn law_any_offset_in_a_key_finds_it(s: Seq<char>, at: int, i: int)
    requires
        0 <= at < s.len(),
        key_at(s, at) is Some,
        at < i <= key_at(s, at)->0,
        i - (at + 1) <= max_walk(),
        key_at(s, at)->0 <= at + max_citation(),
    ensures
        citation_around(s, i) == Some((at, key_at(s, at)->0)),
{
    lemma_offset_in_a_citation(s, at, i);
}

/// Putting a bracket before and behind a text moves the ends of its runs by one.
proof fn lemma_run_end_in_brackets(inner: Seq<char>, i: int)
    requires
        0 <= i <= inner.len(),
    ensures
        run_end(seq!['['] + inner + seq![']'], CharClass::CitationKey, i + 1) == run_end(
            inner,
            CharClass::CitationKey,
            i,
        ) + 1,
    decreases inner.len() - i,
{
    let s = seq!['['] + inner + seq![']'];
    if i < inner.len() {
        assert(s[i + 1] == inner[i]);
        lemma_run_end_in_brackets(inner, i + 1);
    } else {
        assert(s[i + 1] == ']');
    }
}

/// Any offset within a key of a bracketed citation group, its end included, finds that key with the
/// text that the group lists it with, one character further on for the bracket that opens the
/// group, as far as a lookup walks back and reads on.
pub proof fn law_any_offset_in_a_bracketed_key_finds_it(inner: Seq<char>, at: int, i: int)
    requires
        0 <= at < inner.len(),
        key_at(inner, at) is Some,
        at + 1 < i <= key_at(inner, at)->0 + 1,
        i - (at + 2) <= max_walk(),
        key_at(inner, at)->0 <= at + max_citation(),
    ensures
        ({
            let s = seq!['['] + inner + seq![']'];
            let end = key_at(inner, at)->0;
            &&& citation_around(s, i) == Some((at + 1, end + 1))
            &&& s.subrange(at + 2, end + 1) == inner.subrange(at + 1, end)
        }),
{
    let s = seq!['['] + inner + seq![']'];
    let run = run_end(inner, CharClass::CitationKey, at + 1);
    lemma_run_end(inner, CharClass::CitationKey, at + 1);
    lemma_run_end_in_brackets(inner, at + 1);
    assert(s.subrange(at + 2, run + 1) =~= inner.subrange(at + 1, run));
    let part = inner.subrange(at + 1, run);
    lemma_run_start(part, CharClass::KeyPunctuation, part.len() as int);
    assert(s[at + 1] == inner[at]);
    if at > 0 {
        assert(s[at] == inner[at - 1]);
    }
    lemma_offset_in_a_citation(s, at + 1, i);
    let end = key_at(inner, at)->0;
    assert(s.subrange(at + 2, end + 1) =~= inner.subrange(at + 1, end));
}

/// A citation that is found starts with its `@`, holds the place it was looked up from, and has a
/// key of key characters only, which neither starts nor ends with punctuation.
pub proof fn law_a_found_citation_is_one(s: Seq<char>, i: int)
    requires
        0 <= i <= s.len(),
        citation_around(s, i) is Some,
    ensures
        ({
            let (start, end) = citation_around(s, i)->0;
            &&& 0 <= start < i <= end <= s.len()
            &&& s[start] == '@'
            &&& start + 1 < end
            &&& forall|k: int| start < k < end ==> citation_key_char(#[trigger] s[k])
            &&& !CharClass::KeyPunctuation.holds(s[start + 1])
            &&& !CharClass::KeyPunctuation.holds(s[end - 1])
        }),
{
    let (start, end) = citation_around(s, i)->0;
    lemma_run_start(s, CharClass::CitationKey, i);
    lemma_run_end(s, CharClass::CitationKey, i);
    let run = smaller(run_end(s, CharClass::CitationKey, i), start + max_citation());
    let part = s.subrange(start + 1, run);
    lemma_run_start(part, CharClass::KeyPunctuation, part.len() as int);
    let key = key_text(s, start, run);
    assert(key[0] == s[start + 1]);
    assert(key[key.len() - 1] == s[end - 1]);
    assert(part[key.len() - 1] == s[end - 1]);
    assert forall|k: int| start < k < end implies citation_key_char(#[trigger] s[k]) by {
        assert(CharClass::CitationKey.holds(s[k]));
    }
}

} // verus!
