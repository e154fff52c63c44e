//! Text as a sequence of characters, with byte offsets into its UTF-8 form.
//!
//! Every contract of this crate speaks of a text as the sequence of its characters. Where a
//! position leaves the crate it is a byte offset, the sum of the widths of the characters before
//! it, so that it can index the buffer it came from.

use crate::citation::{citation_key_char, is_citation_key_char};
use std::ops::Range;
use vstd::prelude::*;
use vstd::utf8::{encode_scalar, encode_utf8};

verus! {

/// `String::push` appends the one character it is given.
pub assume_specification[ String::push ](string: &mut String, character: char)
    ensures
        final(string)@ == old(string)@.push(character),
;

// ---------------------------------------------------------------------------------------------
// Characters
// ---------------------------------------------------------------------------------------------

/// The number of bytes `c` takes in UTF-8.
pub open spec fn char_width(c: char) -> nat {
    if (c as u32) < 0x80 {
        1
    } else if (c as u32) < 0x800 {
        2
    } else if (c as u32) < 0x10000 {
        3
    } else {
        4
    }
}

/// The number of bytes `c` takes in UTF-8.
pub fn width_of(c: char) -> (width: usize)
    ensures
        width == char_width(c),
{
    let code: u32 = c as u32;
    if code < 0x80 {
        1
    } else if code < 0x800 {
        2
    } else if code < 0x10000 {
        3
    } else {
        4
    }
}

/// The characters with Unicode's `White_Space` property.
pub open spec fn white_space(c: char) -> bool {
    ||| '\u{9}' <= c <= '\u{d}'
    ||| c == ' '
    ||| c == '\u{85}'
    ||| c == '\u{a0}'
    ||| c == '\u{1680}'
    ||| '\u{2000}' <= c <= '\u{200a}'
    ||| c == '\u{2028}'
    ||| c == '\u{2029}'
    ||| c == '\u{202f}'
    ||| c == '\u{205f}'
    ||| c == '\u{3000}'
}

/// Whether `c` is white space.
pub fn is_whitespace(c: char) -> (result: bool)
    ensures
        result == white_space(c),
{
    ('\u{9}' <= c && c <= '\u{d}') || c == ' ' || c == '\u{85}' || c == '\u{a0}' || c == '\u{1680}'
        || ('\u{2000}' <= c && c <= '\u{200a}') || c == '\u{2028}' || c == '\u{2029}'
        || c == '\u{202f}' || c == '\u{205f}' || c == '\u{3000}'
}

/// An ASCII decimal digit.
pub open spec fn ascii_digit(c: char) -> bool {
    '0' <= c <= '9'
}

/// An ASCII letter or decimal digit.
pub open spec fn ascii_alphanumeric(c: char) -> bool {
    ascii_digit(c) || 'a' <= c <= 'z' || 'A' <= c <= 'Z'
}

/// Whether `c` is an ASCII decimal digit.
pub fn is_ascii_digit(c: char) -> (result: bool)
    ensures
        result == ascii_digit(c),
{
    '0' <= c && c <= '9'
}

/// Whether `c` is an ASCII letter or decimal digit.
pub fn is_ascii_alphanumeric(c: char) -> (result: bool)
    ensures
        result == ascii_alphanumeric(c),
{
    is_ascii_digit(c) || ('a' <= c && c <= 'z') || ('A' <= c && c <= 'Z')
}

/// `c` with an ASCII capital letter turned into its small letter.
pub open spec fn ascii_lower(c: char) -> char {
    if 'A' <= c <= 'Z' {
        ((c as u32) + 32) as char
    } else {
        c
    }
}

/// The text with every ASCII capital letter turned into its small letter.
pub open spec fn ascii_lowercase(s: Seq<char>) -> Seq<char> {
    Seq::new(s.len(), |i: int| ascii_lower(s[i]))
}

/// `c` with an ASCII capital letter turned into its small letter.
pub fn to_ascii_lower(c: char) -> (result: char)
    ensures
        result == ascii_lower(c),
{
    if 'A' <= c && c <= 'Z' {
        let code: u8 = c as u8;
        (code + 32) as char
    } else {
        c
    }
}

/// The characters of `s` with every ASCII capital letter turned into its small letter.
pub fn to_ascii_lowercase(s: &[char]) -> (result: Vec<char>)
    ensures
        result@ == ascii_lowercase(s@),
{
    let mut result: Vec<char> = Vec::new();
    let mut i: usize = 0;
    while i < s.len()
        invariant
            i <= s@.len(),
            result@ == ascii_lowercase(s@).take(i as int),
        decreases s@.len() - i,
    {
        result.push(to_ascii_lower(s[i]));
        i += 1;
        assert(result@ =~= ascii_lowercase(s@).take(i as int));
    }
    assert(ascii_lowercase(s@).take(s@.len() as int) =~= ascii_lowercase(s@));
    result
}

/// Sets of characters that scans run over and trims strip.
#[derive(Clone, Copy)]
pub enum CharClass {
    /// Unicode white space.
    Whitespace,
    /// A space or a tab.
    Blank,
    /// Only this character.
    Only(char),
    /// An ASCII decimal digit.
    Digit,
    /// A character that a citation key may hold.
    CitationKey,
    /// Anything that cannot stand at the edge of a citation key: no ASCII letter, digit or `_`.
    KeyPunctuation,
    /// A `-` or a `/`.
    TagSeparator,
    /// An ASCII letter.
    Letter,
    /// White space or a `-`.
    DateGap,
}

impl CharClass {
    /// The characters of the class.
    pub open spec fn holds(self, c: char) -> bool {
        match self {
            CharClass::Whitespace => white_space(c),
            CharClass::Blank => c == ' ' || c == '\t',
            CharClass::Only(only) => c == only,
            CharClass::Digit => ascii_digit(c),
            CharClass::CitationKey => citation_key_char(c),
            CharClass::KeyPunctuation => !(ascii_alphanumeric(c) || c == '_'),
            CharClass::TagSeparator => c == '-' || c == '/',
            CharClass::Letter => 'a' <= c <= 'z' || 'A' <= c <= 'Z',
            CharClass::DateGap => white_space(c) || c == '-',
        }
    }

    /// Whether `c` belongs to the class.
    pub fn contains(self, c: char) -> (result: bool)
        ensures
            result == self.holds(c),
    {
        match self {
            CharClass::Whitespace => is_whitespace(c),
            CharClass::Blank => c == ' ' || c == '\t',
            CharClass::Only(only) => c == only,
            CharClass::Digit => is_ascii_digit(c),
            CharClass::CitationKey => is_citation_key_char(c),
            CharClass::KeyPunctuation => !(is_ascii_alphanumeric(c) || c == '_'),
            CharClass::TagSeparator => c == '-' || c == '/',
            CharClass::Letter => ('a' <= c && c <= 'z') || ('A' <= c && c <= 'Z'),
            CharClass::DateGap => is_whitespace(c) || c == '-',
        }
    }
}

// ---------------------------------------------------------------------------------------------
// Scanning
// ---------------------------------------------------------------------------------------------

/// Where the run of `class` characters that starts at `i` ends.
pub open spec fn run_end(s: Seq<char>, class: CharClass, i: int) -> int
    decreases s.len() - i,
{
    if 0 <= i < s.len() && class.holds(s[i]) {
        run_end(s, class, i + 1)
    } else {
        i
    }
}

/// Where the run of `class` characters that ends at `j` starts.
pub open spec fn run_start(s: Seq<char>, class: CharClass, j: int) -> int
    decreases j,
{
    if 0 < j <= s.len() && class.holds(s[j - 1]) {
        run_start(s, class, j - 1)
    } else {
        j
    }
}

/// The text without the leading characters of `class`.
pub open spec fn trim_start_by(s: Seq<char>, class: CharClass) -> Seq<char> {
    s.skip(run_end(s, class, 0))
}

/// The text without the trailing characters of `class`.
pub open spec fn trim_end_by(s: Seq<char>, class: CharClass) -> Seq<char> {
    s.take(run_start(s, class, s.len() as int))
}

/// The text without leading and trailing white space.
pub open spec fn trim(s: Seq<char>) -> Seq<char> {
    trim_end_by(trim_start_by(s, CharClass::Whitespace), CharClass::Whitespace)
}

/// A run starts where it is looked for, ends inside the text, and holds only its class.
pub proof fn lemma_run_end(s: Seq<char>, class: CharClass, i: int)
    requires
        0 <= i <= s.len(),
    ensures
        i <= run_end(s, class, i) <= s.len(),
        forall|k: int| i <= k < run_end(s, class, i) ==> class.holds(#[trigger] s[k]),
        run_end(s, class, i) < s.len() ==> !class.holds(s[run_end(s, class, i)]),
    decreases s.len() - i,
{
    if i < s.len() && class.holds(s[i]) {
        lemma_run_end(s, class, i + 1);
    }
}

/// The mirror image of [`lemma_run_end`].
pub proof fn lemma_run_start(s: Seq<char>, class: CharClass, j: int)
    requires
        0 <= j <= s.len(),
    ensures
        0 <= run_start(s, class, j) <= j,
        forall|k: int| run_start(s, class, j) <= k < j ==> class.holds(#[trigger] s[k]),
        run_start(s, class, j) > 0 ==> !class.holds(s[run_start(s, class, j) - 1]),
    decreases j,
{
    if 0 < j && class.holds(s[j - 1]) {
        lemma_run_start(s, class, j - 1);
    }
}

/// Where the run of `class` characters that starts at `from` ends.
pub fn find_run_end(s: &[char], class: CharClass, from: usize) -> (end: usize)
    requires
        from <= s@.len(),
    ensures
        from <= end <= s@.len(),
        end == run_end(s@, class, from as int),
{
    let mut i: usize = from;
    while i < s.len() && class.contains(s[i])
        invariant
            from <= i <= s@.len(),
            run_end(s@, class, from as int) == run_end(s@, class, i as int),
        decreases s@.len() - i,
    {
        i += 1;
    }
    i
}

/// Where the run of `class` characters that ends at `to` starts.
pub fn find_run_start(s: &[char], class: CharClass, to: usize) -> (start: usize)
    requires
        to <= s@.len(),
    ensures
        start <= to,
        start == run_start(s@, class, to as int),
{
    let mut j: usize = to;
    while j > 0 && class.contains(s[j - 1])
        invariant
            j <= to <= s@.len(),
            run_start(s@, class, to as int) == run_start(s@, class, j as int),
        decreases j,
    {
        j -= 1;
    }
    j
}

/// `s` without its leading characters of `class`.
pub fn trimmed_start(s: &[char], class: CharClass) -> (result: &[char])
    ensures
        result@ == trim_start_by(s@, class),
{
    let start: usize = find_run_end(s, class, 0);
    let result = &s[start..s.len()];
    assert(result@ =~= trim_start_by(s@, class));
    result
}

/// `s` without its trailing characters of `class`.
pub fn trimmed_end(s: &[char], class: CharClass) -> (result: &[char])
    ensures
        result@ == trim_end_by(s@, class),
{
    let end: usize = find_run_start(s, class, s.len());
    let result = &s[0..end];
    assert(result@ =~= trim_end_by(s@, class));
    result
}

/// `s` without leading and trailing white space.
pub fn trimmed(s: &[char]) -> (result: &[char])
    ensures
        result@ == trim(s@),
{
    trimmed_end(trimmed_start(s, CharClass::Whitespace), CharClass::Whitespace)
}

/// A text that is not white space at either end is its own trim.
pub proof fn lemma_trim_of_tight(s: Seq<char>)
    requires
        s.len() > 0,
        !white_space(s[0]),
        !white_space(s.last()),
    ensures
        trim(s) == s,
{
    let ws = CharClass::Whitespace;
    assert(trim_start_by(s, ws) =~= s);
    assert(trim_end_by(s, ws) =~= s);
}

/// A trimmed text is empty or not white space at either end.
pub proof fn lemma_trim_is_tight(s: Seq<char>)
    ensures
        trim(s).len() > 0 ==> !white_space(trim(s)[0]) && !white_space(trim(s).last()),
        trim(trim(s)) == trim(s),
{
    let ws = CharClass::Whitespace;
    lemma_run_end(s, ws, 0);
    let t = trim_start_by(s, ws);
    lemma_run_start(t, ws, t.len() as int);
    let u = trim(s);
    if u.len() > 0 {
        assert(u[0] == t[0]);
        assert(t[0] == s[run_end(s, ws, 0)]);
        assert(u.last() == t[run_start(t, ws, t.len() as int) - 1]);
        lemma_trim_of_tight(u);
    } else {
        assert(trim(u) =~= u);
    }
}

/// A padded cell trims to the cell.
pub proof fn lemma_trim_of_padded(cell: Seq<char>)
    requires
        trim(cell) == cell,
    ensures
        trim(seq![' '] + cell + seq![' ']) == cell,
        trim(seq![' ', ' ', ' ']) == Seq::<char>::empty(),
{
    let ws = CharClass::Whitespace;
    let blank = seq![' ', ' ', ' '];
    lemma_run_end(blank, ws, 0);
    assert(trim_start_by(blank, ws) =~= Seq::empty());
    assert(trim(blank) =~= Seq::empty());
    let padded = seq![' '] + cell + seq![' '];
    lemma_trim_is_tight(cell);
    if cell.len() > 0 {
        assert(padded[1] == cell[0]);
        reveal_with_fuel(run_end, 2);
        let t = trim_start_by(padded, ws);
        assert(t =~= cell + seq![' ']);
        reveal_with_fuel(run_start, 2);
        assert(t[cell.len() - 1] == cell.last());
        assert(trim(padded) =~= cell);
    } else {
        lemma_run_end(padded, ws, 0);
        assert(padded =~= seq![' ', ' ']);
        assert(trim_start_by(padded, ws) =~= Seq::empty());
        assert(trim(padded) =~= Seq::empty());
    }
}

/// The first place at or after `from` where `c` stands.
pub open spec fn find_char(s: Seq<char>, c: char, from: int) -> Option<int>
    decreases s.len() - from,
{
    if from < 0 || from >= s.len() {
        None
    } else if s[from] == c {
        Some(from)
    } else {
        find_char(s, c, from + 1)
    }
}

/// The first place at or after `from` where `a` stands with `b` right behind it.
pub open spec fn find_pair(s: Seq<char>, a: char, b: char, from: int) -> Option<int>
    decreases s.len() - from,
{
    if from < 0 || from + 1 >= s.len() {
        None
    } else if s[from] == a && s[from + 1] == b {
        Some(from)
    } else {
        find_pair(s, a, b, from + 1)
    }
}

/// The last place before `to` where `c` stands.
pub open spec fn find_char_back(s: Seq<char>, c: char, to: int) -> Option<int>
    decreases to,
{
    if to <= 0 || to > s.len() {
        None
    } else if s[to - 1] == c {
        Some(to - 1)
    } else {
        find_char_back(s, c, to - 1)
    }
}

/// What [`find_char`] finds lies at or after `from`, and nothing before it matches.
pub proof fn lemma_find_char(s: Seq<char>, c: char, from: int)
    requires
        0 <= from,
    ensures
        match find_char(s, c, from) {
            Some(at) => from <= at < s.len() && s[at] == c && forall|k: int|
                from <= k < at ==> #[trigger] s[k] != c,
            None => forall|k: int| from <= k < s.len() ==> #[trigger] s[k] != c,
        },
    decreases s.len() - from,
{
    if from < s.len() && s[from] != c {
        lemma_find_char(s, c, from + 1);
    }
}

/// What [`find_pair`] finds lies at or after `from`.
pub proof fn lemma_find_pair(s: Seq<char>, a: char, b: char, from: int)
    requires
        0 <= from,
    ensures
        match find_pair(s, a, b, from) {
            Some(at) => from <= at && at + 1 < s.len() && s[at] == a && s[at + 1] == b,
            None => true,
        },
    decreases s.len() - from,
{
    if from + 1 < s.len() && !(s[from] == a && s[from + 1] == b) {
        lemma_find_pair(s, a, b, from + 1);
    }
}

/// What [`find_char_back`] finds lies before `to`, and nothing after it matches.
pub proof fn lemma_find_char_back(s: Seq<char>, c: char, to: int)
    requires
        to <= s.len(),
    ensures
        match find_char_back(s, c, to) {
            Some(at) => 0 <= at < to && s[at] == c && forall|k: int|
                at < k < to ==> #[trigger] s[k] != c,
            None => forall|k: int| 0 <= k < to ==> #[trigger] s[k] != c,
        },
    decreases to,
{
    if 0 < to && s[to - 1] != c {
        lemma_find_char_back(s, c, to - 1);
    }
}

/// The index of an optional search result, as a specification value.
pub open spec fn found(result: Option<usize>) -> Option<int> {
    match result {
        Some(at) => Some(at as int),
        None => None,
    }
}

/// The first place at or after `from` where `c` stands.
pub fn index_of_char(s: &[char], c: char, from: usize) -> (result: Option<usize>)
    ensures
        found(result) == find_char(s@, c, from as int),
        result matches Some(at) ==> from <= at < s@.len() <= usize::MAX && s@[at as int] == c,
{
    let mut i: usize = from;
    while i < s.len()
        invariant
            from <= i,
            find_char(s@, c, from as int) == find_char(s@, c, i as int),
        decreases s@.len() - i,
    {
        if s[i] == c {
            return Some(i);
        }
        i += 1;
    }
    None
}

/// The first place at or after `from` where `a` stands with `b` right behind it.
pub fn index_of_pair(s: &[char], a: char, b: char, from: usize) -> (result: Option<usize>)
    ensures
        found(result) == find_pair(s@, a, b, from as int),
        result matches Some(at) ==> from <= at && at + 1 < s@.len() <= usize::MAX && s@[at as int]
            == a && s@[at + 1] == b,
{
    let mut i: usize = from;
    while i < s.len() && s.len() - i > 1
        invariant
            from <= i,
            find_pair(s@, a, b, from as int) == find_pair(s@, a, b, i as int),
        decreases s@.len() - i,
    {
        if s[i] == a && s[i + 1] == b {
            return Some(i);
        }
        i += 1;
    }
    None
}

/// The last place before `to` where `c` stands.
pub fn last_index_of_char(s: &[char], c: char, to: usize) -> (result: Option<usize>)
    requires
        to <= s@.len(),
    ensures
        found(result) == find_char_back(s@, c, to as int),
        result matches Some(at) ==> at < to && s@[at as int] == c,
{
    let mut j: usize = to;
    while j > 0
        invariant
            j <= to <= s@.len(),
            find_char_back(s@, c, to as int) == find_char_back(s@, c, j as int),
        decreases j,
    {
        if s[j - 1] == c {
            return Some(j - 1);
        }
        j -= 1;
    }
    None
}

/// Whether `c` stands anywhere in the text.
pub open spec fn has_char(s: Seq<char>, c: char) -> bool {
    find_char(s, c, 0) is Some
}

/// Whether a character of `class` stands anywhere in the text.
pub open spec fn has_class(s: Seq<char>, class: CharClass) -> bool {
    exists|i: int| 0 <= i < s.len() && class.holds(#[trigger] s[i])
}

/// Whether every character of the text is of `class`.
pub open spec fn all_class(s: Seq<char>, class: CharClass) -> bool {
    forall|i: int| 0 <= i < s.len() ==> class.holds(#[trigger] s[i])
}

/// Whether `c` stands anywhere in `s`.
pub fn contains_char(s: &[char], c: char) -> (result: bool)
    ensures
        result == has_char(s@, c),
{
    match index_of_char(s, c, 0) {
        Some(_) => true,
        None => false,
    }
}

/// Whether a character of `class` stands anywhere in `s`.
pub fn contains_class(s: &[char], class: CharClass) -> (result: bool)
    ensures
        result == has_class(s@, class),
{
    let mut i: usize = 0;
    while i < s.len()
        invariant
            i <= s@.len(),
            forall|k: int| 0 <= k < i ==> !class.holds(#[trigger] s@[k]),
        decreases s@.len() - i,
    {
        if class.contains(s[i]) {
            assert(class.holds(s@[i as int]));
            return true;
        }
        i += 1;
    }
    false
}

/// Whether every character of `s` is of `class`.
pub fn is_all_class(s: &[char], class: CharClass) -> (result: bool)
    ensures
        result == all_class(s@, class),
{
    let mut i: usize = 0;
    while i < s.len()
        invariant
            i <= s@.len(),
            forall|k: int| 0 <= k < i ==> class.holds(#[trigger] s@[k]),
        decreases s@.len() - i,
    {
        if !class.contains(s[i]) {
            assert(!class.holds(s@[i as int]));
            return false;
        }
        i += 1;
    }
    true
}

/// The text begins with `prefix`.
pub open spec fn starts_with(s: Seq<char>, prefix: Seq<char>) -> bool {
    prefix.len() <= s.len() && s.take(prefix.len() as int) == prefix
}

/// The text ends with `suffix`.
pub open spec fn ends_with(s: Seq<char>, suffix: Seq<char>) -> bool {
    suffix.len() <= s.len() && s.skip(s.len() - suffix.len()) == suffix
}

/// The text begins with the character `c`.
pub open spec fn starts_with_char(s: Seq<char>, c: char) -> bool {
    s.len() > 0 && s[0] == c
}

/// The text ends with the character `c`.
pub open spec fn ends_with_char(s: Seq<char>, c: char) -> bool {
    s.len() > 0 && s.last() == c
}

/// The text begins with a character of `class`.
pub open spec fn starts_with_class(s: Seq<char>, class: CharClass) -> bool {
    s.len() > 0 && class.holds(s[0])
}

/// The text ends with a character of `class`.
pub open spec fn ends_with_class(s: Seq<char>, class: CharClass) -> bool {
    s.len() > 0 && class.holds(s.last())
}

/// Whether two runs of characters are the same.
pub fn same_chars(a: &[char], b: &[char]) -> (result: bool)
    ensures
        result == (a@ == b@),
{
    if a.len() != b.len() {
        return false;
    }
    let mut i: usize = 0;
    while i < a.len()
        invariant
            a@.len() == b@.len(),
            i <= a@.len(),
            forall|k: int| 0 <= k < i ==> a@[k] == b@[k],
        decreases a@.len() - i,
    {
        if a[i] != b[i] {
            assert(a@[i as int] != b@[i as int]);
            return false;
        }
        i += 1;
    }
    assert(a@ =~= b@);
    true
}

/// Whether `s` begins with `prefix`.
pub fn has_prefix(s: &[char], prefix: &[char]) -> (result: bool)
    ensures
        result == starts_with(s@, prefix@),
{
    if s.len() < prefix.len() {
        return false;
    }
    let head = &s[0..prefix.len()];
    assert(head@ =~= s@.take(prefix@.len() as int));
    same_chars(head, prefix)
}

/// Whether `s` ends with `suffix`.
pub fn has_suffix(s: &[char], suffix: &[char]) -> (result: bool)
    ensures
        result == ends_with(s@, suffix@),
{
    if s.len() < suffix.len() {
        return false;
    }
    let tail = &s[s.len() - suffix.len()..s.len()];
    assert(tail@ =~= s@.skip(s@.len() - suffix@.len()));
    same_chars(tail, suffix)
}

/// Whether `needle` stands somewhere in the text.
pub open spec fn has_part(s: Seq<char>, needle: Seq<char>) -> bool {
    exists|i: int|
        0 <= i <= s.len() - needle.len() && #[trigger] s.subrange(i, i + needle.len()) == needle
}

/// Whether `needle` stands somewhere in `s`.
pub fn contains_part(s: &[char], needle: &[char]) -> (result: bool)
    ensures
        result == has_part(s@, needle@),
{
    let mut i: usize = 0;
    while i <= s.len() && s.len() - i >= needle.len()
        invariant
            i <= s@.len() + 1,
            forall|k: int|
                0 <= k < i ==> #[trigger] s@.subrange(k, k + needle@.len()) != needle@,
        decreases s@.len() + 1 - i,
    {
        if same_chars(&s[i..i + needle.len()], needle) {
            assert(s@.subrange(i as int, i + needle@.len()) == needle@);
            return true;
        }
        if i == s.len() {
            return false;
        }
        i += 1;
    }
    false
}

// ---------------------------------------------------------------------------------------------
// Pieces and lines
// ---------------------------------------------------------------------------------------------

/// The pieces of the text from `start` on that `separator` parts.
pub open spec fn split_from(s: Seq<char>, separator: char, start: int) -> Seq<(int, int)>
    decreases s.len() - start,
{
    if start < 0 || start > s.len() {
        Seq::empty()
    } else {
        match find_char(s, separator, start) {
            Some(at) => if start <= at < s.len() {
                seq![(start, at)] + split_from(s, separator, at + 1)
            } else {
                Seq::empty()
            },
            None => seq![(start, s.len() as int)],
        }
    }
}

/// The pieces that `separator` parts the text into, as index ranges. There is always one.
pub open spec fn split(s: Seq<char>, separator: char) -> Seq<(int, int)> {
    split_from(s, separator, 0)
}

/// The lines of the text, as index ranges that leave out the newlines.
pub open spec fn lines(s: Seq<char>) -> Seq<(int, int)> {
    split(s, '\n')
}

/// The characters of a piece.
pub open spec fn piece(s: Seq<char>, range: (int, int)) -> Seq<char> {
    s.subrange(range.0, range.1)
}

/// Index pairs as specification values.
pub open spec fn pairs(ranges: Seq<(usize, usize)>) -> Seq<(int, int)> {
    Seq::new(ranges.len(), |i: int| (ranges[i].0 as int, ranges[i].1 as int))
}

/// Pieces follow each other with one separator between them and cover the text.
pub proof fn lemma_split_from(s: Seq<char>, separator: char, start: int)
    requires
        0 <= start <= s.len(),
    ensures
        ({
            let pieces = split_from(s, separator, start);
            &&& pieces.len() > 0
            &&& pieces[0].0 == start
            &&& pieces.last().1 == s.len()
            &&& forall|k: int|
                0 <= k < pieces.len() ==> start <= (#[trigger] pieces[k]).0 <= pieces[k].1
                    <= s.len()
            &&& forall|k: int, m: int|
                0 <= k < m < pieces.len() ==> (#[trigger] pieces[k]).1 < (#[trigger] pieces[m]).0
            &&& forall|k: int, i: int|
                0 <= k < pieces.len() && (#[trigger] pieces[k]).0 <= i < pieces[k].1
                    ==> #[trigger] s[i] != separator
        }),
    decreases s.len() - start,
{
    lemma_find_char(s, separator, start);
    match find_char(s, separator, start) {
        Some(at) => {
            lemma_split_from(s, separator, at + 1);
            let rest = split_from(s, separator, at + 1);
            let pieces = split_from(s, separator, start);
            assert(pieces =~= seq![(start, at)] + rest);
            assert(pieces.last() == rest.last());
            assert forall|k: int, m: int| 0 <= k < m < pieces.len() implies (
            #[trigger] pieces[k]).1 < (#[trigger] pieces[m]).0 by {
                assert(pieces[m] == rest[m - 1]);
                if k > 0 {
                    assert(pieces[k] == rest[k - 1]);
                }
            }
            assert forall|k: int| 0 <= k < pieces.len() implies start <= (#[trigger] pieces[k]).0
                <= pieces[k].1 <= s.len() by {
                if k > 0 {
                    assert(pieces[k] == rest[k - 1]);
                }
            }
            assert forall|k: int, i: int|
                0 <= k < pieces.len() && (#[trigger] pieces[k]).0 <= i
                    < pieces[k].1 implies #[trigger] s[i] != separator by {
                if k > 0 {
                    assert(pieces[k] == rest[k - 1]);
                }
            }
        },
        None => {},
    }
}

/// The pieces that `separator` parts `s` into.
pub fn split_ranges(s: &[char], separator: char) -> (result: Vec<(usize, usize)>)
    ensures
        pairs(result@) == split(s@, separator),
        result@.len() > 0,
        forall|k: int|
            0 <= k < result@.len() ==> (#[trigger] result@[k]).0 <= result@[k].1 <= s@.len(),
{
    let mut result: Vec<(usize, usize)> = Vec::new();
    let mut start: usize = 0;
    let length: usize = s.len();
    loop
        invariant_except_break
            split(s@, separator) == pairs(result@) + split_from(s@, separator, start as int),
        invariant
            length == s@.len(),
            start <= s@.len(),
        ensures
            split(s@, separator) == pairs(result@),
        decreases s@.len() - start,
    {
        let ghost before = pairs(result@);
        match index_of_char(s, separator, start) {
            Some(at) => {
                result.push((start, at));
                assert(pairs(result@) =~= before.push((start as int, at as int)));
                assert(before + split_from(s@, separator, start as int) =~= pairs(result@)
                    + split_from(s@, separator, at + 1));
                start = at + 1;
            },
            None => {
                result.push((start, s.len()));
                assert(pairs(result@) =~= before + split_from(s@, separator, start as int));
                break;
            },
        }
    }
    proof {
        lemma_split_from(s@, separator, 0);
        assert forall|k: int| 0 <= k < result@.len() implies (#[trigger] result@[k]).0
            <= result@[k].1 <= s@.len() by {
            assert(pairs(result@)[k] == split(s@, separator)[k]);
        }
        assert(pairs(result@).len() == split(s@, separator).len());
    }
    result
}

/// The lines of the text from `start` on: a line ends at a newline or at the end of the text, a
/// carriage return right before the newline is part of the line ending, and nothing after the
/// last newline makes no line.
pub open spec fn text_lines_from(s: Seq<char>, start: int) -> Seq<(int, int)>
    decreases s.len() - start,
{
    if start < 0 || start >= s.len() {
        Seq::empty()
    } else {
        match find_char(s, '\n', start) {
            Some(at) => if start <= at < s.len() {
                seq![(start, line_content_end(s, start, at))] + text_lines_from(s, at + 1)
            } else {
                Seq::empty()
            },
            None => seq![(start, s.len() as int)],
        }
    }
}

/// Where the content of a line ends whose newline stands at `at`.
pub open spec fn line_content_end(s: Seq<char>, start: int, at: int) -> int {
    if start < at && s[at - 1] == '\r' {
        at - 1
    } else {
        at
    }
}

/// The lines of the text without their line endings.
pub open spec fn text_lines(s: Seq<char>) -> Seq<(int, int)> {
    text_lines_from(s, 0)
}

/// The lines of `s` without their line endings.
pub fn text_line_ranges(s: &[char]) -> (result: Vec<(usize, usize)>)
    ensures
        pairs(result@) == text_lines(s@),
        forall|k: int|
            0 <= k < result@.len() ==> (#[trigger] result@[k]).0 <= result@[k].1 <= s@.len(),
{
    let mut result: Vec<(usize, usize)> = Vec::new();
    let mut start: usize = 0;
    while start < s.len()
        invariant
            start <= s@.len(),
            text_lines(s@) == pairs(result@) + text_lines_from(s@, start as int),
            forall|k: int|
                0 <= k < result@.len() ==> (#[trigger] result@[k]).0 <= result@[k].1 <= s@.len(),
        decreases s@.len() - start,
    {
        let ghost before = pairs(result@);
        match index_of_char(s, '\n', start) {
            Some(at) => {
                let end: usize = if start < at && s[at - 1] == '\r' {
                    at - 1
                } else {
                    at
                };
                result.push((start, end));
                assert(pairs(result@) =~= before.push((start as int, end as int)));
                assert(before + text_lines_from(s@, start as int) =~= pairs(result@)
                    + text_lines_from(s@, at + 1));
                start = at + 1;
            },
            None => {
                result.push((start, s.len()));
                assert(pairs(result@) =~= before + text_lines_from(s@, start as int));
                start = s.len();
                assert(text_lines_from(s@, start as int) =~= Seq::empty());
            },
        }
    }
    assert(pairs(result@) =~= text_lines(s@));
    result
}

// ---------------------------------------------------------------------------------------------
// Strings and characters
// ---------------------------------------------------------------------------------------------

/// The characters of a text.
pub fn to_chars(text: &str) -> (chars: Vec<char>)
    ensures
        chars@ == text@,
{
    let mut chars: Vec<char> = Vec::new();
    for c in it: text.chars()
        invariant
            chars@ == it.seq().take(it.index() as int),
            it.seq() == text@,
    {
        chars.push(c);
        assert(it.seq().take(it.index() + 1) == it.seq().take(it.index() as int).push(c));
    }
    chars
}

/// Appends characters to a string.
pub fn push_chars(out: &mut String, s: &[char])
    ensures
        final(out)@ == old(out)@ + s@,
{
    let mut i: usize = 0;
    while i < s.len()
        invariant
            i <= s@.len(),
            out@ == old(out)@ + s@.take(i as int),
        decreases s@.len() - i,
    {
        out.push(s[i]);
        i += 1;
        assert(s@.take(i as int) =~= s@.take(i - 1).push(s@[i - 1]));
    }
    assert(s@.take(s@.len() as int) =~= s@);
}

/// Appends a text to a string.
pub fn push_text(out: &mut String, text: &str)
    ensures
        final(out)@ == old(out)@ + text@,
{
    push_chars(out, to_chars(text).as_slice());
}

/// The string of these characters.
pub fn string_of(s: &[char]) -> (result: String)
    ensures
        result@ == s@,
{
    let mut result = String::new();
    push_chars(&mut result, s);
    assert(result@ =~= s@);
    result
}

/// Whether two texts are the same.
pub fn same_text(a: &str, b: &str) -> (result: bool)
    ensures
        result == (a@ == b@),
{
    same_chars(to_chars(a).as_slice(), to_chars(b).as_slice())
}

/// Whether these characters spell `text`.
pub fn spells(s: &[char], text: &str) -> (result: bool)
    ensures
        result == (s@ == text@),
{
    same_chars(s, to_chars(text).as_slice())
}

/// The view of an optional string.
pub open spec fn option_view(text: Option<String>) -> Option<Seq<char>> {
    match text {
        Some(text) => Some(text@),
        None => None,
    }
}

/// Whether two optional strings spell the same.
pub fn same_option(a: &Option<String>, b: &Option<String>) -> (result: bool)
    ensures
        result == (option_view(*a) == option_view(*b)),
{
    match (a, b) {
        (Some(a), Some(b)) => same_text(a.as_str(), b.as_str()),
        (None, None) => true,
        _ => false,
    }
}

/// A copy of an optional string.
pub fn clone_option(text: &Option<String>) -> (result: Option<String>)
    ensures
        option_view(result) == option_view(*text),
{
    match text {
        Some(text) => Some(text.clone()),
        None => None,
    }
}

/// The views of several strings.
pub open spec fn views(texts: Seq<String>) -> Seq<Seq<char>> {
    Seq::new(texts.len(), |i: int| texts[i]@)
}

/// The parts with `separator` between each two of them.
pub open spec fn join(parts: Seq<Seq<char>>, separator: Seq<char>) -> Seq<char>
    decreases parts.len(),
{
    if parts.len() == 0 {
        Seq::empty()
    } else if parts.len() == 1 {
        parts[0]
    } else {
        join(parts.drop_last(), separator) + separator + parts.last()
    }
}

/// The parts with `separator` between each two of them.
pub fn joined(parts: &Vec<String>, separator: &str) -> (result: String)
    ensures
        result@ == join(views(parts@), separator@),
{
    let mut result = String::new();
    let mut i: usize = 0;
    while i < parts.len()
        invariant
            i <= parts@.len(),
            result@ == join(views(parts@).take(i as int), separator@),
        decreases parts@.len() - i,
    {
        if i > 0 {
            push_text(&mut result, separator);
        }
        push_text(&mut result, parts[i].as_str());
        i += 1;
        assert(views(parts@).take(i as int).drop_last() =~= views(parts@).take(i - 1));
    }
    assert(views(parts@).take(parts@.len() as int) =~= views(parts@));
    result
}

// ---------------------------------------------------------------------------------------------
// Byte offsets
// ---------------------------------------------------------------------------------------------

/// The byte offset of the character at index `i`.
pub open spec fn byte_offset(s: Seq<char>, i: int) -> nat
    decreases i,
{
    if i <= 0 {
        0
    } else {
        byte_offset(s, i - 1) + char_width(s[i - 1])
    }
}

/// The number of bytes of the whole text.
pub open spec fn byte_length(s: Seq<char>) -> nat {
    byte_offset(s, s.len() as int)
}

/// Whether a character starts, or the text ends, at this byte offset.
pub open spec fn is_boundary(s: Seq<char>, offset: int) -> bool {
    exists|i: int| 0 <= i <= s.len() && #[trigger] byte_offset(s, i) == offset
}

/// The index of the character that starts at this byte offset.
pub open spec fn index_at(s: Seq<char>, offset: int) -> int {
    choose|i: int| 0 <= i <= s.len() && #[trigger] byte_offset(s, i) == offset
}

/// The characters between two byte offsets, where both are boundaries in order.
pub open spec fn slice_at(s: Seq<char>, start: int, end: int) -> Option<Seq<char>> {
    if start <= end && is_boundary(s, start) && is_boundary(s, end) {
        Some(s.subrange(index_at(s, start), index_at(s, end)))
    } else {
        None
    }
}

/// Byte offsets grow with every character.
pub proof fn lemma_byte_offset_grows(s: Seq<char>, i: int, j: int)
    requires
        0 <= i <= j <= s.len(),
    ensures
        byte_offset(s, i) + (j - i) <= byte_offset(s, j),
        i < j <==> byte_offset(s, i) < byte_offset(s, j),
    decreases j - i,
{
    if i < j {
        lemma_byte_offset_grows(s, i, j - 1);
    }
}

/// The index of a character's own byte offset is its index.
pub proof fn lemma_index_at(s: Seq<char>, i: int)
    requires
        0 <= i <= s.len(),
    ensures
        is_boundary(s, byte_offset(s, i) as int),
        index_at(s, byte_offset(s, i) as int) == i,
{
    let found = index_at(s, byte_offset(s, i) as int);
    if found < i {
        lemma_byte_offset_grows(s, found, i);
    } else if i < found {
        lemma_byte_offset_grows(s, i, found);
    }
}

/// A byte offset depends only on the characters before it.
pub proof fn lemma_byte_offset_prefix(s: Seq<char>, t: Seq<char>, i: int)
    requires
        i <= s.len(),
        i <= t.len(),
        forall|k: int| 0 <= k < i ==> s[k] == t[k],
    ensures
        byte_offset(s, i) == byte_offset(t, i),
    decreases i,
{
    if i > 0 {
        lemma_byte_offset_prefix(s, t, i - 1);
    }
}

/// A byte offset inside a part of the text is the part's offset plus the offset within the part.
pub proof fn lemma_byte_offset_part(s: Seq<char>, start: int, end: int, i: int)
    requires
        0 <= start <= end <= s.len(),
        0 <= i <= end - start,
    ensures
        byte_offset(s, start + i) == byte_offset(s, start) + byte_offset(s.subrange(start, end), i),
    decreases i,
{
    if i > 0 {
        lemma_byte_offset_part(s, start, end, i - 1);
    }
}

proof fn lemma_encode_scalar_width(c: char)
    ensures
        encode_scalar(c as u32).len() == char_width(c),
{
}

proof fn lemma_byte_offset_drop_first(s: Seq<char>, i: int)
    requires
        1 <= i <= s.len(),
    ensures
        byte_offset(s, i) == char_width(s[0]) + byte_offset(s.drop_first(), i - 1),
    decreases i,
{
    if i > 1 {
        lemma_byte_offset_drop_first(s, i - 1);
    } else {
        assert(byte_offset(s, 0) == 0);
    }
}

/// The byte length of a text is the length of its UTF-8 encoding.
pub proof fn lemma_byte_length_is_utf8_length(s: Seq<char>)
    ensures
        byte_length(s) == encode_utf8(s).len(),
    decreases s.len(),
{
    if s.len() > 0 {
        lemma_encode_scalar_width(s[0]);
        lemma_byte_length_is_utf8_length(s.drop_first());
        lemma_byte_offset_drop_first(s, s.len() as int);
    }
}

/// A text's characters together with the byte offset of each.
pub struct Text {
    chars: Vec<char>,
    offsets: Vec<usize>,
}

impl View for Text {
    type V = Seq<char>;

    closed spec fn view(&self) -> Seq<char> {
        self.chars@
    }
}

impl Text {
    /// The offsets are those of the characters.
    pub closed spec fn wf(&self) -> bool {
        &&& self.offsets@.len() == self.chars@.len() + 1
        &&& forall|i: int|
            0 <= i <= self.chars@.len() ==> #[trigger] self.offsets@[i] == byte_offset(
                self.chars@,
                i,
            )
    }

    /// Takes a text apart.
    pub fn new(text: &str) -> (result: Text)
        ensures
            result.wf(),
            result@ == text@,
            byte_length(text@) <= usize::MAX,
    {
        let chars = to_chars(text);
        let bytes: usize = text.as_bytes().len();
        proof {
            lemma_byte_length_is_utf8_length(text@);
        }
        let mut offsets: Vec<usize> = Vec::new();
        let mut offset: usize = 0;
        offsets.push(0);
        let mut i: usize = 0;
        while i < chars.len()
            invariant
                i <= chars@.len(),
                bytes == byte_length(chars@),
                offset == byte_offset(chars@, i as int),
                offsets@.len() == i + 1,
                forall|k: int|
                    0 <= k <= i ==> #[trigger] offsets@[k] == byte_offset(chars@, k),
            decreases chars@.len() - i,
        {
            proof {
                lemma_byte_offset_grows(chars@, i + 1, chars@.len() as int);
            }
            offset += width_of(chars[i]);
            offsets.push(offset);
            i += 1;
        }
        Text { chars, offsets }
    }

    /// The number of characters.
    pub fn len(&self) -> (result: usize)
        ensures
            result == self@.len(),
    {
        self.chars.len()
    }

    /// The character at `i`.
    pub fn char_at(&self, i: usize) -> (result: char)
        requires
            i < self@.len(),
        ensures
            result == self@[i as int],
    {
        self.chars[i]
    }

    /// All characters.
    pub fn all(&self) -> (result: &[char])
        ensures
            result@ == self@,
    {
        self.chars.as_slice()
    }

    /// The characters from `start` up to `end`.
    pub fn part(&self, start: usize, end: usize) -> (result: &[char])
        requires
            start <= end <= self@.len(),
        ensures
            result@ == self@.subrange(start as int, end as int),
    {
        &self.chars.as_slice()[start..end]
    }

    /// The byte offset of the character at `i`, or of the end.
    pub fn offset(&self, i: usize) -> (result: usize)
        requires
            self.wf(),
            i <= self@.len(),
        ensures
            result == byte_offset(self@, i as int),
    {
        self.offsets[i]
    }

    /// The index of the character that starts at a byte offset, where one does.
    pub fn index_of(&self, offset: usize) -> (result: Option<usize>)
        requires
            self.wf(),
        ensures
            result is Some == is_boundary(self@, offset as int),
            result matches Some(i) ==> i <= self@.len() && byte_offset(self@, i as int) == offset
                && i == index_at(self@, offset as int),
    {
        let mut low: usize = 0;
        let mut high: usize = self.offsets.len();
        while low < high
            invariant
                self.wf(),
                low <= high <= self.offsets@.len(),
                self.offsets@.len() == self@.len() + 1,
                forall|k: int| 0 <= k < low ==> #[trigger] byte_offset(self@, k) < offset,
                forall|k: int|
                    high <= k <= self@.len() ==> #[trigger] byte_offset(self@, k) > offset,
            decreases high - low,
        {
            let middle: usize = low + (high - low) / 2;
            let here: usize = self.offsets[middle];
            assert(here == byte_offset(self@, middle as int));
            if here == offset {
                proof {
                    lemma_index_at(self@, middle as int);
                }
                return Some(middle);
            } else if here < offset {
                assert forall|k: int| 0 <= k < middle + 1 implies #[trigger] byte_offset(self@, k)
                    < offset by {
                    lemma_byte_offset_grows(self@, k, middle as int);
                }
                low = middle + 1;
            } else {
                assert forall|k: int| middle <= k <= self@.len() implies #[trigger] byte_offset(
                    self@,
                    k,
                ) > offset by {
                    lemma_byte_offset_grows(self@, middle as int, k);
                }
                high = middle;
            }
        }
        None
    }
}

/// Byte ranges as specification values.
pub open spec fn spans(ranges: Seq<Range<usize>>) -> Seq<(int, int)> {
    Seq::new(ranges.len(), |i: int| (ranges[i].start as int, ranges[i].end as int))
}

/// One index range of the text as a byte range.
pub open spec fn byte_span(s: Seq<char>, range: (int, int)) -> (int, int) {
    (byte_offset(s, range.0) as int, byte_offset(s, range.1) as int)
}

/// Index ranges of the text as byte ranges.
pub open spec fn byte_spans(s: Seq<char>, ranges: Seq<(int, int)>) -> Seq<(int, int)> {
    Seq::new(ranges.len(), |i: int| byte_span(s, ranges[i]))
}

/// The byte ranges of several index ranges of a text.
pub fn byte_ranges(text: &Text, ranges: &Vec<(usize, usize)>) -> (result: Vec<Range<usize>>)
    requires
        text.wf(),
        forall|k: int|
            0 <= k < ranges@.len() ==> (#[trigger] ranges@[k]).0 <= ranges@[k].1 <= text@.len(),
    ensures
        spans(result@) == byte_spans(text@, pairs(ranges@)),
{
    let mut result: Vec<Range<usize>> = Vec::new();
    let mut k: usize = 0;
    while k < ranges.len()
        invariant
            text.wf(),
            k <= ranges@.len(),
            result@.len() == k,
            forall|m: int|
                0 <= m < ranges@.len() ==> (#[trigger] ranges@[m]).0 <= ranges@[m].1
                    <= text@.len(),
            forall|m: int|
                0 <= m < k ==> (#[trigger] result@[m]).start == byte_offset(
                    text@,
                    ranges@[m].0 as int,
                ) && result@[m].end == byte_offset(text@, ranges@[m].1 as int),
        decreases ranges@.len() - k,
    {
        assert(ranges@[k as int].0 <= ranges@[k as int].1 <= text@.len());
        result.push(text.offset(ranges[k].0)..text.offset(ranges[k].1));
        k += 1;
    }
    assert(spans(result@) =~= byte_spans(text@, pairs(ranges@)));
    result
}

} // verus!
