//! The dates that `biblatex` takes over without a panic.
//!
//! It parses the date of an entry where another entry takes it over, and some texts that are no
//! date make it panic rather than refuse them. It writes a date that was taken over anew, and parses
//! that where it is taken over once more.

use crate::scans::unicode_numeric;
use crate::text::{
    byte_offset, contains_char, find_char, find_run_end, has_char, index_of_char,
    lemma_byte_offset_grows, lemma_run_end,
    run_end, string_of, trim, trimmed, CharClass, Text,
};
use vstd::prelude::*;

verus! {

// ---------------------------------------------------------------------------------------------
// Numbers
// ---------------------------------------------------------------------------------------------

/// Where the run of characters that are numbers by Unicode's tables ends that starts at `i`.
pub open spec fn number_end(s: Seq<char>, i: int) -> int
    decreases s.len() - i,
{
    if 0 <= i < s.len() && unicode_numeric(s[i]) {
        number_end(s, i + 1)
    } else {
        i
    }
}

/// Whether a character from `from` up to `to` is not ASCII.
pub open spec fn is_foreign(s: Seq<char>, from: int, to: int) -> bool {
    exists|k: int| from <= k < to && (#[trigger] s[k]) as u32 >= 0x80
}

/// How many bytes the characters from `from` up to `to` take.
pub open spec fn bytes_between(s: Seq<char>, from: int, to: int) -> int {
    byte_offset(s, to) - byte_offset(s, from)
}

/// The number that the digits from `from` up to `to` write.
pub open spec fn number_at(s: Seq<char>, from: int, to: int) -> nat
    decreases to - from,
{
    if to <= from {
        0
    } else {
        number_at(s, from, to - 1) * 10 + ((s[to - 1] as u32 - '0' as u32) as nat)
    }
}

fn find_number_end(s: &[char], from: usize) -> (end: usize)
    requires
        from <= s@.len(),
    ensures
        from <= end <= s@.len(),
        end == number_end(s@, from as int),
{
    let mut i: usize = from;
    while i < s.len()
        invariant_except_break
            number_end(s@, from as int) == number_end(s@, i as int),
        invariant
            from <= i <= s@.len(),
        ensures
            i == number_end(s@, from as int),
        decreases s@.len() - i,
    {
        if !s[i].is_numeric() {
            break;
        }
        i += 1;
    }
    i
}

fn finds_foreign(s: &[char], from: usize, to: usize) -> (result: bool)
    requires
        from <= to <= s@.len(),
    ensures
        result == is_foreign(s@, from as int, to as int),
{
    let mut i: usize = from;
    while i < to
        invariant
            from <= i <= to <= s@.len(),
            forall|k: int| from <= k < i ==> ((#[trigger] s@[k]) as u32) < 0x80,
        decreases to - i,
    {
        let code: u32 = s[i] as u32;
        if code >= 0x80 {
            assert(s@[i as int] as u32 >= 0x80);
            return true;
        }
        i += 1;
    }
    false
}

/// Whether the digits from `from` up to `to` write a number of more than 255.
fn exceeds_byte(s: &[char], from: usize, to: usize) -> (result: bool)
    requires
        from <= to <= s@.len(),
        forall|k: int| from <= k < to ==> CharClass::Digit.holds(#[trigger] s@[k]),
    ensures
        result == (number_at(s@, from as int, to as int) > 255),
{
    let mut value: u32 = 0;
    let mut i: usize = from;
    while i < to
        invariant
            from <= i <= to <= s@.len(),
            forall|k: int| from <= k < to ==> CharClass::Digit.holds(#[trigger] s@[k]),
            value <= 256,
            value < 256 ==> value == number_at(s@, from as int, i as int),
            value == 256 ==> number_at(s@, from as int, i as int) >= 256,
        decreases to - i,
    {
        assert(CharClass::Digit.holds(s@[i as int]));
        let digit: u32 = s[i] as u32 - '0' as u32;
        let next: u32 = value * 10 + digit;
        value = if next > 256 {
            256
        } else {
            next
        };
        i += 1;
    }
    value > 255
}

// ---------------------------------------------------------------------------------------------
// Dates written out
// ---------------------------------------------------------------------------------------------

/// Where the digits of a part of a date start, if what parts it from the part before it stands at
/// `i`. The parts are the year, the month, the day, the hour, the minute, the second, and the hours
/// and minutes that a time is ahead or behind.
pub open spec fn part_start(s: Seq<char>, i: int, part: int) -> Option<int> {
    let ws = CharClass::Whitespace;
    let at = run_end(s, ws, i);
    let is_sign = at < s.len() && (s[at] == '+' || s[at] == '-');
    if part == 0 {
        Some(
            run_end(
                s,
                ws,
                if is_sign {
                    at + 1
                } else {
                    at
                },
            ),
        )
    } else if part == 1 || part == 2 {
        let end = run_end(s, CharClass::Only('-'), at);
        if end > at {
            Some(run_end(s, ws, end))
        } else {
            None
        }
    } else if part == 3 && at < s.len() && (s[at] == 'T' || s[at] == 't') {
        Some(run_end(s, ws, at + 1))
    } else if (part == 4 || part == 5 || part == 7) && at < s.len() && s[at] == ':' {
        Some(run_end(s, ws, at + 1))
    } else if part == 6 && is_sign {
        Some(run_end(s, ws, at + 1))
    } else {
        None
    }
}

/// Whether so many bytes are read as a number: a year has two or four digits, any other part one or
/// two.
pub open spec fn part_fits(part: int, bytes: int) -> bool {
    if part == 0 {
        bytes == 2 || bytes == 4
    } else {
        1 <= bytes <= 2
    }
}

/// Whether reading a date part by part, from index `i` on, comes to digits that are not ASCII and of
/// the length that is read as a number.
pub open spec fn reading_fails(s: Seq<char>, i: int, part: int) -> bool
    decreases 8 - part,
{
    part < 8 && match part_start(s, i, part) {
        Some(from) => {
            let to = number_end(s, from);
            part_fits(part, bytes_between(s, from, to)) && (is_foreign(s, from, to)
                || reading_fails(s, to, part + 1))
        },
        None => false,
    }
}

fn find_part_start(s: &[char], i: usize, part: u8) -> (result: Option<usize>)
    requires
        i <= s@.len(),
    ensures
        match result {
            Some(from) => part_start(s@, i as int, part as int) == Some(from as int) && i <= from
                <= s@.len(),
            None => part_start(s@, i as int, part as int) is None,
        },
{
    let ws = CharClass::Whitespace;
    let at = find_run_end(s, ws, i);
    let is_sign = at < s.len() && (s[at] == '+' || s[at] == '-');
    if part == 0 {
        let sign_end = if is_sign {
            at + 1
        } else {
            at
        };
        return Some(find_run_end(s, ws, sign_end));
    }
    if part == 1 || part == 2 {
        let end = find_run_end(s, CharClass::Only('-'), at);
        return if end > at {
            Some(find_run_end(s, ws, end))
        } else {
            None
        };
    }
    let parted = at < s.len() && match part {
        3 => s[at] == 'T' || s[at] == 't',
        4 | 5 | 7 => s[at] == ':',
        6 => is_sign,
        _ => false,
    };
    if parted {
        Some(find_run_end(s, ws, at + 1))
    } else {
        None
    }
}

fn check_reading(text: &Text) -> (result: bool)
    requires
        text.wf(),
    ensures
        result == !reading_fails(text@, 0, 0),
{
    let s = text.all();
    let mut i: usize = 0;
    let mut part: u8 = 0;
    while part < 8
        invariant
            text.wf(),
            s@ == text@,
            i <= s@.len(),
            part <= 8,
            reading_fails(text@, 0, 0) == reading_fails(text@, i as int, part as int),
        decreases 8 - part,
    {
        let from = match find_part_start(s, i, part) {
            Some(from) => from,
            None => {
                return true;
            },
        };
        let to = find_number_end(s, from);
        proof {
            lemma_byte_offset_grows(text@, from as int, to as int);
        }
        let bytes = text.offset(to) - text.offset(from);
        let fits = if part == 0 {
            bytes == 2 || bytes == 4
        } else {
            1 <= bytes && bytes <= 2
        };
        if !fits {
            return true;
        }
        if finds_foreign(s, from, to) {
            return false;
        }
        i = to;
        part += 1;
    }
    true
}

// ---------------------------------------------------------------------------------------------
// Dates with digits left open
// ---------------------------------------------------------------------------------------------

/// Whether a date leaves digits open, as `19XX` does.
pub open spec fn is_open_date(s: Seq<char>) -> bool {
    has_char(s, 'x') || has_char(s, 'X')
}

/// Where the parts of a date stand that leaves digits open: where its year starts and ends, its
/// hyphens end, and its month starts and ends. Without hyphens there is no month.
pub open spec fn open_parts(s: Seq<char>) -> (int, int, Option<(int, int)>) {
    let ws = CharClass::Whitespace;
    let start = run_end(s, ws, 0);
    let year = run_end(s, CharClass::Digit, start);
    let gap = run_end(s, ws, year);
    let hyphens = run_end(s, CharClass::Only('-'), gap);
    let month = run_end(s, ws, hyphens);
    (
        start,
        year,
        if hyphens > gap {
            Some((month, run_end(s, CharClass::Digit, month)))
        } else {
            None
        },
    )
}

/// Whether a date that leaves digits open has a year of more than four digits, or a month zero
/// behind a year of four.
pub open spec fn open_date_fails(s: Seq<char>) -> bool {
    let (start, year, month) = open_parts(s);
    ||| year - start > 4
    ||| year - start == 4 && (month matches Some((from, to)) && to - from == 2 && s[from] == '0'
        && s[from + 1] == '0')
}

/// Whether a month of two digits has fewer than 31 days.
pub open spec fn is_short_month(tens: char, ones: char) -> bool {
    ||| tens == '0' && (ones == '2' || ones == '4' || ones == '6' || ones == '9')
    ||| tens == '1' && ones == '1'
}

/// Whether a character leaves a digit open.
pub open spec fn is_x(c: char) -> bool {
    c == 'x' || c == 'X'
}

/// Whether a date leaves only its day open, as `2020-02-XX` does, in a month of fewer than 31 days.
/// It stands for the days from the first to the thirty-first, and the last of them is no date.
pub open spec fn has_open_end(s: Seq<char>) -> bool {
    let ws = CharClass::Whitespace;
    let (start, year, month) = open_parts(s);
    year - start == 4 && (month matches Some((from, to)) && to - from == 2 && is_short_month(
        s[from],
        s[from + 1],
    ) && {
        let gap = run_end(s, ws, to);
        let hyphens = run_end(s, CharClass::Only('-'), gap);
        let day = run_end(s, ws, hyphens);
        let rest = trim(s.skip(day + 2));
        &&& hyphens > gap
        &&& day + 2 <= s.len()
        &&& is_x(s[day])
        &&& is_x(s[day + 1])
        &&& rest.len() == 0 || (rest.len() == 1 && (rest[0] == '%' || rest[0] == '?' || rest[0]
            == '~'))
    })
}

fn find_open_parts(s: &[char]) -> (result: (usize, usize, Option<(usize, usize)>))
    ensures
        open_parts(s@).0 == result.0,
        open_parts(s@).1 == result.1,
        result.0 <= result.1 <= s@.len(),
        match result.2 {
            Some((from, to)) => open_parts(s@).2 == Some((from as int, to as int)) && from <= to
                <= s@.len(),
            None => open_parts(s@).2 is None,
        },
{
    let ws = CharClass::Whitespace;
    let start = find_run_end(s, ws, 0);
    let year = find_run_end(s, CharClass::Digit, start);
    let gap = find_run_end(s, ws, year);
    let hyphens = find_run_end(s, CharClass::Only('-'), gap);
    if hyphens > gap {
        let month = find_run_end(s, ws, hyphens);
        (start, year, Some((month, find_run_end(s, CharClass::Digit, month))))
    } else {
        (start, year, None)
    }
}

fn leaves_open(c: char) -> (result: bool)
    ensures
        result == is_x(c),
{
    c == 'x' || c == 'X'
}

/// Whether a date leaves only its day open, in a month of fewer than 31 days.
pub fn finds_open_end(s: &[char]) -> (result: bool)
    ensures
        result == has_open_end(s@),
{
    let ws = CharClass::Whitespace;
    let (start, year, month) = find_open_parts(s);
    let (from, to) = match month {
        Some(range) => range,
        None => {
            return false;
        },
    };
    if year - start != 4 || to - from != 2 {
        return false;
    }
    let tens = s[from];
    let ones = s[from + 1];
    let is_short = (tens == '0' && (ones == '2' || ones == '4' || ones == '6' || ones == '9')) || (
    tens == '1' && ones == '1');
    let gap = find_run_end(s, ws, to);
    let hyphens = find_run_end(s, CharClass::Only('-'), gap);
    let day = find_run_end(s, ws, hyphens);
    if !is_short || hyphens == gap || s.len() - day < 2 {
        return false;
    }
    if !leaves_open(s[day]) || !leaves_open(s[day + 1]) {
        return false;
    }
    let behind = &s[day + 2..s.len()];
    assert(behind@ =~= s@.skip(day + 2));
    let rest = trimmed(behind);
    rest.len() == 0 || (rest.len() == 1 && (rest[0] == '%' || rest[0] == '?' || rest[0] == '~'))
}

// ---------------------------------------------------------------------------------------------
// The fields
// ---------------------------------------------------------------------------------------------

/// What stands behind the slash of a range.
pub open spec fn behind_slash(s: Seq<char>) -> Option<Seq<char>> {
    match find_char(s, '/', 0) {
        Some(at) => Some(s.skip(at + 1)),
        None => None,
    }
}

/// Whether a `date` can be read.
pub open spec fn date_is_safe(s: Seq<char>) -> bool {
    if is_open_date(s) {
        !open_date_fails(s)
    } else {
        !reading_fails(s, 0, 0) && (behind_slash(s) matches Some(end) ==> !reading_fails(end, 0, 0))
    }
}

/// Whether a `year` can be read: no white space parts its sign from its digits.
pub open spec fn year_is_safe(s: Seq<char>) -> bool {
    let sign = run_end(s, CharClass::Whitespace, 0);
    let digits = run_end(s, CharClass::Whitespace, sign + 1);
    let end = run_end(s, CharClass::Digit, digits);
    !(sign < s.len() && (s[sign] == '-' || s[sign] == '+') && digits > sign + 1 && 1 <= end - digits
        <= 4)
}

/// Whether a `month` can be read: a number of one or two bytes is ASCII and not zero, and a day
/// behind it, which counts where there is no field for the day, is no more than 255.
pub open spec fn month_is_safe(s: Seq<char>, has_day: bool) -> bool {
    let start = run_end(s, CharClass::Whitespace, 0);
    let number = number_end(s, start);
    let is_number = 1 <= bytes_between(s, start, number) <= 2;
    let name = if is_number {
        number
    } else {
        run_end(s, CharClass::Letter, number)
    };
    let day = run_end(s, CharClass::DateGap, name);
    let end = run_end(s, CharClass::Digit, day);
    &&& !(is_number && (is_foreign(s, start, number) || (s[start] == '0' && s[number - 1] == '0')))
    &&& has_day || !(day > name && number_at(s, day, end) > 255)
}

/// Whether a `date` can be read.
pub fn check_date(date: &str) -> (result: bool)
    ensures
        result == date_is_safe(date@),
{
    let text = Text::new(date);
    let s = text.all();
    if contains_char(s, 'x') || contains_char(s, 'X') {
        let (start, year, month) = find_open_parts(s);
        if year - start > 4 {
            return false;
        }
        return match month {
            Some((from, to)) => !(year - start == 4 && to - from == 2 && s[from] == '0' && s[from
                + 1] == '0'),
            None => true,
        };
    }
    if !check_reading(&text) {
        return false;
    }
    match index_of_char(s, '/', 0) {
        Some(at) => {
            let end = &s[at + 1..s.len()];
            assert(end@ =~= s@.skip(at + 1));
            let end = string_of(end);
            check_reading(&Text::new(end.as_str()))
        },
        None => true,
    }
}

/// Whether a `year` can be read.
pub fn check_year(s: &[char]) -> (result: bool)
    ensures
        result == year_is_safe(s@),
{
    let sign = find_run_end(s, CharClass::Whitespace, 0);
    if sign >= s.len() || (s[sign] != '-' && s[sign] != '+') {
        return true;
    }
    let digits = find_run_end(s, CharClass::Whitespace, sign + 1);
    let end = find_run_end(s, CharClass::Digit, digits);
    !(digits > sign + 1 && 1 <= end - digits && end - digits <= 4)
}

/// Whether a `month` can be read.
pub fn check_month(month: &str, has_day: bool) -> (result: bool)
    ensures
        result == month_is_safe(month@, has_day),
{
    let text = Text::new(month);
    let s = text.all();
    let start = find_run_end(s, CharClass::Whitespace, 0);
    let number = find_number_end(s, start);
    proof {
        lemma_byte_offset_grows(text@, start as int, number as int);
    }
    let bytes = text.offset(number) - text.offset(start);
    let is_number = 1 <= bytes && bytes <= 2;
    if is_number && (finds_foreign(s, start, number) || (s[start] == '0' && s[number - 1] == '0')) {
        return false;
    }
    let name = if is_number {
        number
    } else {
        find_run_end(s, CharClass::Letter, number)
    };
    let day = find_run_end(s, CharClass::DateGap, name);
    let end = find_run_end(s, CharClass::Digit, day);
    proof {
        lemma_run_end(s@, CharClass::Digit, day as int);
    }
    has_day || !(day > name && exceeds_byte(s, day, end))
}

} // verus!
