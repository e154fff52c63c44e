//! Wikilinks in text that is rendered apart from its buffer, and the code spans that hide them.

use crate::text::{
    byte_ranges, byte_spans, contains_char, contains_part, find_char, find_pair, find_run_end,
    found, has_char, has_part, index_of_char, index_of_pair, lemma_run_end, pairs, push_chars,
    run_end, spans, to_chars, CharClass, Text,
};
use std::ops::Range;
use vstd::prelude::*;

verus! {

// ---------------------------------------------------------------------------------------------
// Code spans
// ---------------------------------------------------------------------------------------------

/// Where the run of backticks that starts at `i` ends.
pub open spec fn ticks_end(s: Seq<char>, i: int) -> int {
    run_end(s, CharClass::Only('`'), i)
}

/// Where the first run of exactly `count` backticks at or behind `from` ends.
pub open spec fn closing_ticks(s: Seq<char>, count: int, from: int) -> Option<int>
    decreases s.len() - from,
{
    match find_char(s, '`', from) {
        Some(at) => if from <= at < ticks_end(s, at) <= s.len() {
            if ticks_end(s, at) - at == count {
                Some(ticks_end(s, at))
            } else {
                closing_ticks(s, count, ticks_end(s, at))
            }
        } else {
            None
        },
        None => None,
    }
}

/// The code spans of a text from index `i` on: a run of backticks opens one, and the next run of
/// as many closes it. A run that nothing closes opens nothing.
pub open spec fn code_spans_from(s: Seq<char>, i: int) -> Seq<(int, int)>
    decreases s.len() - i,
{
    if i < 0 || i >= s.len() {
        Seq::empty()
    } else if s[i] != '`' {
        code_spans_from(s, i + 1)
    } else {
        let inside = ticks_end(s, i);
        if i < inside <= s.len() {
            match closing_ticks(s, inside - i, inside) {
                Some(end) => if inside < end <= s.len() {
                    seq![(i, end)] + code_spans_from(s, end)
                } else {
                    Seq::empty()
                },
                None => code_spans_from(s, inside),
            }
        } else {
            Seq::empty()
        }
    }
}

fn find_closing_ticks(s: &[char], count: usize, from: usize) -> (result: Option<usize>)
    requires
        from <= s@.len(),
    ensures
        found(result) == closing_ticks(s@, count as int, from as int),
        result matches Some(end) ==> from < end <= s@.len(),
{
    let mut search: usize = from;
    loop
        invariant
            from <= search <= s@.len(),
            closing_ticks(s@, count as int, from as int) == closing_ticks(
                s@,
                count as int,
                search as int,
            ),
        decreases s@.len() - search,
    {
        let at = match index_of_char(s, '`', search) {
            Some(at) => at,
            None => {
                return None;
            },
        };
        let end = find_run_end(s, CharClass::Only('`'), at);
        proof {
            lemma_run_end(s@, CharClass::Only('`'), at + 1);
        }
        if end - at == count {
            return Some(end);
        }
        search = end;
    }
}

fn code_span_indices(s: &[char]) -> (result: Vec<(usize, usize)>)
    ensures
        pairs(result@) == code_spans_from(s@, 0),
        forall|k: int|
            0 <= k < result@.len() ==> (#[trigger] result@[k]).0 <= result@[k].1 <= s@.len(),
{
    let mut result: Vec<(usize, usize)> = Vec::new();
    let mut i: usize = 0;
    while i < s.len()
        invariant
            i <= s@.len(),
            code_spans_from(s@, 0) == pairs(result@) + code_spans_from(s@, i as int),
            forall|k: int|
                0 <= k < result@.len() ==> (#[trigger] result@[k]).0 <= result@[k].1 <= s@.len(),
        decreases s@.len() - i,
    {
        let ghost before = pairs(result@);
        if s[i] != '`' {
            i += 1;
            continue;
        }
        let inside = find_run_end(s, CharClass::Only('`'), i);
        proof {
            lemma_run_end(s@, CharClass::Only('`'), i + 1);
        }
        match find_closing_ticks(s, inside - i, inside) {
            Some(end) => {
                result.push((i, end));
                assert(pairs(result@) =~= before.push((i as int, end as int)));
                assert(pairs(result@) + code_spans_from(s@, end as int) =~= before
                    + code_spans_from(s@, i as int));
                i = end;
            },
            None => {
                i = inside;
            },
        }
    }
    assert(pairs(result@) =~= code_spans_from(s@, 0));
    result
}

/// The byte ranges of the code spans of a text, backticks included.
pub fn code_span_ranges(text: &str) -> (result: Vec<Range<usize>>)
    ensures
        spans(result@) == byte_spans(text@, code_spans_from(text@, 0)),
{
    let text = Text::new(text);
    let indices = code_span_indices(text.all());
    byte_ranges(&text, &indices)
}

// ---------------------------------------------------------------------------------------------
// Display text
// ---------------------------------------------------------------------------------------------

/// Whether what stands between two pairs of brackets makes them a wikilink: it is not empty, stays
/// on one line, and opens no other one.
pub open spec fn is_link_body(inner: Seq<char>) -> bool {
    inner.len() > 0 && !has_char(inner, '\n') && !has_part(inner, seq!['[', '['])
}

/// Where the part of a wikilink's body that shows starts: behind its first pipe, else with it.
pub open spec fn shown_from(inner: Seq<char>) -> int {
    match find_char(inner, '|', 0) {
        Some(pipe) => pipe + 1,
        None => 0,
    }
}

/// Whether a wikilink's body is one.
pub fn check_link_body(inner: &[char]) -> (result: bool)
    ensures
        result == is_link_body(inner@),
{
    let mut brackets: Vec<char> = Vec::new();
    brackets.push('[');
    brackets.push('[');
    assert(brackets@ =~= seq!['[', '[']);
    inner.len() > 0 && !contains_char(inner, '\n') && !contains_part(inner, brackets.as_slice())
}

/// Where the part of a wikilink's body that shows starts.
pub fn find_shown(inner: &[char]) -> (result: usize)
    ensures
        result == shown_from(inner@),
        result <= inner@.len(),
{
    match index_of_char(inner, '|', 0) {
        Some(pipe) => pipe + 1,
        None => 0,
    }
}

/// Whether an index range touches one of several spans.
pub open spec fn touches(spans: Seq<(int, int)>, start: int, end: int) -> bool {
    exists|i: int|
        0 <= i < spans.len() && (#[trigger] spans[i]).0 < end && start < spans[i].1
}

/// Whether the brackets from index `open` to `close` are a wikilink that shows as its text: no
/// embed, and no code.
pub open spec fn shows_as_text(s: Seq<char>, code: Seq<(int, int)>, open: int, close: int) -> bool {
    &&& is_link_body(s.subrange(open + 2, close))
    &&& !(open > 0 && s[open - 1] == '!')
    &&& !touches(code, open, close + 2)
}

/// The text from `copied` on with every wikilink at or behind `from` replaced by what shows of it.
pub open spec fn displayed_from(s: Seq<char>, code: Seq<(int, int)>, from: int, copied: int) -> Seq<
    char,
>
    decreases s.len() - from,
{
    match find_pair(s, '[', '[', from) {
        Some(open) => match find_pair(s, ']', ']', open + 2) {
            Some(close) => if from <= open && open + 2 <= close && close + 2 <= s.len() {
                if shows_as_text(s, code, open, close) {
                    let inner = s.subrange(open + 2, close);
                    s.subrange(copied, open) + inner.skip(shown_from(inner)) + displayed_from(
                        s,
                        code,
                        close + 2,
                        close + 2,
                    )
                } else {
                    displayed_from(s, code, close + 2, copied)
                }
            } else {
                s.skip(copied)
            },
            None => s.skip(copied),
        },
        None => s.skip(copied),
    }
}

/// The text with every wikilink replaced by its alias, or by its target where it has none. Embeds
/// and code spans stay as they are.
pub open spec fn displayed(s: Seq<char>) -> Seq<char> {
    displayed_from(s, code_spans_from(s, 0), 0, 0)
}

fn touches_any(ranges: &Vec<(usize, usize)>, start: usize, end: usize) -> (result: bool)
    ensures
        result == touches(pairs(ranges@), start as int, end as int),
{
    let mut i: usize = 0;
    while i < ranges.len()
        invariant
            i <= ranges@.len(),
            forall|k: int|
                0 <= k < i ==> !((#[trigger] pairs(ranges@)[k]).0 < end && start < pairs(
                    ranges@,
                )[k].1),
        decreases ranges@.len() - i,
    {
        if ranges[i].0 < end && start < ranges[i].1 {
            assert(pairs(ranges@)[i as int].0 < end);
            return true;
        }
        i += 1;
    }
    false
}

/// The text with every wikilink replaced by what shows of it, for text that is rendered by a
/// markdown renderer without wikilinks.
pub fn wikilink_display_text(text: &str) -> (result: String)
    ensures
        result@ == displayed(text@),
{
    let chars = to_chars(text);
    let s = chars.as_slice();
    let code = code_span_indices(s);
    let ghost spans = code_spans_from(s@, 0);
    let mut out = String::new();
    let mut copied: usize = 0;
    let mut from: usize = 0;
    loop
        invariant_except_break
            out@ + displayed_from(s@, spans, from as int, copied as int) == displayed(s@),
        invariant
            pairs(code@) == spans,
            spans == code_spans_from(s@, 0),
            copied <= from <= s@.len(),
        ensures
            out@ + s@.skip(copied as int) == displayed(s@),
            copied <= s@.len(),
        decreases s@.len() - from,
    {
        let open = match index_of_pair(s, '[', '[', from) {
            Some(open) => open,
            None => {
                break;
            },
        };
        let close = match index_of_pair(s, ']', ']', open + 2) {
            Some(close) => close,
            None => {
                break;
            },
        };
        let inner = &s[open + 2..close];
        let is_embed = open > 0 && s[open - 1] == '!';
        if check_link_body(inner) && !is_embed && !touches_any(&code, open, close + 2) {
            let ghost before = out@;
            push_chars(&mut out, &s[copied..open]);
            let shown = find_shown(inner);
            let display = &inner[shown..inner.len()];
            assert(display@ =~= inner@.skip(shown as int));
            push_chars(&mut out, display);
            assert(out@ + displayed_from(s@, spans, close + 2, close + 2) =~= before
                + displayed_from(s@, spans, from as int, copied as int));
            copied = close + 2;
        }
        from = close + 2;
    }
    let rest = &s[copied..s.len()];
    assert(rest@ =~= s@.skip(copied as int));
    push_chars(&mut out, rest);
    out
}

/// A text without a pair of opening brackets shows as it is.
pub proof fn law_text_without_wikilinks_is_unchanged(s: Seq<char>)
    requires
        find_pair(s, '[', '[', 0) is None,
    ensures
        displayed(s) == s,
{
    assert(s.skip(0) =~= s);
}

} // verus!
