//! Callouts: block quotes that open with a `[!type]` header.

use crate::text::{
    ascii_lowercase, contains_class, find_char, has_class, index_of_char, join, joined, pairs,
    piece, spells, string_of, text_line_ranges, text_lines, to_ascii_lowercase, to_chars, trim,
    trim_start_by, trimmed, trimmed_start, views, CharClass,
};
use std::ops::Range;
use vstd::prelude::*;

verus! {

/// The looks a callout can have. Many type names share one look; a name that is not known looks
/// like a note.
#[derive(Clone, Copy, Debug, PartialEq, Eq, Structural)]
pub enum CalloutKind {
    Note,
    Abstract,
    Todo,
    Tip,
    Success,
    Question,
    Warning,
    Failure,
    Danger,
    Example,
    Quote,
}

/// The icon beside a callout's title.
#[derive(Clone, Copy, Debug, PartialEq, Eq, Structural)]
pub enum CalloutIcon {
    Info,
    Notepad,
    ListTodo,
    Flame,
    Check,
    CircleHelp,
    Warning,
    XCircle,
    BoltFilled,
    Book,
    Quote,
}

/// The color of a callout, as a role of the theme's palette.
#[derive(Clone, Copy, Debug, PartialEq, Eq, Structural)]
pub enum CalloutAccent {
    Info,
    Success,
    Warning,
    Error,
    Muted,
}

/// The look of a callout whose type is spelled `lower` in small letters.
pub open spec fn kind_of(lower: Seq<char>) -> CalloutKind {
    if lower == "abstract"@ || lower == "summary"@ || lower == "tldr"@ {
        CalloutKind::Abstract
    } else if lower == "todo"@ {
        CalloutKind::Todo
    } else if lower == "tip"@ || lower == "hint"@ || lower == "important"@ {
        CalloutKind::Tip
    } else if lower == "success"@ || lower == "check"@ || lower == "done"@ {
        CalloutKind::Success
    } else if lower == "question"@ || lower == "help"@ || lower == "faq"@ {
        CalloutKind::Question
    } else if lower == "warning"@ || lower == "caution"@ || lower == "attention"@ {
        CalloutKind::Warning
    } else if lower == "failure"@ || lower == "fail"@ || lower == "missing"@ || lower == "bug"@ {
        CalloutKind::Failure
    } else if lower == "danger"@ || lower == "error"@ {
        CalloutKind::Danger
    } else if lower == "example"@ {
        CalloutKind::Example
    } else if lower == "quote"@ || lower == "cite"@ {
        CalloutKind::Quote
    } else {
        CalloutKind::Note
    }
}

/// What an untitled callout is titled: the name of its look.
pub open spec fn title_of(kind: CalloutKind) -> Seq<char> {
    match kind {
        CalloutKind::Note => "Note"@,
        CalloutKind::Abstract => "Abstract"@,
        CalloutKind::Todo => "Todo"@,
        CalloutKind::Tip => "Tip"@,
        CalloutKind::Success => "Success"@,
        CalloutKind::Question => "Question"@,
        CalloutKind::Warning => "Warning"@,
        CalloutKind::Failure => "Failure"@,
        CalloutKind::Danger => "Danger"@,
        CalloutKind::Example => "Example"@,
        CalloutKind::Quote => "Quote"@,
    }
}

fn kind_of_chars(name: &[char]) -> (result: CalloutKind)
    ensures
        result == kind_of(ascii_lowercase(name@)),
{
    let lower = to_ascii_lowercase(name);
    let lower = lower.as_slice();
    if spells(lower, "abstract") || spells(lower, "summary") || spells(lower, "tldr") {
        CalloutKind::Abstract
    } else if spells(lower, "todo") {
        CalloutKind::Todo
    } else if spells(lower, "tip") || spells(lower, "hint") || spells(lower, "important") {
        CalloutKind::Tip
    } else if spells(lower, "success") || spells(lower, "check") || spells(lower, "done") {
        CalloutKind::Success
    } else if spells(lower, "question") || spells(lower, "help") || spells(lower, "faq") {
        CalloutKind::Question
    } else if spells(lower, "warning") || spells(lower, "caution") || spells(lower, "attention") {
        CalloutKind::Warning
    } else if spells(lower, "failure") || spells(lower, "fail") || spells(lower, "missing")
        || spells(lower, "bug") {
        CalloutKind::Failure
    } else if spells(lower, "danger") || spells(lower, "error") {
        CalloutKind::Danger
    } else if spells(lower, "example") {
        CalloutKind::Example
    } else if spells(lower, "quote") || spells(lower, "cite") {
        CalloutKind::Quote
    } else {
        CalloutKind::Note
    }
}

impl CalloutKind {
    /// The look of a callout type, in capital or small letters.
    pub fn from_name(name: &str) -> (result: CalloutKind)
        ensures
            result == kind_of(ascii_lowercase(name@)),
    {
        kind_of_chars(to_chars(name).as_slice())
    }

    /// The icon of this look.
    pub fn icon(self) -> (result: CalloutIcon)
        ensures
            result == match self {
                CalloutKind::Note => CalloutIcon::Info,
                CalloutKind::Abstract => CalloutIcon::Notepad,
                CalloutKind::Todo => CalloutIcon::ListTodo,
                CalloutKind::Tip => CalloutIcon::Flame,
                CalloutKind::Success => CalloutIcon::Check,
                CalloutKind::Question => CalloutIcon::CircleHelp,
                CalloutKind::Warning => CalloutIcon::Warning,
                CalloutKind::Failure => CalloutIcon::XCircle,
                CalloutKind::Danger => CalloutIcon::BoltFilled,
                CalloutKind::Example => CalloutIcon::Book,
                CalloutKind::Quote => CalloutIcon::Quote,
            },
    {
        match self {
            CalloutKind::Note => CalloutIcon::Info,
            CalloutKind::Abstract => CalloutIcon::Notepad,
            CalloutKind::Todo => CalloutIcon::ListTodo,
            CalloutKind::Tip => CalloutIcon::Flame,
            CalloutKind::Success => CalloutIcon::Check,
            CalloutKind::Question => CalloutIcon::CircleHelp,
            CalloutKind::Warning => CalloutIcon::Warning,
            CalloutKind::Failure => CalloutIcon::XCircle,
            CalloutKind::Danger => CalloutIcon::BoltFilled,
            CalloutKind::Example => CalloutIcon::Book,
            CalloutKind::Quote => CalloutIcon::Quote,
        }
    }

    /// The color of this look.
    pub fn accent(self) -> (result: CalloutAccent)
        ensures
            result == match self {
                CalloutKind::Note
                | CalloutKind::Abstract
                | CalloutKind::Todo
                | CalloutKind::Example => CalloutAccent::Info,
                CalloutKind::Tip | CalloutKind::Success => CalloutAccent::Success,
                CalloutKind::Question | CalloutKind::Warning => CalloutAccent::Warning,
                CalloutKind::Failure | CalloutKind::Danger => CalloutAccent::Error,
                CalloutKind::Quote => CalloutAccent::Muted,
            },
    {
        match self {
            CalloutKind::Note
            | CalloutKind::Abstract
            | CalloutKind::Todo
            | CalloutKind::Example => CalloutAccent::Info,
            CalloutKind::Tip | CalloutKind::Success => CalloutAccent::Success,
            CalloutKind::Question | CalloutKind::Warning => CalloutAccent::Warning,
            CalloutKind::Failure | CalloutKind::Danger => CalloutAccent::Error,
            CalloutKind::Quote => CalloutAccent::Muted,
        }
    }

    /// What an untitled callout of this look is titled.
    pub fn default_title(self) -> (result: &'static str)
        ensures
            result@ == title_of(self),
    {
        match self {
            CalloutKind::Note => "Note",
            CalloutKind::Abstract => "Abstract",
            CalloutKind::Todo => "Todo",
            CalloutKind::Tip => "Tip",
            CalloutKind::Success => "Success",
            CalloutKind::Question => "Question",
            CalloutKind::Warning => "Warning",
            CalloutKind::Failure => "Failure",
            CalloutKind::Danger => "Danger",
            CalloutKind::Example => "Example",
            CalloutKind::Quote => "Quote",
        }
    }
}

/// What a callout's header line says: its look, its title, and whether it starts out collapsed
/// (`None` where it cannot be).
pub struct CalloutHeader {
    pub kind: CalloutKind,
    pub title: Seq<char>,
    pub collapse: Option<bool>,
}

/// What stands behind the `]` of a header: the collapse sign, then the title.
pub open spec fn header_of(name: Seq<char>, after: Seq<char>) -> Option<CalloutHeader> {
    let (collapse, title) = if after.len() > 0 && after[0] == '+' {
        (Some(false), after.skip(1))
    } else if after.len() > 0 && after[0] == '-' {
        (Some(true), after.skip(1))
    } else {
        (None, after)
    };
    let kind = kind_of(ascii_lowercase(trim(name)));
    if trim(name).len() == 0 || has_class(trim(name), CharClass::Whitespace) {
        None
    } else {
        Some(
            CalloutHeader {
                kind,
                title: if trim(title).len() == 0 {
                    title_of(kind)
                } else {
                    trim(title)
                },
                collapse,
            },
        )
    }
}

/// The header that a line holds, if it is one: `>`, `[!`, a type of one word, `]`, perhaps a
/// collapse sign, perhaps a title.
pub open spec fn callout_header(line: Seq<char>) -> Option<CalloutHeader> {
    let ws = CharClass::Whitespace;
    let quote = trim_start_by(line, ws);
    let rest = trim_start_by(quote.skip(1), ws);
    if quote.len() > 0 && quote[0] == '>' && rest.len() > 1 && rest[0] == '[' && rest[1] == '!' {
        match find_char(rest, ']', 2) {
            Some(at) => header_of(rest.subrange(2, at), rest.skip(at + 1)),
            None => None,
        }
    } else {
        None
    }
}

pub(crate) fn parse_header(line: &[char]) -> (result: Option<(CalloutKind, String, Option<bool>)>)
    ensures
        match callout_header(line@) {
            Some(header) => result is Some && {
                let (kind, title, collapse) = result->0;
                &&& kind == header.kind
                &&& title@ == header.title
                &&& collapse == header.collapse
            },
            None => result is None,
        },
{
    let quote = trimmed_start(line, CharClass::Whitespace);
    if quote.len() == 0 || quote[0] != '>' {
        return None;
    }
    let behind = &quote[1..quote.len()];
    assert(behind@ =~= quote@.skip(1));
    let rest = trimmed_start(behind, CharClass::Whitespace);
    if rest.len() < 2 || rest[0] != '[' || rest[1] != '!' {
        return None;
    }
    let at = match index_of_char(rest, ']', 2) {
        Some(at) => at,
        None => {
            return None;
        },
    };
    let name = trimmed(&rest[2..at]);
    let after = &rest[at + 1..rest.len()];
    assert(after@ =~= rest@.skip(at + 1));
    let (collapse, title) = if after.len() > 0 && after[0] == '+' {
        let title = &after[1..after.len()];
        assert(title@ =~= after@.skip(1));
        (Some(false), title)
    } else if after.len() > 0 && after[0] == '-' {
        let title = &after[1..after.len()];
        assert(title@ =~= after@.skip(1));
        (Some(true), title)
    } else {
        (None, after)
    };
    if name.len() == 0 || contains_class(name, CharClass::Whitespace) {
        return None;
    }
    let kind = kind_of_chars(name);
    let title = trimmed(title);
    let title = if title.len() == 0 {
        kind.default_title().to_owned()
    } else {
        string_of(title)
    };
    Some((kind, title, collapse))
}

/// Parses a callout's header line into its look, its title, and its initial collapsed state.
/// `None` for an ordinary block quote.
pub fn parse_callout_header(line: &str) -> (result: Option<(CalloutKind, String, Option<bool>)>)
    ensures
        match callout_header(line@) {
            Some(header) => result is Some && {
                let (kind, title, collapse) = result->0;
                &&& kind == header.kind
                &&& title@ == header.title
                &&& collapse == header.collapse
            },
            None => result is None,
        },
{
    parse_header(to_chars(line).as_slice())
}

/// A line of a callout without its quote prefix; a line without one is left as it is.
pub open spec fn unquoted(line: Seq<char>) -> Seq<char> {
    let quote = trim_start_by(line, CharClass::Whitespace);
    if quote.len() > 0 && quote[0] == '>' {
        if quote.len() > 1 && quote[1] == ' ' {
            quote.skip(2)
        } else {
            quote.skip(1)
        }
    } else {
        line
    }
}

/// The lines of a callout behind its header, without their quote prefixes.
pub open spec fn body_lines(source: Seq<char>) -> Seq<Seq<char>> {
    let lines = text_lines(source);
    Seq::new(
        if lines.len() > 0 {
            (lines.len() - 1) as nat
        } else {
            0
        },
        |k: int| unquoted(piece(source, lines[k + 1])),
    )
}

fn unquote_line(line: &[char]) -> (result: &[char])
    ensures
        result@ == unquoted(line@),
{
    let quote = trimmed_start(line, CharClass::Whitespace);
    if quote.len() == 0 || quote[0] != '>' {
        return line;
    }
    if quote.len() > 1 && quote[1] == ' ' {
        let result = &quote[2..quote.len()];
        assert(result@ =~= quote@.skip(2));
        result
    } else {
        let result = &quote[1..quote.len()];
        assert(result@ =~= quote@.skip(1));
        result
    }
}

/// A callout's body: the quote's `>` prefixes stripped and its header line dropped. Lines with no
/// `>` pass through unchanged.
pub fn callout_body(source: &str) -> (result: String)
    ensures
        result@ == join(body_lines(source@), "\n"@),
{
    let chars = to_chars(source);
    let lines = text_line_ranges(chars.as_slice());
    let ghost ls = text_lines(chars@);
    assert(pairs(lines@).len() == ls.len());
    let mut parts: Vec<String> = Vec::new();
    let mut k: usize = 1;
    while k < lines.len()
        invariant
            1 <= k,
            lines@.len() >= 1 ==> k <= lines@.len(),
            lines@.len() == 0 ==> k == 1,
            pairs(lines@) == text_lines(chars@),
            lines@.len() == text_lines(chars@).len(),
            parts@.len() == k - 1,
            forall|m: int|
                0 <= m < lines@.len() ==> (#[trigger] lines@[m]).0 <= lines@[m].1 <= chars@.len(),
            forall|m: int|
                0 <= m < parts@.len() ==> (#[trigger] parts@[m])@ == unquoted(
                    piece(chars@, text_lines(chars@)[m + 1]),
                ),
        decreases lines@.len() - k,
    {
        assert(pairs(lines@)[k as int] == text_lines(chars@)[k as int]);
        assert(lines@[k as int].0 <= lines@[k as int].1 <= chars@.len());
        let line = &chars.as_slice()[lines[k].0..lines[k].1];
        parts.push(string_of(unquote_line(line)));
        k += 1;
    }
    assert(views(parts@) =~= body_lines(chars@));
    joined(&parts, "\n")
}

// ---------------------------------------------------------------------------------------------
// Collapsing
// ---------------------------------------------------------------------------------------------

/// What a user chose for the callouts of a buffer: each by its byte range, with whether it is
/// collapsed.
pub open spec fn choices(list: Seq<(Range<usize>, bool)>) -> Seq<((int, int), bool)> {
    Seq::new(
        list.len(),
        |k: int| ((list[k].0.start as int, list[k].0.end as int), list[k].1),
    )
}

/// The choices without those for a callout that starts at `start`.
pub open spec fn choices_without(list: Seq<((int, int), bool)>, start: int) -> Seq<
    ((int, int), bool),
>
    decreases list.len(),
{
    if list.len() == 0 {
        Seq::empty()
    } else if list.last().0.0 == start {
        choices_without(list.drop_last(), start)
    } else {
        choices_without(list.drop_last(), start).push(list.last())
    }
}

/// Flips the callout at `range` between expanded and collapsed, and records the choice so that it
/// overrides what the header asked for.
pub fn toggle_callout(
    collapse: Vec<(Range<usize>, bool)>,
    range: Range<usize>,
    collapsed: bool,
) -> (result: Vec<(Range<usize>, bool)>)
    ensures
        choices(result@) == choices_without(choices(collapse@), range.start as int).push(
            ((range.start as int, range.end as int), !collapsed),
        ),
{
    let mut result: Vec<(Range<usize>, bool)> = Vec::new();
    let ghost all = choices(collapse@);
    let mut k: usize = 0;
    while k < collapse.len()
        invariant
            k <= collapse@.len(),
            all == choices(collapse@),
            choices(result@) == choices_without(all.take(k as int), range.start as int),
        decreases collapse@.len() - k,
    {
        let (existing, value) = (&collapse[k].0, collapse[k].1);
        let ghost before = choices(result@);
        if existing.start != range.start {
            result.push((existing.start..existing.end, value));
            assert(choices(result@) =~= before.push(all[k as int]));
        }
        k += 1;
        assert(all.take(k as int).drop_last() =~= all.take(k - 1));
    }
    assert(all.take(k as int) =~= all);
    let ghost before = choices(result@);
    let ghost choice = ((range.start as int, range.end as int), !collapsed);
    result.push((range, !collapsed));
    assert(choices(result@) =~= before.push(choice));
    result
}

/// Whether a callout at `start` is collapsed: the first choice for it, else what its header asked
/// for.
pub open spec fn collapsed_at(list: Seq<((int, int), bool)>, start: int, k: int, asked: bool) -> bool
    decreases list.len() - k,
{
    if k < 0 || k >= list.len() {
        asked
    } else if list[k].0.0 == start {
        list[k].1
    } else {
        collapsed_at(list, start, k + 1, asked)
    }
}

/// Whether the callout that starts at `start` is collapsed: what was chosen for it wins over what
/// its header asked for.
pub fn is_callout_collapsed(
    collapse: &Vec<(Range<usize>, bool)>,
    start: usize,
    asked: Option<bool>,
) -> (result: bool)
    ensures
        result == collapsed_at(
            choices(collapse@),
            start as int,
            0,
            asked == Some(true),
        ),
{
    let ghost all = choices(collapse@);
    let mut k: usize = 0;
    while k < collapse.len()
        invariant
            k <= collapse@.len(),
            all == choices(collapse@),
            collapsed_at(all, start as int, 0, asked == Some(true)) == collapsed_at(
                all,
                start as int,
                k as int,
                asked == Some(true),
            ),
        decreases collapse@.len() - k,
    {
        if collapse[k].0.start == start {
            return collapse[k].1;
        }
        k += 1;
    }
    match asked {
        Some(asked) => asked,
        None => false,
    }
}

proof fn lemma_collapsed_in_longer(
    list: Seq<((int, int), bool)>,
    more: ((int, int), bool),
    start: int,
    k: int,
    asked: bool,
)
    requires
        0 <= k <= list.len(),
    ensures
        collapsed_at(list.push(more), start, k, asked) == collapsed_at(
            list,
            start,
            k,
            if more.0.0 == start {
                more.1
            } else {
                asked
            },
        ),
    decreases list.len() - k,
{
    if k < list.len() {
        assert(list.push(more)[k] == list[k]);
        lemma_collapsed_in_longer(list, more, start, k + 1, asked);
    } else {
        assert(list.push(more)[k] == more);
        reveal_with_fuel(collapsed_at, 2);
    }
}

proof fn lemma_collapsed_without(
    list: Seq<((int, int), bool)>,
    removed: int,
    start: int,
    asked: bool,
)
    ensures
        collapsed_at(choices_without(list, removed), start, 0, asked) == if start == removed {
            asked
        } else {
            collapsed_at(list, start, 0, asked)
        },
    decreases list.len(),
{
    if list.len() > 0 {
        let shorter = list.drop_last();
        let last = list.last();
        assert(shorter.push(last) =~= list);
        let later = if last.0.0 == start {
            last.1
        } else {
            asked
        };
        lemma_collapsed_in_longer(shorter, last, start, 0, asked);
        if last.0.0 == removed {
            lemma_collapsed_without(shorter, removed, start, asked);
            lemma_collapsed_without(shorter, removed, start, later);
        } else {
            lemma_collapsed_in_longer(
                choices_without(shorter, removed),
                last,
                start,
                0,
                asked,
            );
            lemma_collapsed_without(shorter, removed, start, later);
        }
    }
}

/// After a toggle the callout is the other way round, whatever its header asks for, and every
/// other callout is as it was.
pub proof fn law_a_toggle_flips_one_callout(
    list: Seq<((int, int), bool)>,
    range: (int, int),
    collapsed: bool,
    start: int,
    asked: bool,
)
    ensures
        collapsed_at(choices_without(list, range.0).push((range, !collapsed)), start, 0, asked)
            == if start == range.0 {
            !collapsed
        } else {
            collapsed_at(list, start, 0, asked)
        },
{
    let kept = choices_without(list, range.0);
    lemma_collapsed_in_longer(kept, (range, !collapsed), start, 0, asked);
    lemma_collapsed_without(list, range.0, start, asked);
    lemma_collapsed_without(list, range.0, start, !collapsed);
}

} // verus!
