//! What a callout is: its header line, its look, and its body.

use crate::callout::{
    body_lines, callout_header, collapsed_at, kind_of, title_of, unquoted, CalloutHeader,
    CalloutKind,
};
use crate::text::{
    ascii_lowercase, find_char, lemma_find_char, lemma_run_end, run_end, text_lines, trim,
    trim_start_by, white_space, CharClass,
};
use crate::text_laws::{is_blank_text, is_tight, law_trimming_takes_the_outer_blanks, pieces_of};
use vstd::prelude::*;

verus! {

/// White space in front of a text that does not start with any is what trimming its start takes off.
proof fn lemma_trim_start(lead: Seq<char>, rest: Seq<char>)
    requires
        is_blank_text(lead),
        rest.len() == 0 || !white_space(rest[0]),
    ensures
        trim_start_by(lead + rest, CharClass::Whitespace) == rest,
{
    let s = lead + rest;
    let ws = CharClass::Whitespace;
    lemma_run_end(s, ws, 0);
    let end = run_end(s, ws, 0);
    if end < lead.len() {
        assert(white_space(lead[end]));
        assert(s[end] == lead[end]);
    }
    if end > lead.len() {
        assert(ws.holds(s[lead.len() as int]));
        assert(s[lead.len() as int] == rest[0]);
    }
    assert(s.skip(end) =~= rest);
}

/// Whether a text can stand as the collapse sign of a header before this title.
pub open spec fn is_sign(sign: Seq<char>, behind: Seq<char>) -> bool {
    ||| sign == seq!['+']
    ||| sign == seq!['-']
    ||| sign.len() == 0 && (behind.len() == 0 || (behind[0] != '+' && behind[0] != '-'))
}

/// The header of a callout has the look that its type names. It has the title behind its bracket, or
/// the name of its look where there is none. Behind `-` it starts out collapsed, behind `+` it does
/// not, and without a sign it cannot be.
pub proof fn law_a_header_has_its_parts(
    lead: Seq<char>,
    gap: Seq<char>,
    name: Seq<char>,
    sign: Seq<char>,
    left: Seq<char>,
    title: Seq<char>,
    right: Seq<char>,
)
    requires
        is_blank_text(lead),
        is_blank_text(gap),
        name.len() > 0,
        forall|i: int| 0 <= i < name.len() ==> #[trigger] name[i] != ']' && !white_space(name[i]),
        is_blank_text(left),
        is_blank_text(right),
        title.len() == 0 || is_tight(title),
        is_sign(sign, left + title + right),
    ensures
        ({
            let kind = kind_of(ascii_lowercase(name));
            callout_header(
                lead + seq!['>'] + gap + seq!['[', '!'] + name + seq![']'] + sign + left + title
                    + right,
            ) == Some(
                CalloutHeader {
                    kind,
                    title: if title.len() == 0 {
                        title_of(kind)
                    } else {
                        title
                    },
                    collapse: if sign == seq!['-'] {
                        Some(true)
                    } else if sign == seq!['+'] {
                        Some(false)
                    } else {
                        None
                    },
                },
            )
        }),
{
    let line = lead + seq!['>'] + gap + seq!['[', '!'] + name + seq![']'] + sign + left + title
        + right;
    let behind = left + title + right;
    let after = sign + behind;
    let rest = seq!['[', '!'] + name + seq![']'] + after;
    let quote = seq!['>'] + (gap + rest);
    assert(line =~= lead + quote);
    lemma_trim_start(lead, quote);
    assert(quote.skip(1) =~= gap + rest);
    lemma_trim_start(gap, rest);
    let at = name.len() + 2int;
    lemma_find_char(rest, ']', 2);
    assert forall|i: int| 2 <= i < at implies #[trigger] rest[i] != ']' by {
        assert(rest[i] == name[i - 2]);
    }
    assert(rest[at] == ']');
    assert(find_char(rest, ']', 2) == Some(at));
    assert(rest.subrange(2, at) =~= name);
    assert(rest.skip(at + 1) =~= after);
    assert(!white_space(name[0]) && !white_space(name[name.len() - 1]));
    let none = Seq::<char>::empty();
    assert(none + name + none =~= name);
    law_trimming_takes_the_outer_blanks(none, name, none);
    law_trimming_takes_the_outer_blanks(left, title, right);
    if sign.len() > 0 {
        assert(after[0] == sign[0]);
        assert(after.skip(1) =~= behind);
    } else {
        assert(after =~= behind);
    }
}

/// The header of a callout opens with `>` and a bracket with `!` and a type in it.
pub proof fn law_a_header_opens_with_its_type(line: Seq<char>)
    requires
        callout_header(line) is Some,
    ensures
        exists|i: int, j: int, k: int|
            #![trigger line[i], line[j], line[k]]
            {
                &&& 0 <= i < j
                &&& j + 2 < k < line.len()
                &&& line[i] == '>' && line[j] == '[' && line[j + 1] == '!' && line[k] == ']'
                &&& is_blank_text(line.take(i))
                &&& is_blank_text(line.subrange(i + 1, j))
                &&& has_one_word(line.subrange(j + 2, k))
            },
{
    let ws = CharClass::Whitespace;
    lemma_run_end(line, ws, 0);
    let i = run_end(line, ws, 0);
    let quote = line.skip(i);
    let inside = quote.skip(1);
    lemma_run_end(inside, ws, 0);
    let gap = run_end(inside, ws, 0);
    let j = i + 1 + gap;
    let rest = inside.skip(gap);
    lemma_find_char(rest, ']', 2);
    let at = find_char(rest, ']', 2)->0;
    let k = j + at;
    assert(rest =~= line.skip(j));
    assert(line[i] == '>');
    assert(line[j] == '[' && line[j + 1] == '!' && line[k] == ']');
    assert forall|m: int| 0 <= m < i implies white_space(#[trigger] line.take(i)[m]) by {
        assert(ws.holds(line[m]));
    }
    let between = line.subrange(i + 1, j);
    assert forall|m: int| 0 <= m < between.len() implies white_space(#[trigger] between[m]) by {
        assert(ws.holds(inside[m]));
    }
    let name = line.subrange(j + 2, k);
    assert(name =~= rest.subrange(2, at));
    assert(has_one_word(name));
    assert(name.len() > 0) by {
        if name.len() == 0 {
            assert(trim(name).len() == 0);
        }
    }
}

/// Whether a text is one word, white space round it aside.
pub open spec fn has_one_word(text: Seq<char>) -> bool {
    &&& trim(text).len() > 0
    &&& forall|i: int| 0 <= i < trim(text).len() ==> !white_space(#[trigger] trim(text)[i])
}

proof fn lemma_names()
    ensures
        "abstract"@ == seq!['a', 'b', 's', 't', 'r', 'a', 'c', 't'],
        "summary"@ == seq!['s', 'u', 'm', 'm', 'a', 'r', 'y'],
        "tldr"@ == seq!['t', 'l', 'd', 'r'],
        "todo"@ == seq!['t', 'o', 'd', 'o'],
        "tip"@ == seq!['t', 'i', 'p'],
        "hint"@ == seq!['h', 'i', 'n', 't'],
        "important"@ == seq!['i', 'm', 'p', 'o', 'r', 't', 'a', 'n', 't'],
        "success"@ == seq!['s', 'u', 'c', 'c', 'e', 's', 's'],
        "check"@ == seq!['c', 'h', 'e', 'c', 'k'],
        "done"@ == seq!['d', 'o', 'n', 'e'],
        "question"@ == seq!['q', 'u', 'e', 's', 't', 'i', 'o', 'n'],
        "help"@ == seq!['h', 'e', 'l', 'p'],
        "faq"@ == seq!['f', 'a', 'q'],
        "warning"@ == seq!['w', 'a', 'r', 'n', 'i', 'n', 'g'],
        "caution"@ == seq!['c', 'a', 'u', 't', 'i', 'o', 'n'],
        "attention"@ == seq!['a', 't', 't', 'e', 'n', 't', 'i', 'o', 'n'],
        "failure"@ == seq!['f', 'a', 'i', 'l', 'u', 'r', 'e'],
        "fail"@ == seq!['f', 'a', 'i', 'l'],
        "missing"@ == seq!['m', 'i', 's', 's', 'i', 'n', 'g'],
        "bug"@ == seq!['b', 'u', 'g'],
        "danger"@ == seq!['d', 'a', 'n', 'g', 'e', 'r'],
        "error"@ == seq!['e', 'r', 'r', 'o', 'r'],
        "example"@ == seq!['e', 'x', 'a', 'm', 'p', 'l', 'e'],
        "quote"@ == seq!['q', 'u', 'o', 't', 'e'],
        "cite"@ == seq!['c', 'i', 't', 'e'],
{
    reveal_strlit("abstract");
    reveal_strlit("summary");
    reveal_strlit("tldr");
    reveal_strlit("todo");
    reveal_strlit("tip");
    reveal_strlit("hint");
    reveal_strlit("important");
    reveal_strlit("success");
    reveal_strlit("check");
    reveal_strlit("done");
    reveal_strlit("question");
    reveal_strlit("help");
    reveal_strlit("faq");
    reveal_strlit("warning");
    reveal_strlit("caution");
    reveal_strlit("attention");
    reveal_strlit("failure");
    reveal_strlit("fail");
    reveal_strlit("missing");
    reveal_strlit("bug");
    reveal_strlit("danger");
    reveal_strlit("error");
    reveal_strlit("example");
    reveal_strlit("quote");
    reveal_strlit("cite");
}

/// The look of a callout is that of its type, and of no other; a type with no look of its own looks
/// like a note.
pub proof fn law_a_type_has_one_look(lower: Seq<char>)
    ensures
        kind_of(lower) == CalloutKind::Abstract <==> lower == "abstract"@ || lower == "summary"@
            || lower == "tldr"@,
        kind_of(lower) == CalloutKind::Todo <==> lower == "todo"@,
        kind_of(lower) == CalloutKind::Tip <==> lower == "tip"@ || lower == "hint"@ || lower
            == "important"@,
        kind_of(lower) == CalloutKind::Success <==> lower == "success"@ || lower == "check"@
            || lower == "done"@,
        kind_of(lower) == CalloutKind::Question <==> lower == "question"@ || lower == "help"@
            || lower == "faq"@,
        kind_of(lower) == CalloutKind::Warning <==> lower == "warning"@ || lower == "caution"@
            || lower == "attention"@,
        kind_of(lower) == CalloutKind::Failure <==> lower == "failure"@ || lower == "fail"@
            || lower == "missing"@ || lower == "bug"@,
        kind_of(lower) == CalloutKind::Danger <==> lower == "danger"@ || lower == "error"@,
        kind_of(lower) == CalloutKind::Example <==> lower == "example"@,
        kind_of(lower) == CalloutKind::Quote <==> lower == "quote"@ || lower == "cite"@,
{
    lemma_names();
}

/// An untitled callout has the name of its look for a title: the type that gives that look, with a
/// capital letter.
pub proof fn law_a_look_is_titled_by_its_type(kind: CalloutKind)
    ensures
        kind_of(ascii_lowercase(title_of(kind))) == kind,
        title_of(kind).len() > 0,
        'A' <= title_of(kind)[0] <= 'Z',
        forall|i: int| 0 < i < title_of(kind).len() ==> 'a' <= #[trigger] title_of(kind)[i] <= 'z',
{
    lemma_names();
    reveal_strlit("Note");
    reveal_strlit("Abstract");
    reveal_strlit("Todo");
    reveal_strlit("Tip");
    reveal_strlit("Success");
    reveal_strlit("Question");
    reveal_strlit("Warning");
    reveal_strlit("Failure");
    reveal_strlit("Danger");
    reveal_strlit("Example");
    reveal_strlit("Quote");
    let lower = ascii_lowercase(title_of(kind));
    match kind {
        CalloutKind::Note => {
            assert(lower =~= seq!['n', 'o', 't', 'e']);
        },
        CalloutKind::Abstract => {
            assert(lower =~= "abstract"@);
        },
        CalloutKind::Todo => {
            assert(lower =~= "todo"@);
        },
        CalloutKind::Tip => {
            assert(lower =~= "tip"@);
        },
        CalloutKind::Success => {
            assert(lower =~= "success"@);
        },
        CalloutKind::Question => {
            assert(lower =~= "question"@);
        },
        CalloutKind::Warning => {
            assert(lower =~= "warning"@);
        },
        CalloutKind::Failure => {
            assert(lower =~= "failure"@);
        },
        CalloutKind::Danger => {
            assert(lower =~= "danger"@);
        },
        CalloutKind::Example => {
            assert(lower =~= "example"@);
        },
        CalloutKind::Quote => {
            assert(lower =~= "quote"@);
        },
    }
}

/// A line of a callout is shown without its quote sign and one blank behind that; a line without a
/// sign is shown as it is.
pub proof fn law_a_quote_sign_is_taken_off(lead: Seq<char>, rest: Seq<char>)
    requires
        is_blank_text(lead),
    ensures
        unquoted(lead + seq!['>', ' '] + rest) == rest,
        rest.len() == 0 || rest[0] != ' ' ==> unquoted(lead + seq!['>'] + rest) == rest,
        rest.len() == 0 || (!white_space(rest[0]) && rest[0] != '>') ==> unquoted(lead + rest) == lead
            + rest,
{
    let a = seq!['>', ' '] + rest;
    assert(lead + seq!['>', ' '] + rest =~= lead + a);
    lemma_trim_start(lead, a);
    assert(a.skip(2) =~= rest);
    let b = seq!['>'] + rest;
    assert(lead + seq!['>'] + rest =~= lead + b);
    lemma_trim_start(lead, b);
    assert(b.skip(1) =~= rest);
    if rest.len() > 0 {
        assert(b[1] == rest[0]);
    }
    if rest.len() == 0 || !white_space(rest[0]) {
        lemma_trim_start(lead, rest);
    }
}

/// The body of a callout is every line behind the first.
pub proof fn law_a_body_is_every_line_but_the_first(source: Seq<char>, k: int)
    requires
        0 < k < text_lines(source).len(),
    ensures
        body_lines(source).len() == text_lines(source).len() - 1,
        body_lines(source)[k - 1] == unquoted(pieces_of(source, text_lines(source))[k]),
{
}

/// What was chosen for a callout wins over what its header asks for; where nothing was chosen for it,
/// its header decides.
pub proof fn law_a_choice_wins_over_the_header(
    list: Seq<((int, int), bool)>,
    start: int,
    from: int,
    asked: bool,
)
    requires
        0 <= from,
    ensures
        (forall|k: int| from <= k < list.len() ==> (#[trigger] list[k]).0.0 != start)
            ==> collapsed_at(list, start, from, asked) == asked,
        forall|k: int|
            from <= k < list.len() && (#[trigger] list[k]).0.0 == start && (forall|m: int|
                from <= m < k ==> (#[trigger] list[m]).0.0 != start) ==> collapsed_at(
                list,
                start,
                from,
                asked,
            ) == list[k].1,
    decreases list.len() - from,
{
    if from < list.len() && list[from].0.0 != start {
        law_a_choice_wins_over_the_header(list, start, from + 1, asked);
    }
}

} // verus!
