//! What the smallest steps on text come to: trimming, splitting into lines, and joining.

use crate::delimiter_laws::{lemma_piece_ends, lemma_trim_bounds, lemma_trim_reaches_from};
use crate::text::{
    find_char, join, lemma_find_char, lemma_split_from, lines, piece, split_from, text_lines,
    text_lines_from, trim, white_space,
};
use vstd::prelude::*;

verus! {

// ---------------------------------------------------------------------------------------------
// Trimming
// ---------------------------------------------------------------------------------------------

/// Whether a text is white space throughout.
pub open spec fn is_blank_text(s: Seq<char>) -> bool {
    forall|k: int| 0 <= k < s.len() ==> white_space(#[trigger] s[k])
}

/// Whether a text has one character or more, and white space at neither end.
pub open spec fn is_tight(s: Seq<char>) -> bool {
    s.len() > 0 && !white_space(s[0]) && !white_space(s[s.len() - 1])
}

/// White space round a text that has none at its ends is what trimming takes off, whatever stands
/// inside.
pub proof fn law_trimming_takes_the_outer_blanks(left: Seq<char>, text: Seq<char>, right: Seq<char>)
    requires
        is_blank_text(left),
        is_blank_text(right),
        text.len() == 0 || is_tight(text),
    ensures
        trim(left + text + right) == text,
{
    let s = left + text + right;
    let i = left.len() as int;
    let j = i + text.len();
    if text.len() > 0 {
        assert(s[i] == text[0]);
        assert(s[j - 1] == text[text.len() - 1]);
        assert forall|k: int| j <= k < s.len() implies white_space(#[trigger] s[k]) by {
            assert(s[k] == right[k - j]);
        }
        lemma_trim_reaches_from(s, i, j);
        assert(s.subrange(i, j) =~= text);
    } else {
        let (a, b) = lemma_trim_bounds(s);
        if trim(s).len() > 0 {
            if a < i {
                assert(s[a] == left[a]);
            } else {
                assert(s[a] == right[a - i]);
            }
        }
        assert(trim(s) =~= text);
    }
}

/// Every text is what trimming leaves of it, with white space round it.
pub proof fn law_trimming_takes_no_more(s: Seq<char>) -> (parts: (Seq<char>, Seq<char>))
    ensures
        s == parts.0 + trim(s) + parts.1,
        is_blank_text(parts.0),
        is_blank_text(parts.1),
        trim(s).len() == 0 || is_tight(trim(s)),
{
    let (i, j) = lemma_trim_bounds(s);
    if trim(s).len() > 0 {
        let parts = (s.take(i), s.skip(j));
        assert(s =~= parts.0 + trim(s) + parts.1);
        assert forall|k: int| 0 <= k < parts.1.len() implies white_space(#[trigger] parts.1[k]) by {
            assert(parts.1[k] == s[j + k]);
        }
        assert(trim(s)[0] == s[i] && trim(s)[trim(s).len() - 1] == s[j - 1]);
        parts
    } else {
        let parts = (s, Seq::<char>::empty());
        assert(s =~= parts.0 + trim(s) + parts.1);
        parts
    }
}

// ---------------------------------------------------------------------------------------------
// Lines
// ---------------------------------------------------------------------------------------------

/// The texts of several pieces.
pub open spec fn pieces_of(s: Seq<char>, ranges: Seq<(int, int)>) -> Seq<Seq<char>> {
    Seq::new(ranges.len(), |k: int| piece(s, ranges[k]))
}

/// What stands behind the first part of several that are joined.
pub(crate) proof fn lemma_join_first(parts: Seq<Seq<char>>, separator: Seq<char>)
    requires
        parts.len() > 1,
    ensures
        join(parts, separator) == parts[0] + separator + join(parts.drop_first(), separator),
    decreases parts.len(),
{
    let rest = parts.drop_first();
    if parts.len() == 2 {
        assert(parts.drop_last() =~= seq![parts[0]]);
        assert(rest =~= seq![parts[1]]);
        reveal_with_fuel(join, 2);
        assert(join(parts, separator) =~= parts[0] + separator + join(rest, separator));
    } else {
        let front = parts.drop_last();
        lemma_join_first(front, separator);
        assert(front.drop_first() =~= rest.drop_last());
        assert(join(parts, separator) =~= parts[0] + separator + join(rest, separator));
    }
}

proof fn lemma_pieces_join_to(s: Seq<char>, c: char, start: int)
    requires
        0 <= start <= s.len(),
    ensures
        join(pieces_of(s, split_from(s, c, start)), seq![c]) == s.skip(start),
    decreases s.len() - start,
{
    let ranges = split_from(s, c, start);
    let parts = pieces_of(s, ranges);
    lemma_find_char(s, c, start);
    match find_char(s, c, start) {
        Some(at) => {
            lemma_pieces_join_to(s, c, at + 1);
            lemma_split_from(s, c, at + 1);
            let rest = split_from(s, c, at + 1);
            assert(ranges =~= seq![(start, at)] + rest);
            assert(parts.drop_first() =~= pieces_of(s, rest));
            assert(parts[0] == s.subrange(start, at));
            lemma_join_first(parts, seq![c]);
            assert(s.skip(start) =~= s.subrange(start, at) + seq![c] + s.skip(at + 1));
        },
        None => {
            assert(parts =~= seq![s.skip(start)]);
        },
    }
}

/// The lines of a text, with a newline between each two, are the text, and no line holds a newline.
pub proof fn law_lines_make_the_text(s: Seq<char>)
    ensures
        lines(s).len() > 0,
        join(pieces_of(s, lines(s)), seq!['\n']) == s,
        forall|k: int, i: int|
            0 <= k < lines(s).len() && 0 <= i < pieces_of(s, lines(s))[k].len() ==> #[trigger]
            pieces_of(s, lines(s))[k][i] != '\n',
{
    lemma_split_from(s, '\n', 0);
    lemma_pieces_join_to(s, '\n', 0);
    assert(s.skip(0) =~= s);
    assert forall|k: int, i: int|
        0 <= k < lines(s).len() && 0 <= i < pieces_of(s, lines(s))[k].len() implies #[trigger]
    pieces_of(s, lines(s))[k][i] != '\n' by {
        lemma_piece_ends(s, '\n', k);
        assert(pieces_of(s, lines(s))[k][i] == s[lines(s)[k].0 + i]);
    }
}

proof fn lemma_text_lines_behind(front: Seq<char>, s: Seq<char>, i: int)
    requires
        0 <= i <= s.len(),
        front.len() > 0 ==> front[front.len() - 1] == '\n',
    ensures
        pieces_of(front + s, text_lines_from(front + s, front.len() + i)) == pieces_of(
            s,
            text_lines_from(s, i),
        ),
    decreases s.len() - i,
{
    let all = front + s;
    let n = front.len() as int;
    let there = text_lines_from(all, n + i);
    let here = text_lines_from(s, i);
    if i < s.len() {
        lemma_find_char(s, '\n', i);
        lemma_find_char(all, '\n', n + i);
        match find_char(s, '\n', i) {
            Some(at) => {
                assert(all[n + at] == s[at]);
                let found = find_char(all, '\n', n + i)->0;
                if found < n + at {
                    assert(all[found] == s[found - n]);
                }
                assert(found == n + at);
                if i < at {
                    assert(all[n + at - 1] == s[at - 1]);
                }
                lemma_text_lines_behind(front, s, at + 1);
                let rest = text_lines_from(s, at + 1);
                let other = text_lines_from(all, n + at + 1);
                assert(here =~= seq![here[0]] + rest);
                assert(there =~= seq![there[0]] + other);
                assert(piece(all, there[0]) =~= piece(s, here[0]));
                assert(pieces_of(all, other).len() == pieces_of(s, rest).len());
                assert forall|k: int| 0 <= k < here.len() implies pieces_of(all, there)[k]
                    == #[trigger] pieces_of(s, here)[k] by {
                    if k > 0 {
                        assert(pieces_of(all, other)[k - 1] == pieces_of(s, rest)[k - 1]);
                    }
                }
                assert(pieces_of(all, there) =~= pieces_of(s, here));
            },
            None => {
                match find_char(all, '\n', n + i) {
                    Some(found) => {
                        assert(all[found] == s[found - n]);
                    },
                    None => {},
                }
                assert(piece(all, there[0]) =~= piece(s, here[0]));
                assert(pieces_of(all, there) =~= pieces_of(s, here));
            },
        }
    } else {
        assert(pieces_of(all, there) =~= pieces_of(s, here));
    }
}

/// The lines of a text without their line endings: a line, its ending, and then the lines of the
/// rest. An ending is a newline, with a carriage return before it or without.
pub proof fn law_a_line_ends_at_its_newline(line: Seq<char>, with_return: bool, rest: Seq<char>)
    requires
        forall|k: int| 0 <= k < line.len() ==> #[trigger] line[k] != '\n',
        with_return || line.len() == 0 || line[line.len() - 1] != '\r',
    ensures
        ({
            let ending = if with_return {
                seq!['\r', '\n']
            } else {
                seq!['\n']
            };
            let s = line + ending + rest;
            pieces_of(s, text_lines(s)) == seq![line] + pieces_of(rest, text_lines(rest))
        }),
{
    let ending = if with_return {
        seq!['\r', '\n']
    } else {
        seq!['\n']
    };
    let front = line + ending;
    let s = front + rest;
    let at = front.len() - 1;
    assert(s =~= line + ending + rest);
    assert(s[at] == '\n');
    lemma_find_char(s, '\n', 0);
    let found = find_char(s, '\n', 0)->0;
    if found < at {
        if found < line.len() {
            assert(s[found] == line[found]);
        }
    }
    assert(found == at);
    if with_return {
        assert(s[at - 1] == '\r');
    } else if line.len() > 0 {
        assert(s[at - 1] == line[line.len() - 1]);
    }
    lemma_text_lines_behind(front, rest, 0);
    let behind = text_lines_from(s, at + 1);
    let all = text_lines(s);
    assert(all =~= seq![(0int, line.len() as int)] + behind);
    assert(piece(s, all[0]) =~= line);
    assert(pieces_of(s, all) =~= seq![line] + pieces_of(s, behind));
}

/// A text without a newline is its only line, and an empty one has none.
pub proof fn law_the_last_line_needs_no_newline(line: Seq<char>)
    requires
        forall|k: int| 0 <= k < line.len() ==> #[trigger] line[k] != '\n',
    ensures
        pieces_of(line, text_lines(line)) == if line.len() == 0 {
            Seq::empty()
        } else {
            seq![line]
        },
{
    lemma_find_char(line, '\n', 0);
    if line.len() > 0 {
        assert(piece(line, (0, line.len() as int)) =~= line);
        assert(pieces_of(line, text_lines(line)) =~= seq![line]);
    } else {
        assert(pieces_of(line, text_lines(line)) =~= Seq::empty());
    }
}

// ---------------------------------------------------------------------------------------------
// Joining
// ---------------------------------------------------------------------------------------------

/// Joining puts the separator between each two parts, and nothing before the first or behind the
/// last.
pub proof fn law_one_more_part_is_joined(parts: Seq<Seq<char>>, part: Seq<char>, separator: Seq<char>)
    ensures
        join(parts.push(part), separator) == if parts.len() == 0 {
            part
        } else {
            join(parts, separator) + separator + part
        },
{
    let all = parts.push(part);
    assert(all.drop_last() =~= parts);
}

} // verus!
