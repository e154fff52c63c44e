//! What is read of a pipe table, said of its lines as they are written.

use crate::delimiter_laws::{
    lemma_body_bounds, lemma_delimiter_cell, lemma_line_of_delimiter_cells, lemma_piece_around,
    lemma_piece_ends, lemma_trim_bounds,
};
use crate::table::{
    alignment_of, delimiter_body, delimiter_line, is_delimiter_cell, is_table_line, line_alignments,
    row_cells, segments_from, without_blank_start, CellAlignment,
};
use crate::table_edit::{delimiter_marker, ends_in_escape, escaped};
use crate::table_round_trip::{escape_after, lemma_segments_skip, pipe_free};
use crate::text::{
    join, lemma_find_char, lemma_run_end, lemma_run_start, piece, run_end, run_start, split, trim,
    trim_end_by, trim_start_by, white_space, CharClass,
};
use crate::text_laws::{
    is_blank_text, is_tight, law_trimming_takes_the_outer_blanks, lemma_join_first, pieces_of,
};
use vstd::prelude::*;

verus! {

// ---------------------------------------------------------------------------------------------
// Alignments
// ---------------------------------------------------------------------------------------------

/// A delimiter cell, whatever white space is round it and however many dashes it has, asks for the
/// middle with a colon at both ends, for the left with one at its start only, for the right with one
/// at its end only, and for nothing with none.
pub proof fn law_colons_decide_the_alignment(left: Seq<char>, text: Seq<char>, right: Seq<char>)
    requires
        is_blank_text(left),
        is_blank_text(right),
        is_tight(text),
    ensures
        ({
            let starts = text[0] == ':';
            let ends = text[text.len() - 1] == ':';
            let alignment = alignment_of(left + text + right);
            &&& (alignment == CellAlignment::Center) == (starts && ends)
            &&& (alignment == CellAlignment::Left) == (starts && !ends)
            &&& (alignment == CellAlignment::Right) == (!starts && ends)
            &&& (alignment == CellAlignment::Unset) == (!starts && !ends)
        }),
{
    law_trimming_takes_the_outer_blanks(left, text, right);
}

/// The delimiter cell that is written for what another one asks for has a colon at its start where
/// that has one, and at its end where that has one.
pub proof fn law_a_rewritten_delimiter_cell_keeps_its_colons(
    left: Seq<char>,
    text: Seq<char>,
    right: Seq<char>,
)
    requires
        is_blank_text(left),
        is_blank_text(right),
        is_tight(text),
    ensures
        ({
            let written = delimiter_marker(alignment_of(left + text + right));
            &&& written.len() > 0
            &&& (written[0] == ':') == (text[0] == ':')
            &&& (written[written.len() - 1] == ':') == (text[text.len() - 1] == ':')
        }),
{
    law_trimming_takes_the_outer_blanks(left, text, right);
}

/// A delimiter line asks for one alignment for each of its cells, in their order.
pub proof fn law_a_delimiter_line_aligns_each_column(line: Seq<char>, k: int)
    requires
        0 <= k < row_cells(line).len(),
    ensures
        line_alignments(line).len() == row_cells(line).len(),
        line_alignments(line)[k] == alignment_of(piece(line, row_cells(line)[k])),
{
}

// ---------------------------------------------------------------------------------------------
// Delimiter rows
// ---------------------------------------------------------------------------------------------

/// So many of one character.
pub open spec fn repeated(c: char, count: nat) -> Seq<char> {
    Seq::new(count, |i: int| c)
}

/// Dashes, one or more, with colons at either end or none, make a delimiter cell, whatever white
/// space is round them.
pub proof fn law_dashes_make_a_delimiter_cell(
    left: Seq<char>,
    before: nat,
    dashes: nat,
    behind: nat,
    right: Seq<char>,
)
    requires
        is_blank_text(left),
        is_blank_text(right),
        dashes > 0,
    ensures
        is_delimiter_cell(
            left + (repeated(':', before) + repeated('-', dashes) + repeated(':', behind)) + right,
        ),
{
    let text = repeated(':', before) + repeated('-', dashes) + repeated(':', behind);
    let colon = CharClass::Only(':');
    assert(text[0] == ':' || text[0] == '-');
    assert(text[text.len() - 1] == ':' || text[text.len() - 1] == '-');
    law_trimming_takes_the_outer_blanks(left, text, right);
    lemma_run_end(text, colon, 0);
    assert(run_end(text, colon, 0) == before) by {
        let end = run_end(text, colon, 0);
        assert(text[before as int] == '-');
        if end < before {
            assert(text[end] == ':');
        } else if before < end {
            assert(colon.holds(text[before as int]));
        }
    }
    let rest = trim_start_by(text, colon);
    assert(rest =~= repeated('-', dashes) + repeated(':', behind));
    lemma_run_start(rest, colon, rest.len() as int);
    let start = run_start(rest, colon, rest.len() as int);
    assert(start == dashes) by {
        assert(rest[dashes - 1] == '-');
        if start > dashes {
            assert(rest[start - 1] == ':');
        } else if start < dashes {
            assert(colon.holds(rest[dashes - 1]));
        }
    }
    assert(trim_end_by(rest, colon) =~= repeated('-', dashes));
}

/// A line whose every cell is made of dashes delimits a header.
pub proof fn law_a_row_of_dashes_delimits(line: Seq<char>)
    requires
        forall|k: int|
            0 <= k < row_cells(line).len() ==> is_delimiter_cell(
                piece(line, #[trigger] row_cells(line)[k]),
            ),
    ensures
        delimiter_line(line),
{
    lemma_line_of_delimiter_cells(line);
}

/// A line that holds anything but pipes, dashes, colons and white space delimits nothing.
pub proof fn law_anything_else_delimits_nothing(line: Seq<char>, i: int)
    requires
        0 <= i < line.len(),
        !white_space(line[i]),
        line[i] != '|',
        line[i] != '-',
        line[i] != ':',
    ensures
        !delimiter_line(line),
{
    let whole = lemma_trim_bounds(line);
    let (x, p, q, y) = lemma_body_bounds(line);
    let body = delimiter_body(line);
    assert(p <= i < q);
    assert(body[i - p] == line[i]);
    let k = lemma_piece_around(body, '|', 0, i - p);
    lemma_piece_ends(body, '|', k);
    let (a, b) = split(body, '|')[k];
    let cell = piece(body, (a, b));
    assert(cell[i - p - a] == line[i]);
    if delimiter_line(line) {
        assert(is_delimiter_cell(piece(body, split(body, '|')[k])));
        lemma_delimiter_cell(cell);
    }
}

/// A line may belong to a table where it has a pipe, and only there.
pub proof fn law_a_table_line_has_a_pipe(line: Seq<char>)
    ensures
        is_table_line(line) == exists|i: int| 0 <= i < line.len() && #[trigger] line[i] == '|',
{
    lemma_find_char(line, '|', 0);
    let bounds = lemma_trim_bounds(line);
}

// ---------------------------------------------------------------------------------------------
// Rows
// ---------------------------------------------------------------------------------------------

/// Whether a text can stand between two pipes of a row: it has no unescaped pipe, and does not end
/// in a backslash that would escape the next one.
pub open spec fn stands_between_pipes(text: Seq<char>) -> bool {
    pipe_free(text, 0, false) && !escape_after(text, 0, false)
}

proof fn lemma_segments_of_joined(front: Seq<char>, parts: Seq<Seq<char>>)
    requires
        parts.len() > 0,
        forall|k: int| 0 <= k < parts.len() ==> stands_between_pipes(#[trigger] parts[k]),
    ensures
        ({
            let line = front + join(parts, seq!['|']);
            let start = front.len() as int;
            pieces_of(line, segments_from(line, start, start, false)) == parts
        }),
    decreases parts.len(),
{
    let line = front + join(parts, seq!['|']);
    let start = front.len() as int;
    let first = parts[0];
    let at = start + first.len();
    let segments = segments_from(line, start, start, false);
    if parts.len() == 1 {
        assert(parts =~= seq![first]);
        assert(line =~= front + first);
        lemma_segments_skip(line, start, start, first, 0, false);
        assert(segments =~= seq![(start, at)]);
        assert(piece(line, (start, at)) =~= first);
        assert(pieces_of(line, segments) =~= parts);
    } else {
        let rest = parts.drop_first();
        lemma_join_first(parts, seq!['|']);
        let before = front + first + seq!['|'];
        assert(line =~= before + join(rest, seq!['|']));
        assert forall|k: int| 0 <= k < rest.len() implies stands_between_pipes(
            #[trigger] rest[k],
        ) by {
            assert(rest[k] == parts[k + 1]);
        }
        lemma_segments_of_joined(before, rest);
        assert forall|k: int| 0 <= k < first.len() implies line[start + k] == #[trigger] first[k] by {
        }
        lemma_segments_skip(line, start, start, first, 0, false);
        assert(line[at] == '|');
        let behind = segments_from(line, at + 1, at + 1, false);
        assert(segments =~= seq![(start, at)] + behind);
        assert(piece(line, (start, at)) =~= first);
        assert(pieces_of(line, behind) == rest);
        assert(pieces_of(line, segments) =~= seq![first] + pieces_of(line, behind));
        assert(seq![first] + rest =~= parts);
    }
}

/// The cells of a row with pipes at both ends are what stands between its pipes, blank or not, but
/// for escaped ones.
pub proof fn law_a_row_between_pipes_has_its_cells(
    left: Seq<char>,
    cells: Seq<Seq<char>>,
    right: Seq<char>,
)
    requires
        is_blank_text(left),
        is_blank_text(right),
        cells.len() > 0,
        forall|k: int| 0 <= k < cells.len() ==> stands_between_pipes(#[trigger] cells[k]),
    ensures
        ({
            let line = join(seq![left] + cells + seq![right], seq!['|']);
            pieces_of(line, row_cells(line)) == cells
        }),
{
    let parts = seq![left] + cells + seq![right];
    let line = join(parts, seq!['|']);
    lemma_blank_is_plain(left, 0);
    lemma_blank_is_plain(right, 0);
    assert forall|k: int| 0 <= k < parts.len() implies stands_between_pipes(#[trigger] parts[k]) by {
        if 0 < k < parts.len() - 1 {
            assert(parts[k] == cells[k - 1]);
        }
    }
    lemma_segments_of_joined(Seq::empty(), parts);
    assert(Seq::<char>::empty() + line =~= line);
    let segments = segments_from(line, 0, 0, false);
    assert(pieces_of(line, segments).len() == segments.len());
    assert(piece(line, segments[0]) == pieces_of(line, segments)[0]);
    assert(piece(line, segments[0]) == left);
    law_trimming_takes_the_outer_blanks(left, Seq::empty(), Seq::empty());
    assert(left + Seq::<char>::empty() + Seq::<char>::empty() =~= left);
    law_trimming_takes_the_outer_blanks(right, Seq::empty(), Seq::empty());
    assert(right + Seq::<char>::empty() + Seq::<char>::empty() =~= right);
    let opened = without_blank_start(line, segments);
    assert(opened =~= segments.drop_first());
    assert(opened.last() == segments[segments.len() - 1]);
    assert(piece(line, opened.last()) == pieces_of(line, segments)[segments.len() - 1]);
    assert(piece(line, opened.last()) == right);
    let kept = row_cells(line);
    assert(kept =~= opened.drop_last());
    assert forall|k: int| 0 <= k < cells.len() implies pieces_of(line, kept)[k]
        == #[trigger] cells[k] by {
        assert(kept[k] == segments[k + 1]);
        assert(pieces_of(line, segments)[k + 1] == parts[k + 1]);
    }
    assert(pieces_of(line, kept) =~= cells);
}

/// The cells of a row without pipes at its ends are what stands between its pipes.
pub proof fn law_a_row_without_outer_pipes_has_its_cells(cells: Seq<Seq<char>>)
    requires
        cells.len() > 0,
        forall|k: int| 0 <= k < cells.len() ==> stands_between_pipes(#[trigger] cells[k]),
        trim(cells[0]).len() > 0,
        trim(cells[cells.len() - 1]).len() > 0,
    ensures
        ({
            let line = join(cells, seq!['|']);
            pieces_of(line, row_cells(line)) == cells
        }),
{
    let line = join(cells, seq!['|']);
    lemma_segments_of_joined(Seq::empty(), cells);
    assert(Seq::<char>::empty() + line =~= line);
    let segments = segments_from(line, 0, 0, false);
    assert(pieces_of(line, segments).len() == segments.len());
    assert(piece(line, segments[0]) == pieces_of(line, segments)[0]);
    assert(piece(line, segments.last()) == pieces_of(line, segments)[segments.len() - 1]);
    assert(row_cells(line) =~= segments);
}

proof fn lemma_blank_is_plain(s: Seq<char>, i: int)
    requires
        is_blank_text(s),
        0 <= i <= s.len(),
    ensures
        pipe_free(s, i, false),
        !escape_after(s, i, false),
    decreases s.len() - i,
{
    if i < s.len() {
        assert(white_space(s[i]));
        lemma_blank_is_plain(s, i + 1);
    }
}

// ---------------------------------------------------------------------------------------------
// Writing a cell
// ---------------------------------------------------------------------------------------------

/// Writing one more character into a cell writes that character behind the others: a newline as a
/// blank, and a pipe that nothing escapes yet behind a backslash.
pub proof fn law_one_more_character_is_written(edited: Seq<char>, c: char)
    ensures
        escaped(Seq::empty()) == Seq::<char>::empty(),
        c == '\n' ==> escaped(edited.push(c)) == escaped(edited).push(' '),
        c == '|' && !ends_in_escape(edited) ==> escaped(edited.push(c)) == escaped(edited).push(
            '\\',
        ).push('|'),
        c == '|' && ends_in_escape(edited) ==> escaped(edited.push(c)) == escaped(edited).push('|'),
        c != '\n' && c != '|' ==> escaped(edited.push(c)) == escaped(edited).push(c),
{
    let longer = edited.push(c);
    assert(longer.drop_last() =~= edited);
    assert(escaped(longer) =~= escaped(edited) + crate::table_edit::escaped_char(
        c,
        ends_in_escape(edited),
    ));
    if c == '|' && !ends_in_escape(edited) {
        assert(escaped(longer) =~= escaped(edited).push('\\').push('|'));
    } else if c == '\n' {
        assert(escaped(longer) =~= escaped(edited).push(' '));
    } else {
        assert(escaped(longer) =~= escaped(edited).push(c));
    }
}

/// A backslash escapes what stands behind it unless a backslash escapes it: where a text ends in a
/// run of backslashes behind another character, their number is odd.
pub proof fn law_an_odd_run_of_backslashes_escapes(front: Seq<char>, count: nat)
    requires
        front.len() == 0 || front[front.len() - 1] != '\\',
    ensures
        ends_in_escape(front + repeated('\\', count)) == (count % 2 == 1),
    decreases count,
{
    let s = front + repeated('\\', count);
    if count == 0 {
        assert(s =~= front);
    } else {
        law_an_odd_run_of_backslashes_escapes(front, (count - 1) as nat);
        assert(s.drop_last() =~= front + repeated('\\', (count - 1) as nat));
        assert(s.last() == '\\');
    }
}

} // verus!
