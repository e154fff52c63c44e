//! A written table reads back as the table that was written.

use crate::table::{
    alignment_of, block_bottom, block_top, body_cells, delimiter_body, delimiter_line,
    first_delimiter, is_blank, is_delimiter_cell, is_table_line, lemma_row_cells, line_alignments,
    line_cells, longest, range_in_line, resized, row_cells, row_near, segments_from, table_near,
    table_with, without_blank_start, CellAlignment,
};
use crate::table_edit::{
    cell_content, cells_content, changed, changed_source, content_of, delimiter_marker,
    delimiter_markers, fresh_table, normalized, written_cell, written_cells, written_row,
    written_table, TableContent, TableStructuralChange,
};
use crate::table_laws::{law_a_changed_table_is_rectangular, rectangular};
use crate::text::{
    byte_offset, find_char, lemma_byte_offset_grows, lemma_find_char, lemma_index_at, lemma_run_end,
    lemma_run_start, lemma_split_from, lemma_trim_is_tight, lemma_trim_of_padded,
    lemma_trim_of_tight, lines, piece, run_end, run_start, split, split_from, trim, trim_end_by,
    trim_start_by, white_space, CharClass,
};
use vstd::prelude::*;

verus! {

// ---------------------------------------------------------------------------------------------
// Pipes
// ---------------------------------------------------------------------------------------------

/// Whether the text from `i` on holds no unescaped pipe.
pub open spec fn pipe_free(s: Seq<char>, i: int, escaped: bool) -> bool
    decreases s.len() - i,
{
    if i < 0 || i >= s.len() {
        true
    } else if !escaped && s[i] == '|' {
        false
    } else {
        pipe_free(s, i + 1, !escaped && s[i] == '\\')
    }
}

/// Whether the character behind the text is escaped.
pub open spec fn escape_after(s: Seq<char>, i: int, escaped: bool) -> bool
    decreases s.len() - i,
{
    if i < 0 || i >= s.len() {
        escaped
    } else {
        escape_after(s, i + 1, !escaped && s[i] == '\\')
    }
}

/// A text that a cell can hold: trimmed, on one line, and with no unescaped pipe.
pub open spec fn plain_cell(cell: Seq<char>) -> bool {
    &&& trim(cell) == cell
    &&& pipe_free(cell, 0, false)
    &&& forall|i: int| 0 <= i < cell.len() ==> #[trigger] cell[i] != '\n'
}

/// Every one of several cells is plain.
pub open spec fn plain_cells(cells: Seq<Seq<char>>) -> bool {
    forall|k: int| 0 <= k < cells.len() ==> plain_cell(#[trigger] cells[k])
}

/// A table whose cells are all plain.
pub open spec fn plain_table(table: TableContent) -> bool {
    &&& plain_cells(table.header)
    &&& forall|r: int| 0 <= r < table.rows.len() ==> plain_cells(#[trigger] table.rows[r])
}

/// Segments go on past a stretch with no unescaped pipe.
pub(crate) proof fn lemma_segments_skip(
    line: Seq<char>,
    start: int,
    base: int,
    part: Seq<char>,
    i: int,
    escaped: bool,
)
    requires
        0 <= base,
        base + part.len() <= line.len(),
        forall|k: int| 0 <= k < part.len() ==> line[base + k] == #[trigger] part[k],
        0 <= i <= part.len(),
        pipe_free(part, i, escaped),
    ensures
        segments_from(line, start, base + i, escaped) == segments_from(
            line,
            start,
            base + part.len(),
            escape_after(part, i, escaped),
        ),
    decreases part.len() - i,
{
    if i < part.len() {
        assert(line[base + i] == part[i]);
        lemma_segments_skip(line, start, base, part, i + 1, !escaped && part[i] == '\\');
    }
}

/// What stands between the padding of a written cell.
pub open spec fn cell_body(cell: Seq<char>) -> Seq<char> {
    if cell.len() == 0 {
        seq![' ']
    } else {
        cell
    }
}

/// Where the `k`th cell of a written row starts.
pub open spec fn cell_start(cells: Seq<Seq<char>>, k: int) -> int {
    written_cells(cells.take(k)).len() + 1int
}

/// A written row holds its cells one behind the other.
pub(crate) proof fn lemma_written_cells(cells: Seq<Seq<char>>, k: int)
    requires
        0 <= k < cells.len(),
    ensures
        cell_start(cells, k + 1) == cell_start(cells, k) + written_cell(cells[k]).len(),
        cell_start(cells, k + 1) <= written_row(cells).len(),
        written_row(cells).subrange(cell_start(cells, k), cell_start(cells, k + 1))
            == written_cell(cells[k]),
    decreases cells.len(),
{
    assert(cells.take(k + 1).drop_last() =~= cells.take(k));
    assert(cells.take(k + 1).last() == cells[k]);
    if k + 1 == cells.len() {
        assert(cells.take(k + 1) =~= cells);
        assert(written_row(cells).subrange(cell_start(cells, k), cell_start(cells, k + 1))
            =~= written_cell(cells[k]));
    } else {
        let shorter = cells.drop_last();
        lemma_written_cells(shorter, k);
        assert(shorter.take(k) =~= cells.take(k));
        assert(shorter.take(k + 1) =~= cells.take(k + 1));
        assert(written_row(cells) =~= written_row(shorter) + written_cell(cells.last()));
        assert(written_row(cells).subrange(cell_start(cells, k), cell_start(cells, k + 1))
            =~= written_row(shorter).subrange(cell_start(cells, k), cell_start(cells, k + 1)));
    }
}

/// The segments of a written row from its `k`th cell on.
proof fn lemma_segments_of_written(cells: Seq<Seq<char>>, k: int)
    requires
        plain_cells(cells),
        0 <= k <= cells.len(),
    ensures
        ({
            let line = written_row(cells);
            segments_from(line, cell_start(cells, k), cell_start(cells, k), false) == Seq::new(
                (cells.len() - k) as nat,
                |j: int| (cell_start(cells, k + j), cell_start(cells, k + j + 1) - 1),
            ).push((line.len() as int, line.len() as int))
        }),
    decreases cells.len() - k,
{
    let line = written_row(cells);
    let start = cell_start(cells, k);
    let all = Seq::new(
        (cells.len() - k) as nat,
        |j: int| (cell_start(cells, k + j), cell_start(cells, k + j + 1) - 1),
    ).push((line.len() as int, line.len() as int));
    if k == cells.len() {
        assert(cells.take(k) =~= cells);
        assert(segments_from(line, start, start, false) =~= all);
    } else {
        lemma_written_cells(cells, k);
        lemma_segments_of_written(cells, k + 1);
        let next = cell_start(cells, k + 1);
        let written = written_cell(cells[k]);
        let body = cell_body(cells[k]);
        assert(written =~= seq![' '] + body + seq![' ', '|']);
        assert forall|i: int| 0 <= i < written.len() implies line[start + i]
            == #[trigger] written[i] by {
            assert(line.subrange(start, next)[i] == written[i]);
        }
        assert(line[start] == written[0]);
        assert forall|i: int| 0 <= i < body.len() implies line[start + 1 + i]
            == #[trigger] body[i] by {
            assert(written[i + 1] == body[i]);
        }
        assert(pipe_free(body, 0, false)) by {
            reveal_with_fuel(pipe_free, 2);
            assert(plain_cell(cells[k]));
        }
        lemma_segments_skip(line, start, start + 1, body, 0, false);
        assert(line[next - 2] == written[written.len() - 2]);
        assert(line[next - 1] == written[written.len() - 1]);
        assert(segments_from(line, start, start, false) == segments_from(
            line,
            start,
            next - 2,
            escape_after(body, 0, false),
        ));
        assert(segments_from(line, start, start, false) == segments_from(
            line,
            start,
            next - 1,
            false,
        ));
        assert(segments_from(line, start, start, false) == seq![(start, next - 1)]
            + segments_from(line, next, next, false));
        let rest = segments_from(line, next, next, false);
        assert(seq![(start, next - 1)] + rest =~= all) by {
            assert forall|j: int| 0 <= j < all.len() implies (seq![(start, next - 1)] + rest)[j]
                == #[trigger] all[j] by {
                if j > 0 && j < all.len() - 1 {
                    assert(rest[j - 1] == (
                        cell_start(cells, k + 1 + (j - 1)),
                        cell_start(cells, k + 1 + (j - 1) + 1) - 1,
                    ));
                }
            }
        }
    }
}

/// A written row is read back cell by cell.
pub(crate) proof fn lemma_written_row_reads_back(cells: Seq<Seq<char>>)
    requires
        plain_cells(cells),
        cells.len() > 0,
    ensures
        ({
            let line = written_row(cells);
            &&& row_cells(line).len() == cells.len()
            &&& forall|k: int|
                0 <= k < cells.len() ==> trim(piece(line, #[trigger] row_cells(line)[k]))
                    == cells[k]
        }),
{
    let line = written_row(cells);
    lemma_segments_of_written(cells, 0);
    assert(cells.take(0) =~= Seq::empty());
    assert(cell_start(cells, 0) == 1);
    let inner = Seq::new(
        cells.len(),
        |j: int| (cell_start(cells, 0 + j), cell_start(cells, 0 + j + 1) - 1),
    ).push((line.len() as int, line.len() as int));
    let segments = segments_from(line, 0, 0, false);
    assert(line[0] == '|');
    assert(segments =~= seq![(0int, 0int)] + inner);
    assert(piece(line, (0, 0)) =~= Seq::empty());
    assert(trim(Seq::<char>::empty()) =~= Seq::empty());
    assert(is_blank(line, segments[0]));
    let opened = without_blank_start(line, segments);
    assert(opened =~= inner);
    assert(opened.last() == (line.len() as int, line.len() as int));
    assert(piece(line, opened.last()) =~= Seq::empty());
    assert(row_cells(line) =~= inner.drop_last());
    assert forall|k: int| 0 <= k < cells.len() implies trim(
        piece(line, #[trigger] row_cells(line)[k]),
    ) == cells[k] by {
        lemma_written_cells(cells, k);
        let start = cell_start(cells, k);
        let next = cell_start(cells, k + 1);
        assert(row_cells(line)[k] == (start, next - 1));
        let written = line.subrange(start, next);
        assert(piece(line, (start, next - 1)) =~= written.take(written.len() - 1));
        assert(plain_cell(cells[k]));
        lemma_trim_of_padded(cells[k]);
        if cells[k].len() == 0 {
            assert(written.take(written.len() - 1) =~= seq![' ', ' ', ' ']);
        } else {
            assert(written.take(written.len() - 1) =~= seq![' '] + cells[k] + seq![' ']);
        }
    }
}

// ---------------------------------------------------------------------------------------------
// Lines
// ---------------------------------------------------------------------------------------------

/// A search in a longer text finds what it found in its start, else what comes first behind.
proof fn lemma_find_char_append(s: Seq<char>, c: char, t: Seq<char>, from: int)
    requires
        0 <= from <= s.len(),
    ensures
        find_char(s + seq![c] + t, c, from) == match find_char(s, c, from) {
            Some(at) => Some(at),
            None => Some(s.len() as int),
        },
    decreases s.len() - from,
{
    let longer = s + seq![c] + t;
    if from < s.len() {
        assert(longer[from] == s[from]);
        if s[from] != c {
            lemma_find_char_append(s, c, t, from + 1);
        }
    } else {
        assert(longer[from] == c);
    }
}

/// Splitting a text with one more piece behind it.
proof fn lemma_split_append(s: Seq<char>, c: char, t: Seq<char>, start: int)
    requires
        0 <= start <= s.len(),
        forall|i: int| 0 <= i < t.len() ==> #[trigger] t[i] != c,
    ensures
        split_from(s + seq![c] + t, c, start) == split_from(s, c, start).push(
            (s.len() + 1int, s.len() + 1int + t.len()),
        ),
    decreases s.len() - start,
{
    let longer = s + seq![c] + t;
    let last = (s.len() + 1int, s.len() + 1int + t.len());
    lemma_find_char(s, c, start);
    lemma_find_char_append(s, c, t, start);
    match find_char(s, c, start) {
        Some(at) => {
            lemma_split_append(s, c, t, at + 1);
            assert(split_from(longer, c, start) =~= split_from(s, c, start).push(last));
        },
        None => {
            lemma_find_char(longer, c, s.len() + 1int);
            match find_char(longer, c, s.len() + 1int) {
                Some(at) => {
                    assert(longer[at] == t[at - s.len() - 1]);
                },
                None => {},
            }
            assert(split_from(longer, c, s.len() + 1int) =~= seq![last]);
            assert(split_from(longer, c, start) =~= split_from(s, c, start).push(last));
        },
    }
}

/// A text without the separator is its only piece.
proof fn lemma_split_of_one(s: Seq<char>, c: char)
    requires
        forall|i: int| 0 <= i < s.len() ==> #[trigger] s[i] != c,
    ensures
        split(s, c) == seq![(0int, s.len() as int)],
{
    lemma_find_char(s, c, 0);
    assert(split(s, c) =~= seq![(0int, s.len() as int)]);
}

/// A character that stands in none of the cells stands in no written row, the padding and pipes
/// aside.
proof fn lemma_written_cells_without(cells: Seq<Seq<char>>, c: char)
    requires
        c != ' ' && c != '|',
        forall|k: int, i: int|
            0 <= k < cells.len() && 0 <= i < cells[k].len() ==> #[trigger] cells[k][i] != c,
    ensures
        forall|i: int| 0 <= i < written_cells(cells).len() ==> #[trigger] written_cells(cells)[i] != c,
        forall|i: int| 0 <= i < written_row(cells).len() ==> #[trigger] written_row(cells)[i] != c,
    decreases cells.len(),
{
    if cells.len() > 0 {
        let shorter = cells.drop_last();
        assert forall|k: int, i: int| 0 <= k < shorter.len() && 0 <= i
            < shorter[k].len() implies #[trigger] shorter[k][i] != c by {
            assert(shorter[k][i] == cells[k][i]);
        }
        lemma_written_cells_without(shorter, c);
        let last = cells.last();
        assert forall|i: int| 0 <= i < last.len() implies #[trigger] last[i] != c by {
            assert(cells[cells.len() - 1][i] != c);
        }
        assert forall|i: int| 0 <= i < written_cells(cells).len() implies #[trigger] written_cells(
            cells,
        )[i] != c by {
            let n = written_cells(shorter).len();
            if i < n {
                assert(written_cells(cells)[i] == written_cells(shorter)[i]);
            } else {
                assert(written_cells(cells)[i] == written_cell(last)[i - n]);
                if last.len() > 0 && 1 <= i - n < last.len() + 1 {
                    assert(written_cell(last)[i - n] == last[i - n - 1]);
                }
            }
        }
    }
}

/// A plain row is written on one line.
proof fn lemma_written_row_is_one_line(cells: Seq<Seq<char>>)
    requires
        plain_cells(cells),
    ensures
        forall|i: int| 0 <= i < written_row(cells).len() ==> #[trigger] written_row(cells)[i] != '\n',
{
    assert forall|k: int, i: int| 0 <= k < cells.len() && 0 <= i
        < cells[k].len() implies #[trigger] cells[k][i] != '\n' by {
        assert(plain_cell(cells[k]));
    }
    lemma_written_cells_without(cells, '\n');
}

/// The `k`th line of a table's source.
pub open spec fn table_line(table: TableContent, k: int) -> Seq<char> {
    if k == 0 {
        written_row(table.header)
    } else if k == 1 {
        written_row(delimiter_markers(table.alignments))
    } else {
        written_row(table.rows[k - 2])
    }
}

/// The markers of a delimiter row are plain cells.
pub(crate) proof fn lemma_markers_are_plain(alignments: Seq<CellAlignment>)
    ensures
        plain_cells(delimiter_markers(alignments)),
{
    let markers = delimiter_markers(alignments);
    assert forall|k: int| 0 <= k < markers.len() implies plain_cell(#[trigger] markers[k]) by {
        reveal_with_fuel(pipe_free, 4);
        lemma_trim_of_tight(markers[k]);
    }
}

/// The source of a table falls into its lines.
pub(crate) proof fn lemma_lines_of_written(table: TableContent)
    requires
        plain_table(table),
    ensures
        ({
            let s = written_table(table);
            &&& lines(s).len() == table.rows.len() + 2
            &&& forall|k: int|
                0 <= k < lines(s).len() ==> piece(s, #[trigger] lines(s)[k]) == table_line(
                    table,
                    k,
                )
        }),
    decreases table.rows.len(),
{
    let s = written_table(table);
    let markers = delimiter_markers(table.alignments);
    lemma_markers_are_plain(table.alignments);
    lemma_written_row_is_one_line(table.header);
    lemma_written_row_is_one_line(markers);
    let newline = seq!['\n'];
    if table.rows.len() == 0 {
        let head = written_row(table.header);
        let delimiter = written_row(markers);
        assert(s =~= head + newline + delimiter);
        lemma_split_of_one(head, '\n');
        lemma_split_append(head, '\n', delimiter, 0);
        assert(piece(s, lines(s)[0]) =~= head);
        assert(piece(s, lines(s)[1]) =~= delimiter);
    } else {
        let shorter = TableContent { rows: table.rows.drop_last(), ..table };
        assert(plain_table(shorter)) by {
            assert forall|r: int| 0 <= r < shorter.rows.len() implies plain_cells(
                #[trigger] shorter.rows[r],
            ) by {
                assert(shorter.rows[r] == table.rows[r]);
            }
        }
        lemma_lines_of_written(shorter);
        let t = written_table(shorter);
        let last = written_row(table.rows.last());
        assert(plain_cells(table.rows[table.rows.len() - 1]));
        lemma_written_row_is_one_line(table.rows.last());
        assert(s =~= t + newline + last);
        lemma_split_append(t, '\n', last, 0);
        lemma_split_from(t, '\n', 0);
        assert forall|k: int| 0 <= k < lines(s).len() implies piece(s, #[trigger] lines(s)[k])
            == table_line(table, k) by {
            if k < lines(t).len() {
                assert(lines(s)[k] == lines(t)[k]);
                assert(lines(t)[k].1 <= t.len());
                assert(piece(s, lines(s)[k]) =~= piece(t, lines(t)[k]));
                assert(table_line(table, k) == table_line(shorter, k));
            } else {
                assert(piece(s, lines(s)[k]) =~= last);
            }
        }
    }
}

/// A written row is a table line.
proof fn lemma_written_row_is_table_line(cells: Seq<Seq<char>>)
    ensures
        is_table_line(written_row(cells)),
{
    let line = written_row(cells);
    let ws = CharClass::Whitespace;
    assert(line[0] == '|');
    assert(find_char(line, '|', 0) == Some(0int));
    assert(trim_start_by(line, ws) =~= line);
    lemma_run_start(line, ws, line.len() as int);
    assert(run_start(line, ws, line.len() as int) > 0) by {
        if run_start(line, ws, line.len() as int) == 0 {
            assert(ws.holds(line[0]));
        }
    }
}

/// The pieces between the pipes of a written row without its outer ones.
pub(crate) proof fn lemma_split_of_inner(cells: Seq<Seq<char>>)
    requires
        cells.len() > 0,
        forall|k: int, i: int|
            0 <= k < cells.len() && 0 <= i < cells[k].len() ==> #[trigger] cells[k][i] != '|',
        forall|k: int| 0 <= k < cells.len() ==> (#[trigger] cells[k]).len() > 0,
    ensures
        ({
            let inner = written_cells(cells).drop_last();
            &&& split(inner, '|').len() == cells.len()
            &&& forall|k: int|
                0 <= k < cells.len() ==> piece(inner, #[trigger] split(inner, '|')[k]) == seq![' ']
                    + cells[k] + seq![' ']
        }),
    decreases cells.len(),
{
    let inner = written_cells(cells).drop_last();
    let last = seq![' '] + cells.last() + seq![' '];
    assert(cells.last() == cells[cells.len() - 1]);
    assert forall|i: int| 0 <= i < last.len() implies #[trigger] last[i] != '|' by {
        if 1 <= i < last.len() - 1 {
            assert(last[i] == cells[cells.len() - 1][i - 1]);
        }
    }
    if cells.len() == 1 {
        assert(cells.drop_last() =~= Seq::empty());
        assert(inner =~= last);
        lemma_split_of_one(inner, '|');
        assert(piece(inner, (0, inner.len() as int)) =~= last);
    } else {
        let shorter = cells.drop_last();
        assert forall|k: int, i: int| 0 <= k < shorter.len() && 0 <= i
            < shorter[k].len() implies #[trigger] shorter[k][i] != '|' by {
            assert(shorter[k][i] == cells[k][i]);
        }
        assert forall|k: int| 0 <= k < shorter.len() implies (#[trigger] shorter[k]).len() > 0 by {
            assert(shorter[k] == cells[k]);
        }
        lemma_split_of_inner(shorter);
        let before = written_cells(shorter).drop_last();
        lemma_written_cells(shorter, shorter.len() - 1);
        assert(shorter.take(shorter.len() as int) =~= shorter);
        assert(written_cells(shorter).last() == '|');
        assert(inner =~= before + seq!['|'] + last);
        lemma_split_append(before, '|', last, 0);
        lemma_split_from(before, '|', 0);
        assert forall|k: int| 0 <= k < cells.len() implies piece(
            inner,
            #[trigger] split(inner, '|')[k],
        ) == seq![' '] + cells[k] + seq![' '] by {
            if k < shorter.len() {
                assert(split(inner, '|')[k] == split(before, '|')[k]);
                assert(split(before, '|')[k].1 <= before.len());
                assert(piece(inner, split(inner, '|')[k]) =~= piece(before, split(before, '|')[k]));
            } else {
                assert(piece(inner, split(inner, '|')[k]) =~= last);
            }
        }
    }
}

/// A marker is a delimiter cell, padded or not, and asks for its alignment.
proof fn lemma_marker(alignment: CellAlignment, cell: Seq<char>)
    requires
        trim(cell) == delimiter_marker(alignment),
    ensures
        is_delimiter_cell(cell),
        alignment_of(cell) == alignment,
{
    reveal_with_fuel(run_end, 4);
    reveal_with_fuel(run_start, 4);
    let marker = delimiter_marker(alignment);
    let colon = CharClass::Only(':');
    let left = trim_start_by(marker, colon);
    match alignment {
        CellAlignment::Unset => {
            assert(left =~= seq!['-', '-', '-']);
            assert(trim_end_by(left, colon) =~= seq!['-', '-', '-']);
        },
        CellAlignment::Left => {
            assert(left =~= seq!['-', '-']);
            assert(trim_end_by(left, colon) =~= seq!['-', '-']);
        },
        CellAlignment::Center => {
            assert(left =~= seq!['-', ':']);
            assert(trim_end_by(left, colon) =~= seq!['-']);
        },
        CellAlignment::Right => {
            assert(left =~= seq!['-', '-', ':']);
            assert(trim_end_by(left, colon) =~= seq!['-', '-']);
        },
    }
}

/// A written delimiter row is one, and its cells ask for their alignments.
pub(crate) proof fn lemma_written_delimiter(alignments: Seq<CellAlignment>)
    requires
        alignments.len() > 0,
    ensures
        delimiter_line(written_row(delimiter_markers(alignments))),
        line_alignments(written_row(delimiter_markers(alignments))) == alignments,
{
    let markers = delimiter_markers(alignments);
    let line = written_row(markers);
    let pipe = CharClass::Only('|');
    lemma_markers_are_plain(alignments);
    lemma_written_row_reads_back(markers);
    assert forall|k: int| 0 <= k < alignments.len() implies alignments[k]
        == #[trigger] line_alignments(line)[k] by {
        assert(trim(piece(line, row_cells(line)[k])) == markers[k]);
        lemma_marker(alignments[k], piece(line, row_cells(line)[k]));
    }
    assert(line_alignments(line) =~= alignments);

    assert forall|k: int, i: int| 0 <= k < markers.len() && 0 <= i
        < markers[k].len() implies #[trigger] markers[k][i] != '|' by {
        assert(markers[k] == delimiter_marker(alignments[k]));
    }
    assert forall|k: int| 0 <= k < markers.len() implies (#[trigger] markers[k]).len() > 0 by {
        assert(markers[k] == delimiter_marker(alignments[k]));
    }
    lemma_split_of_inner(markers);
    let inner = written_cells(markers).drop_last();
    lemma_written_cells(markers, markers.len() - 1);
    lemma_written_cells(markers, 0);
    let last = written_cell(markers.last());
    assert(written_cells(markers) =~= written_cells(markers.drop_last()) + last);
    assert(last[last.len() - 1] == '|');
    assert(last[last.len() - 2] == ' ');
    assert(line.last() == '|');
    lemma_trim_of_tight(line);
    assert(markers.take(0) =~= Seq::empty());
    assert(line.subrange(cell_start(markers, 0), cell_start(markers, 1))[0] == ' ');
    assert(line[1] == ' ');
    reveal_with_fuel(run_end, 2);
    reveal_with_fuel(run_start, 2);
    let opened = trim_start_by(line, pipe);
    assert(opened =~= written_cells(markers));
    assert(opened[opened.len() - 2] == ' ');
    assert(delimiter_body(line) =~= inner);
    assert forall|k: int| 0 <= k < split(inner, '|').len() implies is_delimiter_cell(
        piece(inner, #[trigger] split(inner, '|')[k]),
    ) by {
        assert(piece(inner, split(inner, '|')[k]) == seq![' '] + markers[k] + seq![' ']);
        assert(plain_cell(markers[k]));
        lemma_trim_of_padded(markers[k]);
        lemma_marker(alignments[k], piece(inner, split(inner, '|')[k]));
    }
}

// ---------------------------------------------------------------------------------------------
// The whole table
// ---------------------------------------------------------------------------------------------

proof fn lemma_block_spans_all(s: Seq<char>, rows: Seq<(int, int)>, row: int)
    requires
        0 <= row < rows.len(),
        forall|r: int| 0 <= r < rows.len() ==> is_table_line(piece(s, #[trigger] rows[r])),
    ensures
        block_top(s, rows, row) == 0,
        block_bottom(s, rows, row) == rows.len() - 1,
    decreases row,
{
    lemma_block_bottom_is_last(s, rows, row);
    if row > 0 {
        assert(is_table_line(piece(s, rows[row - 1])));
        lemma_block_spans_all(s, rows, row - 1);
    }
}

proof fn lemma_block_bottom_is_last(s: Seq<char>, rows: Seq<(int, int)>, row: int)
    requires
        0 <= row < rows.len(),
        forall|r: int| 0 <= r < rows.len() ==> is_table_line(piece(s, #[trigger] rows[r])),
    ensures
        block_bottom(s, rows, row) == rows.len() - 1,
    decreases rows.len() - row,
{
    if row + 1 < rows.len() {
        assert(is_table_line(piece(s, rows[row + 1])));
        lemma_block_bottom_is_last(s, rows, row + 1);
    }
}

pub(crate) proof fn lemma_row_near(s: Seq<char>, rows: Seq<(int, int)>, near: int, row: int)
    requires
        0 <= row < rows.len(),
    ensures
        row <= row_near(s, rows, near, row) < rows.len(),
    decreases rows.len() - row,
{
    if row + 1 < rows.len() && near > byte_offset(s, rows[row].1) {
        lemma_row_near(s, rows, near, row + 1);
    }
}

proof fn lemma_longest_of_even<T>(rows: Seq<Seq<T>>, count: nat)
    requires
        forall|r: int| 0 <= r < rows.len() ==> (#[trigger] rows[r]).len() == count,
    ensures
        longest(rows) <= count,
    decreases rows.len(),
{
    if rows.len() > 0 {
        assert(rows[rows.len() - 1].len() == count);
        assert forall|r: int| 0 <= r < rows.drop_last().len() implies (
        #[trigger] rows.drop_last()[r]).len() == count by {
            assert(rows.drop_last()[r] == rows[r]);
        }
        lemma_longest_of_even(rows.drop_last(), count);
    }
}

/// A range of a line read by byte offsets is the piece of the line.
pub(crate) proof fn lemma_cell_of_line(s: Seq<char>, line: (int, int), range: (int, int))
    requires
        0 <= line.0 <= line.1 <= s.len(),
        0 <= range.0 <= range.1 <= line.1 - line.0,
    ensures
        cell_content(s, Some(range_in_line(s, line, range))) == trim(piece(piece(s, line), range)),
{
    lemma_index_at(s, line.0 + range.0);
    lemma_index_at(s, line.0 + range.1);
    lemma_byte_offset_grows(s, line.0 + range.0, line.0 + range.1);
    assert(s.subrange(line.0 + range.0, line.0 + range.1) =~= piece(piece(s, line), range));
}

/// The cells of a line, read by byte offsets, hold what the cells of a written row hold.
proof fn lemma_line_cells_content(s: Seq<char>, line: (int, int), cells: Seq<Seq<char>>)
    requires
        0 <= line.0 <= line.1 <= s.len(),
        piece(s, line) == written_row(cells),
        plain_cells(cells),
        cells.len() > 0,
    ensures
        line_cells(s, line).len() == cells.len(),
        cells_content(s, resized(line_cells(s, line), cells.len(), None)) == cells,
{
    let row = written_row(cells);
    lemma_written_row_reads_back(cells);
    lemma_row_cells(row);
    let read = cells_content(s, resized(line_cells(s, line), cells.len(), None));
    assert forall|k: int| 0 <= k < cells.len() implies read[k] == #[trigger] cells[k] by {
        assert(trim(piece(row, row_cells(row)[k])) == cells[k]);
        lemma_cell_of_line(s, line, row_cells(row)[k]);
    }
    assert(read =~= cells);
}

/// The lines of a text from `head` on that a rectangular table was written on read back as that
/// table.
pub(crate) proof fn lemma_written_lines_read_back(s: Seq<char>, head: int, table: TableContent)
    requires
        rectangular(table),
        plain_table(table),
        table.header.len() > 0,
        0 <= head,
        head + 2 + table.rows.len() <= lines(s).len(),
        forall|k: int|
            head <= k < head + 2 + table.rows.len() ==> piece(s, #[trigger] lines(s)[k])
                == table_line(table, k - head),
    ensures
        ({
            let last = head + 1 + table.rows.len();
            content_of(s, table_with(s, lines(s), head + 1, last).1) == table
        }),
{
    let rows = lines(s);
    let last = head + 1 + table.rows.len();
    lemma_split_from(s, '\n', 0);
    lemma_written_delimiter(table.alignments);
    assert(piece(s, rows[head + 1]) == table_line(table, 1));
    let (span, shape) = table_with(s, rows, head + 1, last);
    let columns = table.header.len();
    assert(piece(s, rows[head]) == table_line(table, 0));
    lemma_line_cells_content(s, rows[head], table.header);
    let body = body_cells(s, rows, head + 2, last);
    assert forall|r: int| 0 <= r < body.len() implies (#[trigger] body[r]).len() == columns
        && cells_content(s, resized(body[r], columns, None)) == table.rows[r] by {
        assert(piece(s, rows[head + 2 + r]) == table_line(table, r + 2));
        assert(plain_cells(table.rows[r]));
        assert(table.rows[r].len() == columns);
        lemma_line_cells_content(s, rows[head + 2 + r], table.rows[r]);
    }
    lemma_longest_of_even(body, columns);
    let content = content_of(s, shape);
    assert(content.header == table.header);
    assert(content.alignments == table.alignments);
    assert forall|r: int| 0 <= r < table.rows.len() implies content.rows[r]
        == #[trigger] table.rows[r] by {
        assert(shape.rows[r] == resized(body[r], columns, None));
        assert(body[r].len() == columns);
    }
    assert(content.rows =~= table.rows);
}

/// Every line of a written table may belong to a table.
pub(crate) proof fn lemma_table_line_is_one(table: TableContent, k: int)
    ensures
        is_table_line(table_line(table, k)),
{
    if k == 0 {
        lemma_written_row_is_table_line(table.header);
    } else if k == 1 {
        lemma_written_row_is_table_line(delimiter_markers(table.alignments));
    } else {
        lemma_written_row_is_table_line(table.rows[k - 2]);
    }
}

/// The source that is written for a rectangular table is a table from wherever in it one looks,
/// spans the whole source, leaves out no cell, and holds what was written.
pub proof fn law_a_written_table_reads_back(table: TableContent, near: int)
    requires
        rectangular(table),
        plain_table(table),
        table.header.len() > 0,
    ensures
        ({
            let s = written_table(table);
            &&& table_near(s, near) is Some
            &&& (table_near(s, near)->0).0 == (0int, byte_offset(s, s.len() as int) as int)
            &&& content_of(s, (table_near(s, near)->0).1) == table
        }),
{
    let s = written_table(table);
    let rows = lines(s);
    lemma_lines_of_written(table);
    lemma_split_from(s, '\n', 0);
    assert forall|r: int| 0 <= r < rows.len() implies is_table_line(
        piece(s, #[trigger] rows[r]),
    ) by {
        assert(piece(s, rows[r]) == table_line(table, r));
        lemma_table_line_is_one(table, r);
    }
    lemma_row_near(s, rows, near, 0);
    let row = row_near(s, rows, near, 0);
    assert(is_table_line(piece(s, rows[row])));
    lemma_block_spans_all(s, rows, row);
    let last = rows.len() - 1;
    lemma_written_delimiter(table.alignments);
    assert(piece(s, rows[1]) == table_line(table, 1));
    assert(first_delimiter(s, rows, 1, last) == Some(1int));
    assert(table_near(s, near) == Some(table_with(s, rows, 1, last)));
    lemma_written_lines_read_back(s, 0, table);
}

// ---------------------------------------------------------------------------------------------
// Reading gives plain cells
// ---------------------------------------------------------------------------------------------

pub(crate) proof fn lemma_pipe_free_push(s: Seq<char>, c: char, i: int, escaped: bool)
    requires
        0 <= i <= s.len(),
        pipe_free(s, i, escaped),
        escape_after(s, i, escaped) || c != '|',
    ensures
        pipe_free(s.push(c), i, escaped),
        escape_after(s.push(c), i, escaped) == (!escape_after(s, i, escaped) && c == '\\'),
    decreases s.len() - i,
{
    if i < s.len() {
        assert(s.push(c)[i] == s[i]);
        lemma_pipe_free_push(s, c, i + 1, !escaped && s[i] == '\\');
    } else {
        reveal_with_fuel(pipe_free, 2);
        reveal_with_fuel(escape_after, 2);
    }
}

proof fn lemma_pipe_free_shift(s: Seq<char>, by: int, i: int, escaped: bool)
    requires
        0 <= by <= i <= s.len(),
    ensures
        pipe_free(s, i, escaped) == pipe_free(s.skip(by), i - by, escaped),
    decreases s.len() - i,
{
    if i < s.len() {
        assert(s.skip(by)[i - by] == s[i]);
        lemma_pipe_free_shift(s, by, i + 1, !escaped && s[i] == '\\');
    }
}

proof fn lemma_pipe_free_take(s: Seq<char>, count: int, i: int, escaped: bool)
    requires
        0 <= i <= count <= s.len(),
        pipe_free(s, i, escaped),
    ensures
        pipe_free(s.take(count), i, escaped),
    decreases count - i,
{
    if i < count {
        assert(s.take(count)[i] == s[i]);
        lemma_pipe_free_take(s, count, i + 1, !escaped && s[i] == '\\');
    }
}

proof fn lemma_pipe_free_past_white_space(s: Seq<char>, i: int)
    requires
        0 <= i <= s.len(),
        pipe_free(s, i, false),
    ensures
        pipe_free(s, run_end(s, CharClass::Whitespace, i), false),
    decreases s.len() - i,
{
    if i < s.len() && white_space(s[i]) {
        lemma_pipe_free_past_white_space(s, i + 1);
    }
}

/// Trimming uncovers no pipe.
pub(crate) proof fn lemma_pipe_free_trim(s: Seq<char>)
    requires
        pipe_free(s, 0, false),
    ensures
        pipe_free(trim(s), 0, false),
{
    let ws = CharClass::Whitespace;
    lemma_run_end(s, ws, 0);
    lemma_pipe_free_past_white_space(s, 0);
    let start = run_end(s, ws, 0);
    lemma_pipe_free_shift(s, start, start, false);
    let t = trim_start_by(s, ws);
    lemma_run_start(t, ws, t.len() as int);
    lemma_pipe_free_take(t, run_start(t, ws, t.len() as int), 0, false);
}

/// No segment holds an unescaped pipe.
pub(crate) proof fn lemma_segments_are_pipe_free(line: Seq<char>, start: int, i: int, escaped: bool)
    requires
        0 <= start <= i <= line.len(),
        pipe_free(line.subrange(start, i), 0, false),
        escape_after(line.subrange(start, i), 0, false) == escaped,
    ensures
        forall|k: int|
            0 <= k < segments_from(line, start, i, escaped).len() ==> pipe_free(
                piece(line, #[trigger] segments_from(line, start, i, escaped)[k]),
                0,
                false,
            ),
    decreases line.len() - i,
{
    if i < line.len() {
        if !escaped && line[i] == '|' {
            assert(line.subrange(i + 1, i + 1) =~= Seq::empty());
            lemma_segments_are_pipe_free(line, i + 1, i + 1, false);
            let rest = segments_from(line, i + 1, i + 1, false);
            let all = segments_from(line, start, i, escaped);
            assert(all =~= seq![(start, i)] + rest);
            assert forall|k: int| 0 <= k < all.len() implies pipe_free(
                piece(line, #[trigger] all[k]),
                0,
                false,
            ) by {
                if k > 0 {
                    assert(all[k] == rest[k - 1]);
                } else {
                    assert(piece(line, all[k]) == line.subrange(start, i));
                }
            }
        } else {
            lemma_pipe_free_push(line.subrange(start, i), line[i], 0, false);
            assert(line.subrange(start, i).push(line[i]) =~= line.subrange(start, i + 1));
            lemma_segments_are_pipe_free(line, start, i + 1, !escaped && line[i] == '\\');
            assert(segments_from(line, start, i, escaped) == segments_from(
                line,
                start,
                i + 1,
                !escaped && line[i] == '\\',
            ));
        }
    } else {
        assert(segments_from(line, start, i, escaped) =~= seq![(start, i)]);
        assert(piece(line, (start, i)) =~= line.subrange(start, i));
    }
}

/// The trimmed cells of a line are plain.
pub(crate) proof fn lemma_read_cells_are_plain(line: Seq<char>)
    requires
        forall|i: int| 0 <= i < line.len() ==> #[trigger] line[i] != '\n',
    ensures
        forall|k: int|
            0 <= k < row_cells(line).len() ==> plain_cell(
                trim(piece(line, #[trigger] row_cells(line)[k])),
            ),
{
    assert(line.subrange(0, 0) =~= Seq::empty());
    lemma_segments_are_pipe_free(line, 0, 0, false);
    lemma_row_cells(line);
    let all = segments_from(line, 0, 0, false);
    let opened = without_blank_start(line, all);
    let cells = row_cells(line);
    assert forall|k: int| 0 <= k < cells.len() implies plain_cell(
        trim(piece(line, #[trigger] cells[k])),
    ) by {
        assert(cells[k] == opened[k]);
        if opened.len() < all.len() {
            assert(opened[k] == all[k + 1]);
        }
        let part = piece(line, cells[k]);
        assert(pipe_free(part, 0, false));
        lemma_pipe_free_trim(part);
        lemma_trim_is_tight(part);
        let ws = CharClass::Whitespace;
        lemma_run_end(part, ws, 0);
        let t = trim_start_by(part, ws);
        lemma_run_start(t, ws, t.len() as int);
        assert forall|i: int| 0 <= i < trim(part).len() implies #[trigger] trim(part)[i]
            != '\n' by {
            assert(trim(part)[i] == line[cells[k].0 + run_end(part, ws, 0) + i]);
        }
    }
}

proof fn lemma_plain_empty()
    ensures
        plain_cell(Seq::<char>::empty()),
{
    assert(trim(Seq::<char>::empty()) =~= Seq::empty());
}

/// The cells of a line of a text, read by byte offsets and filled up, are plain.
proof fn lemma_line_content_is_plain(s: Seq<char>, row: int, columns: nat)
    requires
        0 <= row < lines(s).len(),
    ensures
        plain_cells(cells_content(s, resized(line_cells(s, lines(s)[row]), columns, None))),
{
    lemma_split_from(s, '\n', 0);
    let bounds = lines(s)[row];
    let line = piece(s, bounds);
    assert forall|i: int| 0 <= i < line.len() implies #[trigger] line[i] != '\n' by {
        assert(s[bounds.0 + i] != '\n');
    }
    lemma_read_cells_are_plain(line);
    lemma_row_cells(line);
    lemma_plain_empty();
    let cells = resized(line_cells(s, bounds), columns, None);
    assert forall|k: int| 0 <= k < cells.len() implies plain_cell(
        #[trigger] cells_content(s, cells)[k],
    ) by {
        if k < row_cells(line).len() {
            lemma_cell_of_line(s, bounds, row_cells(line)[k]);
        }
    }
}

pub(crate) proof fn lemma_block_bounds(s: Seq<char>, rows: Seq<(int, int)>, row: int)
    requires
        0 <= row < rows.len(),
    ensures
        0 <= block_top(s, rows, row) <= row <= block_bottom(s, rows, row) < rows.len(),
    decreases row,
{
    lemma_bottom_bounds(s, rows, row);
    if row > 0 && is_table_line(piece(s, rows[row - 1])) {
        lemma_block_bounds(s, rows, row - 1);
    }
}

proof fn lemma_bottom_bounds(s: Seq<char>, rows: Seq<(int, int)>, row: int)
    requires
        0 <= row < rows.len(),
    ensures
        row <= block_bottom(s, rows, row) < rows.len(),
    decreases rows.len() - row,
{
    if row + 1 < rows.len() && is_table_line(piece(s, rows[row + 1])) {
        lemma_bottom_bounds(s, rows, row + 1);
    }
}

pub(crate) proof fn lemma_first_delimiter(s: Seq<char>, rows: Seq<(int, int)>, row: int, last: int)
    ensures
        first_delimiter(s, rows, row, last) matches Some(at) ==> row <= at <= last,
    decreases last + 1 - row,
{
    if row <= last && !delimiter_line(piece(s, rows[row])) {
        lemma_first_delimiter(s, rows, row + 1, last);
    }
}

/// A table that was read has a column, equally long rows, and plain cells.
pub proof fn law_a_table_that_was_read_is_plain(s: Seq<char>, near: int)
    requires
        table_near(s, near) is Some,
    ensures
        ({
            let table = content_of(s, (table_near(s, near)->0).1);
            &&& plain_table(table)
            &&& table.header.len() > 0
            &&& forall|r: int|
                0 <= r < table.rows.len() ==> (#[trigger] table.rows[r]).len() == table.header.len()
        }),
{
    let rows = lines(s);
    lemma_split_from(s, '\n', 0);
    lemma_row_near(s, rows, near, 0);
    let row = row_near(s, rows, near, 0);
    lemma_block_bounds(s, rows, row);
    let first = block_top(s, rows, row);
    let last = block_bottom(s, rows, row);
    lemma_first_delimiter(s, rows, first + 1, last);
    let delimiter = first_delimiter(s, rows, first + 1, last)->0;
    let (span, shape) = table_with(s, rows, delimiter, last);
    let body = body_cells(s, rows, delimiter + 1, last);
    let columns = shape.header.len();
    lemma_row_cells(piece(s, rows[delimiter - 1]));
    lemma_line_content_is_plain(s, delimiter - 1, columns);
    let table = content_of(s, shape);
    assert forall|r: int| 0 <= r < table.rows.len() implies plain_cells(#[trigger] table.rows[r])
        && table.rows[r].len() == table.header.len() by {
        assert(shape.rows[r] == resized(body[r], columns, None));
        assert(body[r] == line_cells(s, rows[delimiter + 1 + r]));
        lemma_line_content_is_plain(s, delimiter + 1 + r, columns);
    }
}

/// A structural change, and normalizing, leave plain cells plain.
pub(crate) proof fn lemma_changes_keep_cells_plain(table: TableContent, change: TableStructuralChange)
    requires
        plain_table(table),
    ensures
        plain_table(normalized(changed(table, change))),
{
    lemma_plain_empty();
    let new = changed(table, change);
    assert(plain_cells(new.header));
    assert forall|r: int| 0 <= r < new.rows.len() implies plain_cells(#[trigger] new.rows[r]) by {
        match change {
            TableStructuralChange::MoveRow { from, to } => {
                if from < table.rows.len() && to < table.rows.len() {
                    let at = if r == to {
                        from as int
                    } else {
                        let skipped = if r < to {
                            r
                        } else {
                            r - 1
                        };
                        if skipped < from {
                            skipped
                        } else {
                            skipped + 1
                        }
                    };
                    assert(new.rows[r] == table.rows[at]);
                } else {
                    assert(new.rows[r] == table.rows[r]);
                }
            },
            TableStructuralChange::DeleteRow(index) => {
                if index < table.rows.len() {
                    let at = if r < index {
                        r
                    } else {
                        r + 1
                    };
                    assert(new.rows[r] == table.rows[at]);
                } else {
                    assert(new.rows[r] == table.rows[r]);
                }
            },
            TableStructuralChange::AddRow => {
                if r < table.rows.len() {
                    assert(new.rows[r] == table.rows[r]);
                }
            },
            _ => {
                assert(plain_cells(table.rows[r]));
            },
        }
    }
    let result = normalized(new);
    assert forall|r: int| 0 <= r < result.rows.len() implies plain_cells(
        #[trigger] result.rows[r],
    ) by {
        assert(plain_cells(new.rows[r]));
    }
}

/// The source that a structural edit writes for a table found in a text reads back, from wherever
/// in it one looks, as the content that was read with the change made to it.
pub proof fn law_a_structural_change_reads_back(
    s: Seq<char>,
    start: int,
    end: int,
    change: TableStructuralChange,
    near: int,
)
    requires
        fresh_table(s, start, end) is Some,
    ensures
        ({
            let table = content_of(s, (fresh_table(s, start, end)->0).1);
            let source = changed_source(s, (fresh_table(s, start, end)->0).1, change);
            &&& table_near(source, near) is Some
            &&& (table_near(source, near)->0).0 == (
                0int,
                byte_offset(source, source.len() as int) as int,
            )
            &&& content_of(source, (table_near(source, near)->0).1) == normalized(
                changed(table, change),
            )
        }),
{
    if table_near(s, start) is Some {
        law_a_table_that_was_read_is_plain(s, start);
    } else {
        law_a_table_that_was_read_is_plain(s, end);
    }
    let table = content_of(s, (fresh_table(s, start, end)->0).1);
    lemma_changes_keep_cells_plain(table, change);
    law_a_changed_table_is_rectangular(table, change);
    law_a_written_table_reads_back(normalized(changed(table, change)), near);
}

} // verus!
