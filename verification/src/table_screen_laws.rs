//! What a table's widget shows, and how a table is written: its columns' weights, its cells' roles,
//! the order of its cells, and its lines.

use crate::decorations::{concealed_headings, concealed_marker, with_pending};
use crate::markers::BlockMark;
use crate::table::{table_near, CellAlignment, TableShape};
use crate::table_edit::{
    cell_content, cell_span, cells_of_rows, content_of, delimiter_marker, delimiter_markers,
    first_around, fresh_table, reading_order, written_row, written_table, TableContent,
};
use crate::table_widget::{
    boundary_in_table, cell_weight, chunks_length, column_edge, column_weight, covers_cell,
    deletion_of, move_target, moved_unit, role_of, row_edge, unit_in_table, CellRole, TableBoundary,
    TableUnit, TableUnitSelection,
};
use crate::table_edit::TableStructuralChange;
use crate::text::slice_at;
use crate::text_laws::{is_blank_text, is_tight, law_trimming_takes_the_outer_blanks};
use std::ops::Range;
use vstd::prelude::*;

verus! {

// ---------------------------------------------------------------------------------------------
// Weights
// ---------------------------------------------------------------------------------------------

/// The length of a cell counts the characters of each of its chunks without the blanks round it.
pub proof fn law_one_more_chunk_counts(
    chunks: Seq<Seq<char>>,
    left: Seq<char>,
    text: Seq<char>,
    right: Seq<char>,
)
    requires
        is_blank_text(left),
        is_blank_text(right),
        text.len() == 0 || is_tight(text),
    ensures
        chunks_length(chunks.push(left + text + right)) == chunks_length(chunks) + text.len(),
        chunks_length(Seq::empty()) == 0,
{
    law_trimming_takes_the_outer_blanks(left, text, right);
    assert(chunks.push(left + text + right).drop_last() =~= chunks);
}

/// A cell weighs as much as it is long, but no less than three and no more than sixty.
pub proof fn law_a_cell_weighs_its_length(chunks: Seq<Seq<char>>)
    ensures
        3 <= cell_weight(chunks) <= 60,
        3 <= chunks_length(chunks) <= 60 ==> cell_weight(chunks) == chunks_length(chunks),
        chunks_length(chunks) < 3 ==> cell_weight(chunks) == 3,
        chunks_length(chunks) > 60 ==> cell_weight(chunks) == 60,
{
}

/// A column weighs as much as its heaviest cell, and three where it has none.
pub proof fn law_a_column_weighs_its_heaviest_cell(rows: Seq<Seq<Seq<Seq<char>>>>, column: int)
    requires
        0 <= column,
    ensures
        forall|r: int|
            0 <= r < rows.len() && column < (#[trigger] rows[r]).len() ==> cell_weight(
                rows[r][column],
            ) <= column_weight(rows, column),
        column_weight(rows, column) == 3 || exists|r: int|
            0 <= r < rows.len() && column < (#[trigger] rows[r]).len() && cell_weight(
                rows[r][column],
            ) == column_weight(rows, column),
        column_weight(rows, column) >= 3,
    decreases rows.len(),
{
    if rows.len() > 0 {
        let above = rows.drop_last();
        law_a_column_weighs_its_heaviest_cell(above, column);
        assert forall|r: int|
            0 <= r < rows.len() && column < (#[trigger] rows[r]).len() implies cell_weight(
            rows[r][column],
        ) <= column_weight(rows, column) by {
            if r < above.len() {
                assert(above[r] == rows[r]);
            }
        }
        let weight = column_weight(rows, column);
        if weight != 3 {
            if weight == column_weight(above, column) {
                let r = choose|r: int|
                    0 <= r < above.len() && column < (#[trigger] above[r]).len() && cell_weight(
                        above[r][column],
                    ) == weight;
                assert(rows[r] == above[r]);
            } else {
                assert(cell_weight(rows[rows.len() - 1][column]) == weight);
            }
        }
    }
}

// ---------------------------------------------------------------------------------------------
// Cells
// ---------------------------------------------------------------------------------------------

/// A cell is the active one where its range is the one being edited; any other can be edited where
/// the source has it, and is missing where it does not.
pub proof fn law_a_cell_has_its_role(range: Range<usize>, active: Range<usize>)
    ensures
        role_of(Some(range), Some(active)) == if range.start == active.start && range.end
            == active.end {
            CellRole::Active
        } else {
            CellRole::Editable
        },
        role_of(Some(range), None) == CellRole::Editable,
        role_of(None, None) == CellRole::Missing,
        active.end > 0 ==> role_of(None, Some(active)) == CellRole::Missing,
{
}

/// A selected row covers every cell of that data row and none of the header; a selected column covers
/// its cell in every row, the header included.
pub proof fn law_a_unit_covers_its_cells(row: usize, column: usize, other: usize)
    ensures
        covers_cell(Some(TableUnit::Row(row)), column, Some(other)) == (row == other),
        !covers_cell(Some(TableUnit::Row(row)), column, None),
        covers_cell(Some(TableUnit::Column(column)), other, Some(row)) == (column == other),
        covers_cell(Some(TableUnit::Column(column)), other, None) == (column == other),
        !covers_cell(None, column, Some(row)),
        !covers_cell(None, column, None),
{
}

/// What is selected in one table shows in that table alone.
pub proof fn law_a_selection_stays_in_its_table(
    range: Range<usize>,
    unit: TableUnit,
    boundary: TableBoundary,
    table_start: usize,
)
    ensures
        unit_in_table(Some(TableUnitSelection { table_range: range, unit }), table_start) == if range.start
            == table_start {
            Some(unit)
        } else {
            None
        },
        boundary_in_table(Some((range, boundary)), table_start) == if range.start == table_start {
            Some(boundary)
        } else {
            None
        },
{
}

/// The insertion line stands in front of the column behind its boundary, and behind the last column
/// for the last boundary.
pub proof fn law_the_insertion_line_stands_at_its_boundary(
    from: usize,
    boundary: usize,
    columns: usize,
    rows: usize,
)
    requires
        columns > 0,
        rows > 0,
    ensures
        boundary < columns ==> column_edge(
            Some(TableUnit::Column(from)),
            Some(TableBoundary::Column(boundary)),
            boundary as int,
            columns as int,
        ) == Some(false),
        column_edge(
            Some(TableUnit::Column(from)),
            Some(TableBoundary::Column(columns)),
            columns - 1,
            columns as int,
        ) == Some(true),
        0 < boundary < rows ==> row_edge(
            Some(TableUnit::Row(from)),
            Some(TableBoundary::Row(boundary)),
            Some(boundary),
            rows as int,
        ) == Some(false),
        row_edge(Some(TableUnit::Row(from)), Some(TableBoundary::Row(0)), None, rows as int) == Some(
            true,
        ),
        row_edge(
            Some(TableUnit::Row(from)),
            Some(TableBoundary::Row(rows)),
            Some((rows - 1) as usize),
            rows as int,
        ) == Some(true),
{
}

/// A row is dragged among rows and a column among columns. What was moved is then where the change
/// puts it.
pub proof fn law_a_dragged_unit_moves_among_its_own(from: usize, boundary: usize)
    ensures
        moved_unit(TableUnit::Row(from), TableBoundary::Column(boundary)) is None,
        moved_unit(TableUnit::Column(from), TableBoundary::Row(boundary)) is None,
        move_target(from as int, boundary as int) is None ==> moved_unit(
            TableUnit::Row(from),
            TableBoundary::Row(boundary),
        ) is None && moved_unit(TableUnit::Column(from), TableBoundary::Column(boundary)) is None,
        move_target(from as int, boundary as int) matches Some(to) ==> moved_unit(
            TableUnit::Row(from),
            TableBoundary::Row(boundary),
        ) == Some(
            (
                TableStructuralChange::MoveRow { from, to: to as usize },
                TableUnit::Row(to as usize),
            ),
        ) && moved_unit(TableUnit::Column(from), TableBoundary::Column(boundary)) == Some(
            (
                TableStructuralChange::MoveColumn { from, to: to as usize },
                TableUnit::Column(to as usize),
            ),
        ),
        deletion_of(TableUnit::Row(from)) == TableStructuralChange::DeleteRow(from),
        deletion_of(TableUnit::Column(from)) == TableStructuralChange::DeleteColumn(from),
{
}

/// The content of a cell is its text without the blanks round it.
pub proof fn law_a_cell_is_read_without_its_padding(
    s: Seq<char>,
    span: (int, int),
    left: Seq<char>,
    text: Seq<char>,
    right: Seq<char>,
)
    requires
        slice_at(s, span.0, span.1) == Some(left + text + right),
        is_blank_text(left),
        is_blank_text(right),
        text.len() == 0 || is_tight(text),
    ensures
        cell_content(s, Some(span)) == text,
        cell_content(s, None).len() == 0,
{
    law_trimming_takes_the_outer_blanks(left, text, right);
}

/// The content of a table has every cell of it where it stands.
pub proof fn law_a_table_has_the_content_of_its_cells(
    s: Seq<char>,
    shape: TableShape,
    r: int,
    k: int,
)
    ensures
        content_of(s, shape).header.len() == shape.header.len(),
        content_of(s, shape).rows.len() == shape.rows.len(),
        content_of(s, shape).alignments == shape.alignments,
        0 <= k < shape.header.len() ==> content_of(s, shape).header[k] == cell_content(
            s,
            shape.header[k],
        ),
        0 <= r < shape.rows.len() && 0 <= k < shape.rows[r].len() ==> content_of(s, shape).rows[r][k]
            == cell_content(s, shape.rows[r][k]),
{
}

// ---------------------------------------------------------------------------------------------
// Order
// ---------------------------------------------------------------------------------------------

proof fn lemma_cells_of_rows(rows: Seq<Seq<Option<(int, int)>>>, columns: int, r: int, k: int)
    requires
        0 <= columns,
        forall|i: int| 0 <= i < rows.len() ==> (#[trigger] rows[i]).len() == columns,
        0 <= r < rows.len(),
        0 <= k < columns,
    ensures
        cells_of_rows(rows).len() == rows.len() * columns,
        0 <= r * columns + k < cells_of_rows(rows).len(),
        cells_of_rows(rows)[r * columns + k] == rows[r][k],
    decreases rows.len(),
{
    let front = rows.drop_last();
    let last = rows[rows.len() - 1];
    assert(last.len() == columns);
    assert forall|i: int| 0 <= i < front.len() implies (#[trigger] front[i]).len() == columns by {
        assert(front[i] == rows[i]);
    }
    lemma_cells_length(front, columns);
    let n = front.len() as int;
    assert((n + 1) * columns == n * columns + columns) by (nonlinear_arith);
    if r < n {
        lemma_cells_of_rows(front, columns, r, k);
        assert(front[r] == rows[r]);
    } else {
        assert(cells_of_rows(rows)[n * columns + k] == last[k]);
        assert(0 <= n * columns) by (nonlinear_arith)
            requires
                0 <= n,
                0 <= columns,
        ;
    }
}

proof fn lemma_cells_length(rows: Seq<Seq<Option<(int, int)>>>, columns: int)
    requires
        0 <= columns,
        forall|i: int| 0 <= i < rows.len() ==> (#[trigger] rows[i]).len() == columns,
    ensures
        cells_of_rows(rows).len() == rows.len() * columns,
    decreases rows.len(),
{
    if rows.len() > 0 {
        let front = rows.drop_last();
        assert(rows[rows.len() - 1].len() == columns);
        assert forall|i: int| 0 <= i < front.len() implies (#[trigger] front[i]).len()
            == columns by {
            assert(front[i] == rows[i]);
        }
        lemma_cells_length(front, columns);
        let n = front.len() as int;
        assert((n + 1) * columns == n * columns + columns) by (nonlinear_arith);
    } else {
        assert(0 * columns == 0) by (nonlinear_arith);
    }
}

/// The cells of a table come in reading order: the header's from left to right, then those of each
/// row behind those of the row above it.
pub proof fn law_cells_come_in_reading_order(shape: TableShape, columns: int, r: int, k: int)
    requires
        shape.header.len() == columns,
        forall|i: int| 0 <= i < shape.rows.len() ==> (#[trigger] shape.rows[i]).len() == columns,
        0 <= r < shape.rows.len(),
        0 <= k < columns,
    ensures
        reading_order(shape)[k] == cell_span(shape.header[k]),
        0 <= columns + r * columns + k < reading_order(shape).len(),
        reading_order(shape)[columns + r * columns + k] == cell_span(shape.rows[r][k]),
{
    lemma_cells_of_rows(shape.rows, columns, r, k);
    let all = shape.header + cells_of_rows(shape.rows);
    assert(all[k] == shape.header[k]);
    assert(all[columns + (r * columns + k)] == cells_of_rows(shape.rows)[r * columns + k]);
}

/// The cell at an offset is the first one, from a place on, that the offset lies in or at an end of.
pub proof fn law_the_first_cell_at_an_offset_is_found(
    cells: Seq<(int, int)>,
    offset: int,
    from: int,
    k: int,
)
    requires
        0 <= from <= k < cells.len(),
        cells[k].0 <= offset <= cells[k].1,
        forall|m: int| from <= m < k ==> offset < (#[trigger] cells[m]).0 || cells[m].1 < offset,
    ensures
        first_around(cells, offset, from) == Some(k),
    decreases k - from,
{
    if from < k {
        assert(offset < cells[from].0 || cells[from].1 < offset);
        law_the_first_cell_at_an_offset_is_found(cells, offset, from + 1, k);
    }
}

/// No cell is found where the offset lies in none.
pub proof fn law_no_cell_is_found_outside(cells: Seq<(int, int)>, offset: int, from: int)
    requires
        0 <= from,
        forall|m: int|
            from <= m < cells.len() ==> offset < (#[trigger] cells[m]).0 || cells[m].1 < offset,
    ensures
        first_around(cells, offset, from) is None,
    decreases cells.len() - from,
{
    if from < cells.len() {
        assert(offset < cells[from].0 || cells[from].1 < offset);
        law_no_cell_is_found_outside(cells, offset, from + 1);
    }
}

/// A table is looked for at the start of its range, and at its end where there is none.
pub proof fn law_a_table_is_found_at_either_end(s: Seq<char>, start: int, end: int)
    ensures
        table_near(s, start) is Some ==> fresh_table(s, start, end) == table_near(s, start),
        table_near(s, start) is None ==> fresh_table(s, start, end) == table_near(s, end),
{
}

// ---------------------------------------------------------------------------------------------
// Writing
// ---------------------------------------------------------------------------------------------

/// A row is written with a pipe in front and one behind each cell. A cell has a blank on either side,
/// and an empty one is three blanks wide.
pub proof fn law_a_row_is_written_between_pipes(cells: Seq<Seq<char>>, cell: Seq<char>)
    ensures
        written_row(Seq::empty()) == seq!['|'],
        cell.len() > 0 ==> written_row(cells.push(cell)) == written_row(cells) + seq![' '] + cell
            + seq![' ', '|'],
        cell.len() == 0 ==> written_row(cells.push(cell)) == written_row(cells) + seq![
            ' ',
            ' ',
            ' ',
            '|',
        ],
{
    assert(cells.push(cell).drop_last() =~= cells);
    assert(written_row(Seq::empty()) =~= seq!['|']);
    if cell.len() > 0 {
        assert(written_row(cells.push(cell)) =~= written_row(cells) + seq![' '] + cell + seq![
            ' ',
            '|',
        ]);
    } else {
        assert(written_row(cells.push(cell)) =~= written_row(cells) + seq![' ', ' ', ' ', '|']);
    }
}

/// A table is written line by line: its header, its delimiter row, then each of its rows.
pub proof fn law_a_table_is_written_line_by_line(table: TableContent, row: Seq<Seq<char>>)
    ensures
        written_table(TableContent { rows: Seq::empty(), ..table }) == written_row(table.header)
            + seq!['\n'] + written_row(delimiter_markers(table.alignments)),
        written_table(TableContent { rows: table.rows.push(row), ..table }) == written_table(table)
            + seq!['\n'] + written_row(row),
{
    assert(table.rows.push(row).drop_last() =~= table.rows);
    let empty = TableContent { rows: Seq::empty(), ..table };
    assert(written_table(empty) =~= written_row(table.header) + seq!['\n'] + written_row(
        delimiter_markers(table.alignments),
    ));
    let longer = TableContent { rows: table.rows.push(row), ..table };
    assert(written_table(longer) =~= written_table(table) + seq!['\n'] + written_row(row));
}

/// The delimiter cell of a column is three characters wide, dashes but for the colons that ask for
/// its alignment.
pub proof fn law_a_delimiter_cell_asks_for_its_alignment(alignment: CellAlignment)
    ensures
        delimiter_marker(alignment).len() == 3,
        delimiter_marker(alignment)[0] == ':' <==> alignment == CellAlignment::Left || alignment
            == CellAlignment::Center,
        delimiter_marker(alignment)[2] == ':' <==> alignment == CellAlignment::Right || alignment
            == CellAlignment::Center,
        delimiter_marker(alignment)[1] == '-',
        delimiter_marker(alignment)[0] == ':' || delimiter_marker(alignment)[0] == '-',
        delimiter_marker(alignment)[2] == ':' || delimiter_marker(alignment)[2] == '-',
{
}

// ---------------------------------------------------------------------------------------------
// Headings
// ---------------------------------------------------------------------------------------------

/// The marker of every heading is concealed that is to be, and no other.
pub proof fn law_every_heading_is_concealed_that_is_to_be(
    s: Seq<char>,
    blocks: Seq<BlockMark>,
    selections: Seq<(int, int)>,
    from_search: bool,
    count: int,
    index: int,
    range: (int, int),
)
    requires
        0 <= count <= blocks.len(),
    ensures
        concealed_headings(s, blocks, selections, from_search, count).contains((index, range))
            <==> 0 <= index < count && concealed_marker(s, blocks[index], selections, from_search)
            == Some(range),
    decreases count,
{
    if count > 0 {
        law_every_heading_is_concealed_that_is_to_be(
            s,
            blocks,
            selections,
            from_search,
            count - 1,
            index,
            range,
        );
        let before = concealed_headings(s, blocks, selections, from_search, count - 1);
        let after = concealed_headings(s, blocks, selections, from_search, count);
        let item = (index, range);
        if before.contains(item) {
            let n = choose|n: int| 0 <= n < before.len() && before[n] == item;
            assert(after[n] == item);
        } else if index == count - 1 && concealed_marker(
            s,
            blocks[index],
            selections,
            from_search,
        ) == Some(range) {
            assert(after[before.len() as int] == item);
        } else if after.contains(item) {
            let n = choose|n: int| 0 <= n < after.len() && after[n] == item;
            if n < before.len() {
                assert(before[n] == item);
            }
        }
    }
}

/// A selection that is being made counts like those that were made.
pub proof fn law_a_pending_selection_counts(
    disjoint: Seq<(int, int)>,
    pending: (int, int),
    range: (int, int),
)
    ensures
        with_pending(disjoint, Some(pending)).contains(range) <==> disjoint.contains(range) || range
            == pending,
        with_pending(disjoint, None) == disjoint,
{
    let all = with_pending(disjoint, Some(pending));
    if disjoint.contains(range) {
        let n = choose|n: int| 0 <= n < disjoint.len() && disjoint[n] == range;
        assert(all[n] == range);
    }
    assert(all[disjoint.len() as int] == pending);
}

} // verus!
