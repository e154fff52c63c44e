//! Structural edits of a table among the other lines of a buffer.

use crate::delimiter_laws::{lemma_cells_of_written_delimiter, lemma_line_of_delimiter_cells};
use crate::document::{lemma_rows_grow, row_at, row_text};
use crate::frontmatter_laws::{lemma_replacement_bytes, replaced};
use crate::line_splits::lemma_lines_of_spliced;
use crate::table::{
    alignment_of, block_bottom, body_cells, line_alignments, line_cells, longest, resized, block_top, delimiter_line, first_delimiter, is_delimiter_cell, is_table_line,
    lemma_row_cells, row_cells, row_near, table_near, table_with,
};
use crate::table_edit::{
    cells_content, changed, changed_source, content_of, delimiter_markers, fresh_table, moved, normalized,
    written_row, written_table, TableContent, TableStructuralChange,
};
use crate::table_laws::{
    law_a_changed_table_is_rectangular, law_deleting_an_added_column_undoes_it,
    law_deleting_an_added_row_undoes_it, law_moving_a_column_back_undoes_the_move,
    law_moving_a_row_back_undoes_the_move, law_normalizing_is_idempotent, rectangular,
};
use crate::table_round_trip::{
    law_a_table_that_was_read_is_plain, lemma_cell_of_line, lemma_changes_keep_cells_plain,
    lemma_lines_of_written, lemma_markers_are_plain, lemma_table_line_is_one,
    lemma_written_delimiter, lemma_written_lines_read_back, lemma_written_row_reads_back,
    plain_cells, plain_table, table_line,
};
use crate::text::{
    byte_length, byte_offset, index_at, lemma_byte_offset_grows, lemma_index_at, lemma_split_from,
    lemma_trim_is_tight, lines, piece, trim,
};
use vstd::prelude::*;

verus! {

// ---------------------------------------------------------------------------------------------
// Where a table stands
// ---------------------------------------------------------------------------------------------

/// Whether the lines from `top` up to and including `last` are a block of table lines, whose first
/// delimiter row is the one behind `head`.
pub open spec fn is_table_block(s: Seq<char>, top: int, head: int, last: int) -> bool {
    let rows = lines(s);
    &&& 0 <= top <= head < last < rows.len()
    &&& forall|r: int| top <= r <= last ==> is_table_line(piece(s, #[trigger] rows[r]))
    &&& top > 0 ==> !is_table_line(piece(s, rows[top - 1]))
    &&& last + 1 < rows.len() ==> !is_table_line(piece(s, rows[last + 1]))
    &&& forall|r: int| top < r <= head ==> !delimiter_line(piece(s, #[trigger] rows[r]))
    &&& delimiter_line(piece(s, rows[head + 1]))
}

proof fn lemma_block_top_facts(s: Seq<char>, rows: Seq<(int, int)>, row: int)
    requires
        0 <= row < rows.len(),
    ensures
        ({
            let top = block_top(s, rows, row);
            &&& 0 <= top <= row
            &&& top > 0 ==> !is_table_line(piece(s, rows[top - 1]))
            &&& forall|r: int| top <= r < row ==> is_table_line(piece(s, #[trigger] rows[r]))
        }),
    decreases row,
{
    if row > 0 && is_table_line(piece(s, rows[row - 1])) {
        lemma_block_top_facts(s, rows, row - 1);
    }
}

proof fn lemma_block_bottom_facts(s: Seq<char>, rows: Seq<(int, int)>, row: int)
    requires
        0 <= row < rows.len(),
    ensures
        ({
            let last = block_bottom(s, rows, row);
            &&& row <= last < rows.len()
            &&& last + 1 < rows.len() ==> !is_table_line(piece(s, rows[last + 1]))
            &&& forall|r: int| row < r <= last ==> is_table_line(piece(s, #[trigger] rows[r]))
        }),
    decreases rows.len() - row,
{
    if row + 1 < rows.len() && is_table_line(piece(s, rows[row + 1])) {
        lemma_block_bottom_facts(s, rows, row + 1);
    }
}

proof fn lemma_first_delimiter_facts(s: Seq<char>, rows: Seq<(int, int)>, row: int, last: int)
    ensures
        first_delimiter(s, rows, row, last) matches Some(at) ==> row <= at <= last
            && delimiter_line(piece(s, rows[at])) && forall|r: int|
            row <= r < at ==> !delimiter_line(piece(s, #[trigger] rows[r])),
    decreases last + 1 - row,
{
    if row <= last && !delimiter_line(piece(s, rows[row])) {
        lemma_first_delimiter_facts(s, rows, row + 1, last);
    }
}

proof fn lemma_block_top_is(s: Seq<char>, rows: Seq<(int, int)>, row: int, top: int)
    requires
        0 <= top <= row < rows.len(),
        forall|r: int| top <= r < row ==> is_table_line(piece(s, #[trigger] rows[r])),
        top > 0 ==> !is_table_line(piece(s, rows[top - 1])),
    ensures
        block_top(s, rows, row) == top,
    decreases row,
{
    if row > top {
        assert(is_table_line(piece(s, rows[row - 1])));
        lemma_block_top_is(s, rows, row - 1, top);
    }
}

proof fn lemma_block_bottom_is(s: Seq<char>, rows: Seq<(int, int)>, row: int, last: int)
    requires
        0 <= row <= last < rows.len(),
        forall|r: int| row < r <= last ==> is_table_line(piece(s, #[trigger] rows[r])),
        last + 1 < rows.len() ==> !is_table_line(piece(s, rows[last + 1])),
    ensures
        block_bottom(s, rows, row) == last,
    decreases last - row,
{
    if row < last {
        assert(is_table_line(piece(s, rows[row + 1])));
        lemma_block_bottom_is(s, rows, row + 1, last);
    }
}

proof fn lemma_first_delimiter_is(
    s: Seq<char>,
    rows: Seq<(int, int)>,
    row: int,
    last: int,
    at: int,
)
    requires
        row <= at <= last,
        forall|r: int| row <= r < at ==> !delimiter_line(piece(s, #[trigger] rows[r])),
        delimiter_line(piece(s, rows[at])),
    ensures
        first_delimiter(s, rows, row, last) == Some(at),
    decreases at - row,
{
    if row < at {
        assert(!delimiter_line(piece(s, rows[row])));
        lemma_first_delimiter_is(s, rows, row + 1, last, at);
    }
}

/// A place within two rows falls in a row between them.
pub(crate) proof fn lemma_row_near_within(s: Seq<char>, near: int, row: int, low: int, high: int)
    requires
        0 <= row <= low <= high < lines(s).len(),
        byte_offset(s, lines(s)[low].0) <= near <= byte_offset(s, lines(s)[high].1),
    ensures
        low <= row_near(s, lines(s), near, row) <= high,
    decreases high - row,
{
    let rows = lines(s);
    lemma_split_from(s, '\n', 0);
    if row < low {
        assert(rows[row].1 < rows[low].0);
        assert(rows[row].0 <= rows[row].1);
        assert(rows[low].0 <= rows[low].1);
        lemma_byte_offset_grows(s, rows[row].1, rows[low].0);
        lemma_row_near_within(s, near, row + 1, low, high);
    } else if row < high {
        lemma_row_near_up_to(s, near, row, high);
    }
}

proof fn lemma_row_near_up_to(s: Seq<char>, near: int, row: int, high: int)
    requires
        0 <= row <= high < lines(s).len(),
        near <= byte_offset(s, lines(s)[high].1),
    ensures
        row <= row_near(s, lines(s), near, row) <= high,
    decreases high - row,
{
    if row < high {
        lemma_row_near_up_to(s, near, row + 1, high);
    }
}

/// The rows that a table was found on: the top of its block of lines, its header, and its last.
proof fn lemma_found_on(s: Seq<char>, near: int) -> (found: (int, int, int))
    requires
        table_near(s, near) is Some,
    ensures
        is_table_block(s, found.0, found.1, found.2),
        table_near(s, near) == Some(table_with(s, lines(s), found.1 + 1, found.2)),
{
    let rows = lines(s);
    lemma_split_from(s, '\n', 0);
    lemma_rows_grow(s, rows, near, near, 0);
    let row = row_near(s, rows, near, 0);
    lemma_block_top_facts(s, rows, row);
    lemma_block_bottom_facts(s, rows, row);
    let top = block_top(s, rows, row);
    let last = block_bottom(s, rows, row);
    lemma_first_delimiter_facts(s, rows, top + 1, last);
    let delimiter = first_delimiter(s, rows, top + 1, last)->0;
    assert forall|r: int| top <= r <= last implies is_table_line(piece(s, #[trigger] rows[r])) by {
    }
    (top, delimiter - 1, last)
}

/// A table is found from every place within it.
proof fn lemma_found_from(s: Seq<char>, near: int, top: int, head: int, last: int)
    requires
        is_table_block(s, top, head, last),
        byte_offset(s, lines(s)[head].0) <= near <= byte_offset(s, lines(s)[last].1),
    ensures
        table_near(s, near) == Some(table_with(s, lines(s), head + 1, last)),
{
    let rows = lines(s);
    lemma_row_near_within(s, near, 0, head, last);
    let row = row_near(s, rows, near, 0);
    assert(is_table_line(piece(s, rows[row])));
    lemma_block_top_is(s, rows, row, top);
    lemma_block_bottom_is(s, rows, row, last);
    lemma_first_delimiter_is(s, rows, top + 1, last, head + 1);
}

/// Every place within a table finds it, as the place that it was found from did.
pub proof fn law_every_place_in_a_table_finds_it(s: Seq<char>, near: int, place: int)
    requires
        table_near(s, near) is Some,
        (table_near(s, near)->0).0.0 <= place <= (table_near(s, near)->0).0.1,
    ensures
        table_near(s, place) == table_near(s, near),
{
    let (top, head, last) = lemma_found_on(s, near);
    lemma_found_from(s, place, top, head, last);
}

// ---------------------------------------------------------------------------------------------
// A table written over another
// ---------------------------------------------------------------------------------------------

/// A table that is written over another one is found in its place, and holds what was written. Its
/// header must not delimit what stands above it.
proof fn lemma_written_over(
    s: Seq<char>,
    top: int,
    head: int,
    last: int,
    table: TableContent,
    near: int,
)
    requires
        is_table_block(s, top, head, last),
        rectangular(table),
        plain_table(table),
        table.header.len() > 0,
        top == head || !delimiter_line(written_row(table.header)),
        ({
            let start = byte_offset(s, lines(s)[head].0);
            start <= near <= start + byte_length(written_table(table))
        }),
    ensures
        ({
            let a = lines(s)[head].0;
            let b = lines(s)[last].1;
            let source = written_table(table);
            let t = replaced(s, a, b, source);
            let start = byte_offset(s, a) as int;
            &&& 0 <= a <= b <= s.len()
            &&& table_near(t, near) is Some
            &&& (table_near(t, near)->0).0 == (start, start + byte_length(source))
            &&& content_of(t, (table_near(t, near)->0).1) == table
            &&& index_at(t, start) == a
            &&& index_at(t, start + byte_length(source)) == a + source.len()
            &&& forall|k: int|
                0 <= k < table.rows.len() + 2 ==> piece(t, #[trigger] lines(t)[head + k])
                    == table_line(table, k)
        }),
{
    let a = lines(s)[head].0;
    let b = lines(s)[last].1;
    let source = written_table(table);
    let t = replaced(s, a, b, source);
    let rows = lines(t);
    let count = table.rows.len() + 2int;
    lemma_lines_of_written(table);
    lemma_lines_of_spliced(s, head, last, source);
    let end = head + count - 1;
    assert forall|k: int| head <= k < head + count implies piece(t, #[trigger] rows[k])
        == table_line(table, k - head) by {
        assert(piece(source, lines(source)[k - head]) == table_line(table, k - head));
    }
    assert forall|k: int| 0 <= k < count implies piece(t, #[trigger] rows[head + k]) == table_line(
        table,
        k,
    ) by {
        assert(piece(t, rows[head + k]) == table_line(table, head + k - head));
    }
    assert forall|r: int| top <= r <= end implies is_table_line(piece(t, #[trigger] rows[r])) by {
        if r < head {
            assert(piece(t, rows[r]) == piece(s, lines(s)[r]));
        } else {
            lemma_table_line_is_one(table, r - head);
        }
    }
    assert forall|r: int| top < r <= head implies !delimiter_line(piece(t, #[trigger] rows[r])) by {
        if r < head {
            assert(piece(t, rows[r]) == piece(s, lines(s)[r]));
        } else {
            assert(piece(t, rows[head]) == table_line(table, 0));
        }
    }
    lemma_written_delimiter(table.alignments);
    assert(piece(t, rows[head + 1]) == table_line(table, 1));
    if top > 0 {
        assert(piece(t, rows[top - 1]) == piece(s, lines(s)[top - 1]));
    }
    if end + 1 < rows.len() {
        assert(piece(t, rows[end + 1]) == piece(s, lines(s)[last + 1]));
    }
    assert(is_table_block(t, top, head, end));
    lemma_replacement_bytes(s, a, b, source);
    lemma_index_at(t, a);
    lemma_index_at(t, a + source.len());
    lemma_found_from(t, near, top, head, end);
    lemma_written_lines_read_back(t, head, table);
}

/// The cells of a header that is not a delimiter row are not all made of dashes.
proof fn lemma_header_is_none(s: Seq<char>, near: int, top: int, head: int, last: int)
    requires
        is_table_block(s, top, head, last),
        table_near(s, near) == Some(table_with(s, lines(s), head + 1, last)),
        top < head,
    ensures
        ({
            let header = content_of(s, (table_near(s, near)->0).1).header;
            exists|k: int| 0 <= k < header.len() && !is_delimiter_cell(#[trigger] header[k])
        }),
{
    let header = content_of(s, (table_near(s, near)->0).1).header;
    let bounds = lines(s)[head];
    let line = piece(s, bounds);
    lemma_split_from(s, '\n', 0);
    lemma_row_cells(line);
    assert(!delimiter_line(piece(s, lines(s)[head])));
    if forall|k: int| 0 <= k < header.len() ==> is_delimiter_cell(#[trigger] header[k]) {
        assert forall|k: int| 0 <= k < row_cells(line).len() implies is_delimiter_cell(
            piece(line, #[trigger] row_cells(line)[k]),
        ) by {
            lemma_cell_of_line(s, bounds, row_cells(line)[k]);
            let cell = piece(line, row_cells(line)[k]);
            assert(header[k] == trim(cell));
            lemma_trim_is_tight(cell);
        }
        lemma_line_of_delimiter_cells(line);
        assert(false);
    }
}

/// Whether a change leaves a header that is no delimiter row with a cell that is not made of
/// dashes: every change does but one that deletes a column.
pub open spec fn keeps_header(change: TableStructuralChange) -> bool {
    !(change is DeleteColumn)
}

/// A changed header delimits nothing that stands above it.
proof fn lemma_header_stays_none(
    s: Seq<char>,
    near: int,
    top: int,
    head: int,
    last: int,
    change: TableStructuralChange,
)
    requires
        is_table_block(s, top, head, last),
        table_near(s, near) == Some(table_with(s, lines(s), head + 1, last)),
        top < head,
        keeps_header(change),
    ensures
        ({
            let table = content_of(s, (table_near(s, near)->0).1);
            !delimiter_line(written_row(normalized(changed(table, change)).header))
        }),
{
    let table = content_of(s, (table_near(s, near)->0).1);
    let new = normalized(changed(table, change)).header;
    lemma_header_is_none(s, near, top, head, last);
    law_a_table_that_was_read_is_plain(s, near);
    lemma_changes_keep_cells_plain(table, change);
    law_a_changed_table_is_rectangular(table, change);
    let k = choose|k: int| 0 <= k < table.header.len() && !is_delimiter_cell(#[trigger] table.header[k]);
    let at = match change {
        TableStructuralChange::MoveColumn { from, to } => if from < table.header.len() && to
            < table.header.len() {
            if k == from {
                to as int
            } else {
                let without = if k < from {
                    k
                } else {
                    k - 1
                };
                if without < to {
                    without
                } else {
                    without + 1
                }
            }
        } else {
            k
        },
        _ => k,
    };
    assert(new[at] == table.header[k]);
    if delimiter_line(written_row(new)) {
        lemma_cells_of_written_delimiter(new);
        assert(is_delimiter_cell(new[at]));
    }
}

// ---------------------------------------------------------------------------------------------
// Edits
// ---------------------------------------------------------------------------------------------

/// A buffer after a structural change of the table at a byte range: the table's source is replaced.
/// Where no table is there, nothing is.
pub open spec fn restructured(
    s: Seq<char>,
    start: int,
    end: int,
    change: TableStructuralChange,
) -> Seq<char> {
    match fresh_table(s, start, end) {
        Some((span, shape)) => replaced(
            s,
            index_at(s, span.0),
            index_at(s, span.1),
            changed_source(s, shape, change),
        ),
        None => s,
    }
}

/// What the table at a byte range holds.
pub open spec fn table_at(s: Seq<char>, start: int, end: int) -> TableContent {
    content_of(s, (fresh_table(s, start, end)->0).1)
}

/// Where the table at a byte range starts.
pub open spec fn table_start(s: Seq<char>, start: int, end: int) -> int {
    (fresh_table(s, start, end)->0).0.0
}

/// Whether an offset stands within the source that a change writes for the table at a byte range.
pub open spec fn is_within(
    s: Seq<char>,
    start: int,
    end: int,
    change: TableStructuralChange,
    offset: int,
) -> bool {
    let from = table_start(s, start, end);
    let source = changed_source(s, (fresh_table(s, start, end)->0).1, change);
    from <= offset <= from + byte_length(source)
}

/// A structural change replaces the table's source, and changes nothing before or behind it. Where
/// no table is there, it changes nothing.
pub proof fn law_the_text_round_a_table_stays(
    s: Seq<char>,
    start: int,
    end: int,
    change: TableStructuralChange,
)
    ensures
        fresh_table(s, start, end) is None ==> restructured(s, start, end, change) == s,
        fresh_table(s, start, end) matches Some((span, shape)) ==> {
            let first = index_at(s, span.0);
            let last = index_at(s, span.1);
            let source = changed_source(s, shape, change);
            let new = restructured(s, start, end, change);
            &&& 0 <= first <= last <= s.len()
            &&& new.take(first) == s.take(first)
            &&& new.subrange(first, first + source.len()) == source
            &&& new.skip(first + source.len()) == s.skip(last)
        },
{
    if let Some((span, shape)) = fresh_table(s, start, end) {
        let near = if table_near(s, start) is Some {
            start
        } else {
            end
        };
        let (top, head, last) = lemma_found_on(s, near);
        lemma_lines_of_spliced(s, head, last, Seq::empty());
        lemma_index_at(s, lines(s)[head].0);
        lemma_index_at(s, lines(s)[last].1);
        let a = index_at(s, span.0);
        let b = index_at(s, span.1);
        let source = changed_source(s, shape, change);
        let new = restructured(s, start, end, change);
        assert(new.take(a) =~= s.take(a));
        assert(new.subrange(a, a + source.len()) =~= source);
        assert(new.skip(a + source.len()) =~= s.skip(b));
    }
}

/// Whether what a change makes of a table's header can be told from a delimiter row: the change
/// deletes no column, or leaves a cell that is not made of dashes, or no table line stands above the
/// header that it could delimit.
pub open spec fn header_is_told_apart(
    s: Seq<char>,
    start: int,
    end: int,
    change: TableStructuralChange,
) -> bool {
    let row = row_at(s, table_start(s, start, end));
    ||| keeps_header(change)
    ||| !delimiter_line(written_row(normalized(changed(table_at(s, start, end), change)).header))
    ||| row == 0
    ||| !is_table_line(row_text(s, row - 1))
}

/// The header of a table stands on the row that the table starts on, and below a table line where it
/// is not the first of its block.
proof fn lemma_header_row(s: Seq<char>, top: int, head: int, last: int)
    requires
        is_table_block(s, top, head, last),
    ensures
        row_at(s, byte_offset(s, lines(s)[head].0) as int) == head,
        top < head ==> is_table_line(row_text(s, head - 1)),
{
    lemma_split_from(s, '\n', 0);
    let at = byte_offset(s, lines(s)[head].0) as int;
    assert(lines(s)[head].0 <= lines(s)[head].1);
    lemma_byte_offset_grows(s, lines(s)[head].0, lines(s)[head].1);
    lemma_row_near_within(s, at, 0, head, head);
    if top < head {
        assert(is_table_line(piece(s, lines(s)[head - 1])));
    }
}

/// What a change makes of a table reads back from every place within the source that was written:
/// it stands where the table stood, and holds what the table held with the change made to it. The
/// header that the change makes must not look like a delimiter row of lines above it.
pub proof fn law_a_changed_table_reads_back_in_its_buffer(
    s: Seq<char>,
    start: int,
    end: int,
    change: TableStructuralChange,
    near: int,
    far: int,
)
    requires
        fresh_table(s, start, end) is Some,
        header_is_told_apart(s, start, end, change),
        is_within(s, start, end, change, near),
    ensures
        ({
            let t = restructured(s, start, end, change);
            let from = table_start(s, start, end);
            let source = changed_source(s, (fresh_table(s, start, end)->0).1, change);
            &&& fresh_table(t, near, far) is Some
            &&& (fresh_table(t, near, far)->0).0 == (from, from + byte_length(source))
            &&& table_at(t, near, far) == normalized(changed(table_at(s, start, end), change))
            &&& index_at(t, from) == index_at(s, from)
            &&& index_at(t, from + byte_length(source)) == index_at(s, from) + source.len()
        }),
{
    let place = if table_near(s, start) is Some {
        start
    } else {
        end
    };
    let (top, head, last) = lemma_found_on(s, place);
    let table = table_at(s, start, end);
    let new = normalized(changed(table, change));
    law_a_table_that_was_read_is_plain(s, place);
    lemma_changes_keep_cells_plain(table, change);
    law_a_changed_table_is_rectangular(table, change);
    if top < head {
        if keeps_header(change) {
            lemma_header_stays_none(s, place, top, head, last, change);
        } else {
            lemma_header_row(s, top, head, last);
        }
        assert(!delimiter_line(written_row(new.header)));
    }
    let (span, shape) = fresh_table(s, start, end)->0;
    let source = changed_source(s, shape, change);
    assert(source == written_table(new));
    assert((span, shape) == table_with(s, lines(s), head + 1, last));
    let a = lines(s)[head].0;
    let b = lines(s)[last].1;
    lemma_lines_of_spliced(s, head, last, source);
    lemma_index_at(s, a);
    lemma_index_at(s, b);
    let t = restructured(s, start, end, change);
    assert(t == replaced(s, a, b, source));
    assert(near >= byte_offset(s, a));
    lemma_written_over(s, top, head, last, new, near);
    assert(fresh_table(t, near, far) == table_near(t, near));
}

/// Two changes one behind the other write what the second makes of what the first made.
proof fn lemma_two_changes(
    s: Seq<char>,
    start: int,
    end: int,
    first: TableStructuralChange,
    second: TableStructuralChange,
    near: int,
    far: int,
)
    requires
        fresh_table(s, start, end) is Some,
        keeps_header(first),
        is_within(s, start, end, first, near),
    ensures
        ({
            let (span, shape) = fresh_table(s, start, end)->0;
            let made = normalized(changed(content_of(s, shape), first));
            restructured(restructured(s, start, end, first), near, far, second) == replaced(
                s,
                index_at(s, span.0),
                index_at(s, span.1),
                written_table(normalized(changed(made, second))),
            )
        }),
{
    let (span, shape) = fresh_table(s, start, end)->0;
    let source = changed_source(s, shape, first);
    let t = restructured(s, start, end, first);
    law_a_changed_table_reads_back_in_its_buffer(s, start, end, first, near, far);
    law_the_text_round_a_table_stays(s, start, end, first);
    let a = index_at(s, span.0);
    let b = index_at(s, span.1);
    let made = normalized(changed(content_of(s, shape), first));
    let new = written_table(normalized(changed(made, second)));
    assert(replaced(t, a, a + source.len(), new) =~= replaced(s, a, b, new));
}

/// Normalizing the table in a buffer twice leaves what normalizing it once leaves.
pub proof fn law_normalizing_in_a_buffer_is_idempotent(
    s: Seq<char>,
    start: int,
    end: int,
    near: int,
    far: int,
)
    requires
        fresh_table(s, start, end) is Some,
        is_within(s, start, end, TableStructuralChange::Normalize, near),
    ensures
        ({
            let once = restructured(s, start, end, TableStructuralChange::Normalize);
            restructured(once, near, far, TableStructuralChange::Normalize) == once
        }),
{
    let change = TableStructuralChange::Normalize;
    lemma_two_changes(s, start, end, change, change, near, far);
    law_normalizing_is_idempotent(table_at(s, start, end));
}

/// The change that takes a change back, for the table that it is made to.
pub open spec fn is_undone_by(
    table: TableContent,
    change: TableStructuralChange,
    back: TableStructuralChange,
) -> bool {
    match (change, back) {
        (
            TableStructuralChange::MoveRow { from, to },
            TableStructuralChange::MoveRow { from: back_from, to: back_to },
        ) => back_from == to && back_to == from,
        (
            TableStructuralChange::MoveColumn { from, to },
            TableStructuralChange::MoveColumn { from: back_from, to: back_to },
        ) => back_from == to && back_to == from,
        (TableStructuralChange::AddRow, TableStructuralChange::DeleteRow(index)) => index
            == table.rows.len(),
        (TableStructuralChange::AddColumn, TableStructuralChange::DeleteColumn(index)) => index
            == table.header.len(),
        _ => false,
    }
}

/// A change of the table in a buffer and the one that takes it back leave what normalizing the
/// table leaves: a row or a column that is moved there and back, and one that is added and deleted.
/// The table has one delimiter cell for each column.
pub proof fn law_a_change_that_is_undone_only_normalizes(
    s: Seq<char>,
    start: int,
    end: int,
    change: TableStructuralChange,
    back: TableStructuralChange,
    near: int,
    far: int,
)
    requires
        fresh_table(s, start, end) is Some,
        ({
            let table = table_at(s, start, end);
            table.alignments.len() == table.header.len()
        }),
        is_undone_by(table_at(s, start, end), change, back),
        is_within(s, start, end, change, near),
    ensures
        restructured(restructured(s, start, end, change), near, far, back) == restructured(
            s,
            start,
            end,
            TableStructuralChange::Normalize,
        ),
{
    let table = table_at(s, start, end);
    if table_near(s, start) is Some {
        law_a_table_that_was_read_is_plain(s, start);
    } else {
        law_a_table_that_was_read_is_plain(s, end);
    }
    assert(rectangular(table));
    let made = changed(table, change);
    lemma_rectangular_stays(table, change);
    law_normalizing_is_idempotent(made);
    law_normalizing_is_idempotent(table);
    lemma_two_changes(s, start, end, change, back, near, far);
    match change {
        TableStructuralChange::MoveRow { from, to } => {
            law_moving_a_row_back_undoes_the_move(table, from, to);
        },
        TableStructuralChange::MoveColumn { from, to } => {
            law_moving_a_column_back_undoes_the_move(table, from, to);
        },
        TableStructuralChange::AddRow => {
            law_deleting_an_added_row_undoes_it(table);
        },
        TableStructuralChange::AddColumn => {
            law_deleting_an_added_column_undoes_it(table);
        },
        _ => {},
    }
}

proof fn lemma_rectangular_stays(table: TableContent, change: TableStructuralChange)
    requires
        rectangular(table),
    ensures
        rectangular(changed(table, change)),
{
    let new = changed(table, change);
    assert forall|r: int| 0 <= r < new.rows.len() implies (#[trigger] new.rows[r]).len()
        == new.header.len() by {
        match change {
            TableStructuralChange::MoveRow { from, to } => {
                if from < table.rows.len() && to < table.rows.len() {
                    let at = if r == to {
                        from as int
                    } else {
                        let skipped = if r < to {
                            r
                        } else {
                            r - 1
                        };
                        if skipped < from {
                            skipped
                        } else {
                            skipped + 1
                        }
                    };
                    assert(new.rows[r] == table.rows[at]);
                } else {
                    assert(new.rows[r] == table.rows[r]);
                }
            },
            TableStructuralChange::DeleteRow(index) => {
                if index < table.rows.len() {
                    let at = if r < index {
                        r
                    } else {
                        r + 1
                    };
                    assert(new.rows[r] == table.rows[at]);
                } else {
                    assert(new.rows[r] == table.rows[r]);
                }
            },
            TableStructuralChange::AddRow => {
                if r < table.rows.len() {
                    assert(new.rows[r] == table.rows[r]);
                }
            },
            _ => {
                assert(table.rows[r].len() == table.header.len());
            },
        }
    }
}

/// A column that is moved takes its cells and its alignment along.
pub proof fn law_a_moved_column_takes_its_alignment(
    s: Seq<char>,
    start: int,
    end: int,
    from: usize,
    to: usize,
    near: int,
    far: int,
)
    requires
        fresh_table(s, start, end) is Some,
        ({
            let table = table_at(s, start, end);
            &&& table.alignments.len() == table.header.len()
            &&& from < table.header.len()
            &&& to < table.header.len()
        }),
        is_within(s, start, end, TableStructuralChange::MoveColumn { from, to }, near),
    ensures
        ({
            let change = TableStructuralChange::MoveColumn { from, to };
            let table = table_at(s, start, end);
            let new = table_at(restructured(s, start, end, change), near, far);
            &&& new.header == moved(table.header, from as int, to as int)
            &&& new.alignments == moved(table.alignments, from as int, to as int)
            &&& new.header[to as int] == table.header[from as int]
            &&& new.alignments[to as int] == table.alignments[from as int]
            &&& new.rows.len() == table.rows.len()
            &&& forall|r: int|
                0 <= r < table.rows.len() ==> #[trigger] new.rows[r] == moved(
                    table.rows[r],
                    from as int,
                    to as int,
                )
        }),
{
    let change = TableStructuralChange::MoveColumn { from, to };
    let table = table_at(s, start, end);
    if table_near(s, start) is Some {
        law_a_table_that_was_read_is_plain(s, start);
    } else {
        law_a_table_that_was_read_is_plain(s, end);
    }
    lemma_rectangular_stays(table, change);
    law_normalizing_is_idempotent(changed(table, change));
    law_a_changed_table_reads_back_in_its_buffer(s, start, end, change, near, far);
}

/// Whether a change names a row or a column that the table does not have, or would take its last
/// column.
pub open spec fn is_out_of_range(table: TableContent, change: TableStructuralChange) -> bool {
    match change {
        TableStructuralChange::MoveRow { from, to } => from >= table.rows.len() || to
            >= table.rows.len(),
        TableStructuralChange::MoveColumn { from, to } => from >= table.header.len() || to
            >= table.header.len(),
        TableStructuralChange::DeleteRow(index) => index >= table.rows.len(),
        TableStructuralChange::DeleteColumn(index) => index >= table.header.len()
            || table.header.len() == 1,
        _ => false,
    }
}

/// A change out of range only normalizes the table.
pub proof fn law_a_change_out_of_range_only_normalizes(
    s: Seq<char>,
    start: int,
    end: int,
    change: TableStructuralChange,
)
    requires
        fresh_table(s, start, end) is Some,
        is_out_of_range(table_at(s, start, end), change),
    ensures
        restructured(s, start, end, change) == restructured(
            s,
            start,
            end,
            TableStructuralChange::Normalize,
        ),
{
    let table = table_at(s, start, end);
    assert(changed(table, change) == table);
}

/// After any change, every line of the table's source is a row of as many cells as the header has
/// columns, the delimiter row too. The cells of a row that the source left out are blank.
pub proof fn law_every_line_of_a_changed_table_has_its_cells(
    s: Seq<char>,
    start: int,
    end: int,
    change: TableStructuralChange,
    k: int,
)
    requires
        fresh_table(s, start, end) is Some,
        ({
            let source = changed_source(s, (fresh_table(s, start, end)->0).1, change);
            0 <= k < lines(source).len()
        }),
    ensures
        ({
            let source = changed_source(s, (fresh_table(s, start, end)->0).1, change);
            let table = normalized(changed(table_at(s, start, end), change));
            let line = piece(source, lines(source)[k]);
            let cells = if k == 0 {
                table.header
            } else if k == 1 {
                delimiter_markers(table.alignments)
            } else {
                table.rows[k - 2]
            };
            &&& lines(source).len() == table.rows.len() + 2
            &&& line == written_row(cells)
            &&& cells.len() == table.header.len()
            &&& row_cells(line).len() == table.header.len()
            &&& forall|m: int|
                0 <= m < cells.len() ==> trim(piece(line, #[trigger] row_cells(line)[m]))
                    == cells[m]
        }),
{
    let table = normalized(changed(table_at(s, start, end), change));
    if table_near(s, start) is Some {
        law_a_table_that_was_read_is_plain(s, start);
    } else {
        law_a_table_that_was_read_is_plain(s, end);
    }
    lemma_changes_keep_cells_plain(table_at(s, start, end), change);
    law_a_changed_table_is_rectangular(table_at(s, start, end), change);
    lemma_lines_of_written(table);
    lemma_markers_are_plain(table.alignments);
    if k == 0 {
        lemma_written_row_reads_back(table.header);
    } else if k == 1 {
        lemma_written_row_reads_back(delimiter_markers(table.alignments));
    } else {
        assert(plain_cells(table.rows[k - 2]));
        assert(table.rows[k - 2].len() == table.header.len());
        lemma_written_row_reads_back(table.rows[k - 2]);
    }
}

// ---------------------------------------------------------------------------------------------
// Reading
// ---------------------------------------------------------------------------------------------

/// Whether a text starts with a colon.
pub open spec fn opens_with_colon(text: Seq<char>) -> bool {
    text.len() > 0 && text[0] == ':'
}

/// Whether a text ends with a colon.
pub open spec fn closes_with_colon(text: Seq<char>) -> bool {
    text.len() > 0 && text[text.len() - 1] == ':'
}

/// The text of the `k`th cell of a line, and nothing where the line has fewer.
pub open spec fn cell_of_line(line: Seq<char>, k: int) -> Seq<char> {
    if 0 <= k < row_cells(line).len() {
        trim(piece(line, row_cells(line)[k]))
    } else {
        Seq::empty()
    }
}

proof fn lemma_longest_bounds<T>(rows: Seq<Seq<T>>)
    ensures
        forall|r: int| 0 <= r < rows.len() ==> (#[trigger] rows[r]).len() <= longest(rows),
        rows.len() > 0 ==> exists|r: int|
            0 <= r < rows.len() && (#[trigger] rows[r]).len() == longest(rows),
        rows.len() == 0 ==> longest(rows) == 0,
    decreases rows.len(),
{
    if rows.len() > 0 {
        let front = rows.drop_last();
        lemma_longest_bounds(front);
        assert forall|r: int| 0 <= r < rows.len() implies (#[trigger] rows[r]).len() <= longest(
            rows,
        ) by {
            if r < front.len() {
                assert(front[r] == rows[r]);
            }
        }
        if rows.last().len() > longest(front) {
            assert(rows[rows.len() - 1].len() == longest(rows));
        } else if front.len() > 0 {
            let r = choose|r: int|
                0 <= r < front.len() && (#[trigger] front[r]).len() == longest(front);
            assert(rows[r].len() == longest(rows));
        } else {
            assert(rows[0].len() == longest(rows));
        }
    }
}

proof fn lemma_cells_of_line(s: Seq<char>, row: int, columns: nat, k: int)
    requires
        0 <= row < lines(s).len(),
        0 <= k < columns,
    ensures
        cells_content(s, resized(line_cells(s, lines(s)[row]), columns, None))[k] == cell_of_line(
            piece(s, lines(s)[row]),
            k,
        ),
{
    lemma_split_from(s, '\n', 0);
    let bounds = lines(s)[row];
    let line = piece(s, bounds);
    lemma_row_cells(line);
    if k < row_cells(line).len() {
        lemma_cell_of_line(s, bounds, row_cells(line)[k]);
    }
}

/// The lines of a table, wherever the table stands and from wherever in it one looks: its header is
/// the line above its first delimiter row, and its rows are the lines below that, to the end of the
/// block. Every row has as many cells as the longest one, each with the trimmed text that the line
/// has there, and an empty one where it has none. The delimiter row gives the alignments.
pub proof fn law_a_table_reads_its_lines(
    s: Seq<char>,
    top: int,
    head: int,
    last: int,
    near: int,
    r: int,
    k: int,
)
    requires
        is_table_block(s, top, head, last),
        byte_offset(s, lines(s)[head].0) <= near <= byte_offset(s, lines(s)[last].1),
    ensures
        table_near(s, near) is Some,
        ({
            let (span, shape) = table_near(s, near)->0;
            let table = content_of(s, shape);
            let columns = table.header.len();
            let line = |row: int| piece(s, lines(s)[row]);
            &&& span == (
                byte_offset(s, lines(s)[head].0) as int,
                byte_offset(s, lines(s)[last].1) as int,
            )
            &&& table.rows.len() == last - head - 1
            &&& table.alignments == line_alignments(line(head + 1))
            &&& row_cells(line(head)).len() <= columns
            &&& head + 2 <= r <= last ==> row_cells(line(r)).len() <= columns && table.rows[r - head
                - 2].len() == columns
            &&& row_cells(line(head)).len() == columns || exists|q: int|
                head + 2 <= q <= last && row_cells(#[trigger] line(q)).len() == columns
            &&& 0 <= k < columns ==> table.header[k] == cell_of_line(line(head), k)
            &&& 0 <= k < columns && head + 2 <= r <= last ==> table.rows[r - head - 2][k]
                == cell_of_line(line(r), k)
        }),
{
    lemma_found_from(s, near, top, head, last);
    let rows = lines(s);
    let (span, shape) = table_near(s, near)->0;
    let table = content_of(s, shape);
    let columns = table.header.len();
    let body = body_cells(s, rows, head + 2, last);
    lemma_longest_bounds(body);
    let line = |row: int| piece(s, lines(s)[row]);
    assert(shape.header == resized(line_cells(s, rows[head]), columns, None));
    if 0 <= k < columns {
        lemma_cells_of_line(s, head, columns, k);
    }
    if head + 2 <= r <= last {
        assert(body[r - head - 2] == line_cells(s, rows[r]));
        assert(shape.rows[r - head - 2] == resized(body[r - head - 2], columns, None));
        if 0 <= k < columns {
            lemma_cells_of_line(s, r, columns, k);
        }
    }
    if row_cells(line(head)).len() != columns {
        let q = choose|q: int| 0 <= q < body.len() && (#[trigger] body[q]).len() == longest(body);
        assert(body[q] == line_cells(s, rows[head + 2 + q]));
        assert(row_cells(line(head + 2 + q)).len() == columns);
    }
}

/// Normalizing a table keeps, for each cell of its delimiter row, whether it starts with a colon and
/// whether it ends with one.
pub proof fn law_normalizing_keeps_the_colons(
    s: Seq<char>,
    top: int,
    head: int,
    last: int,
    near: int,
    k: int,
)
    requires
        is_table_block(s, top, head, last),
        byte_offset(s, lines(s)[head].0) <= near <= byte_offset(s, lines(s)[last].1),
        0 <= k < row_cells(piece(s, lines(s)[head + 1])).len(),
    ensures
        ({
            let (_, shape) = table_near(s, near)->0;
            let source = changed_source(s, shape, TableStructuralChange::Normalize);
            let old = cell_of_line(piece(s, lines(s)[head + 1]), k);
            let new = cell_of_line(piece(source, lines(source)[1]), k);
            k < content_of(s, shape).header.len() ==> {
                &&& opens_with_colon(new) == opens_with_colon(old)
                &&& closes_with_colon(new) == closes_with_colon(old)
            }
        }),
{
    law_a_table_reads_its_lines(s, top, head, last, near, head, k);
    let (_, shape) = table_near(s, near)->0;
    let table = content_of(s, shape);
    if k < table.header.len() {
        let change = TableStructuralChange::Normalize;
        law_a_table_that_was_read_is_plain(s, near);
        lemma_changes_keep_cells_plain(table, change);
        law_a_changed_table_is_rectangular(table, change);
        lemma_lines_of_written(normalized(table));
        law_every_line_of_a_changed_table_has_its_cells(s, near, near, change, 1);
        let line = piece(s, lines(s)[head + 1]);
        assert(normalized(table).alignments[k] == alignment_of(piece(line, row_cells(line)[k])));
    }
}

} // verus!
