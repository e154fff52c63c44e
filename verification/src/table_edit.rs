//! Structural edits of a pipe table: its content is read out of the text, changed, and written
//! back in normal form.

use crate::table::{
    cell_view, cells_view, parse_table_at, resized, table_near, CellAlignment, TableShape,
    TableStructure,
};
use crate::text::{
    is_boundary, lemma_byte_offset_grows, push_chars, push_text, same_chars, slice_at, spans,
    string_of, to_chars, trim, trimmed, views, Text,
};
use std::ops::Range;
use vstd::prelude::*;

verus! {

/// The content of a table: the trimmed text of every cell, and the columns' alignments.
#[derive(Debug)]
pub struct TableText {
    pub header: Vec<String>,
    pub alignments: Vec<CellAlignment>,
    pub rows: Vec<Vec<String>>,
}

/// What a [`TableText`] holds.
#[verifier::ext_equal]
pub struct TableContent {
    pub header: Seq<Seq<char>>,
    pub alignments: Seq<CellAlignment>,
    pub rows: Seq<Seq<Seq<char>>>,
}

/// The texts of several rows.
pub open spec fn row_views(rows: Seq<Vec<String>>) -> Seq<Seq<Seq<char>>> {
    Seq::new(rows.len(), |i: int| views(rows[i]@))
}

impl View for TableText {
    type V = TableContent;

    open spec fn view(&self) -> TableContent {
        TableContent {
            header: views(self.header@),
            alignments: self.alignments@,
            rows: row_views(self.rows@),
        }
    }
}

// ---------------------------------------------------------------------------------------------
// Reading
// ---------------------------------------------------------------------------------------------

/// The trimmed text of a cell; a cell that the source leaves out is empty.
pub open spec fn cell_content(s: Seq<char>, cell: Option<(int, int)>) -> Seq<char> {
    match cell {
        Some((start, end)) => match slice_at(s, start, end) {
            Some(part) => trim(part),
            None => Seq::empty(),
        },
        None => Seq::empty(),
    }
}

/// The trimmed texts of several cells.
pub open spec fn cells_content(s: Seq<char>, cells: Seq<Option<(int, int)>>) -> Seq<Seq<char>> {
    Seq::new(cells.len(), |k: int| cell_content(s, cells[k]))
}

/// What the cells of a table hold.
pub open spec fn content_of(s: Seq<char>, shape: TableShape) -> TableContent {
    TableContent {
        header: cells_content(s, shape.header),
        alignments: shape.alignments,
        rows: Seq::new(shape.rows.len(), |k: int| cells_content(s, shape.rows[k])),
    }
}

fn read_cell(text: &Text, cell: &Option<Range<usize>>) -> (result: String)
    requires
        text.wf(),
    ensures
        result@ == cell_content(text@, cell_view(*cell)),
{
    match cell {
        Some(range) => {
            if range.start <= range.end {
                match (text.index_of(range.start), text.index_of(range.end)) {
                    (Some(start), Some(end)) => {
                        proof {
                            if end < start {
                                lemma_byte_offset_grows(
                                    text@,
                                    end as int,
                                    start as int,
                                );
                            }
                        }
                        string_of(trimmed(text.part(start, end)))
                    },
                    _ => String::new(),
                }
            } else {
                String::new()
            }
        },
        None => String::new(),
    }
}

fn read_cells(text: &Text, cells: &Vec<Option<Range<usize>>>) -> (result: Vec<String>)
    requires
        text.wf(),
    ensures
        views(result@) == cells_content(text@, cells_view(cells@)),
{
    let mut result: Vec<String> = Vec::new();
    let mut k: usize = 0;
    while k < cells.len()
        invariant
            text.wf(),
            k <= cells@.len(),
            result@.len() == k,
            forall|m: int|
                0 <= m < k ==> (#[trigger] result@[m])@ == cell_content(
                    text@,
                    cell_view(cells@[m]),
                ),
        decreases cells@.len() - k,
    {
        result.push(read_cell(text, &cells[k]));
        k += 1;
    }
    assert(views(result@) =~= cells_content(text@, cells_view(cells@)));
    result
}

/// Reads the content of a table out of the text it was found in.
pub fn read_table(text: &str, structure: &TableStructure) -> (result: TableText)
    ensures
        result@ == content_of(text@, structure@),
{
    let text = Text::new(text);
    let header = read_cells(&text, &structure.header);
    let mut alignments: Vec<CellAlignment> = Vec::new();
    let mut k: usize = 0;
    while k < structure.alignments.len()
        invariant
            k <= structure.alignments@.len(),
            alignments@ == structure.alignments@.take(k as int),
        decreases structure.alignments@.len() - k,
    {
        alignments.push(structure.alignments[k]);
        k += 1;
        assert(alignments@ =~= structure.alignments@.take(k as int));
    }
    assert(alignments@ =~= structure.alignments@);
    let mut rows: Vec<Vec<String>> = Vec::new();
    let mut r: usize = 0;
    while r < structure.rows.len()
        invariant
            text.wf(),
            r <= structure.rows@.len(),
            rows@.len() == r,
            forall|m: int|
                0 <= m < r ==> views((#[trigger] rows@[m])@) == cells_content(
                    text@,
                    cells_view(structure.rows@[m]@),
                ),
        decreases structure.rows@.len() - r,
    {
        rows.push(read_cells(&text, &structure.rows[r]));
        r += 1;
    }
    let result = TableText { header, alignments, rows };
    assert(result@ =~~= content_of(text@, structure@));
    result
}

// ---------------------------------------------------------------------------------------------
// Changing
// ---------------------------------------------------------------------------------------------

/// A change to the rows and columns of a table.
#[derive(Clone, Copy, Debug)]
pub enum TableStructuralChange {
    AddColumn,
    AddRow,
    MoveRow { from: usize, to: usize },
    MoveColumn { from: usize, to: usize },
    DeleteRow(usize),
    DeleteColumn(usize),
    /// Rewrites the table without structural additions, which makes any cell that the source left
    /// out exist.
    Normalize,
}

/// The item at `from` taken out and put back at `to`.
pub open spec fn moved<T>(items: Seq<T>, from: int, to: int) -> Seq<T> {
    if 0 <= from < items.len() && 0 <= to < items.len() {
        items.remove(from).insert(to, items[from])
    } else {
        items
    }
}

/// The items without the one at `index`.
pub open spec fn without<T>(items: Seq<T>, index: int) -> Seq<T> {
    if 0 <= index < items.len() {
        items.remove(index)
    } else {
        items
    }
}

/// Every row with `empty` cells behind it.
pub open spec fn with_empty_cell(rows: Seq<Seq<Seq<char>>>) -> Seq<Seq<Seq<char>>> {
    Seq::new(rows.len(), |i: int| rows[i].push(Seq::empty()))
}

/// `count` empty cells.
pub open spec fn empty_cells(count: nat) -> Seq<Seq<char>> {
    Seq::new(count, |i: int| Seq::empty())
}

/// Every row with its cell at `from` moved to `to`.
pub open spec fn cells_moved(rows: Seq<Seq<Seq<char>>>, from: int, to: int) -> Seq<
    Seq<Seq<char>>,
> {
    Seq::new(rows.len(), |i: int| moved(rows[i], from, to))
}

/// Every row without its cell at `index`.
pub open spec fn cells_without(rows: Seq<Seq<Seq<char>>>, index: int) -> Seq<Seq<Seq<char>>> {
    Seq::new(rows.len(), |i: int| without(rows[i], index))
}

/// The content after a change. A change that names a row or column which is not there, and one
/// that would delete the last column, does nothing.
pub open spec fn changed(table: TableContent, change: TableStructuralChange) -> TableContent {
    match change {
        TableStructuralChange::AddColumn => TableContent {
            header: table.header.push(Seq::empty()),
            alignments: table.alignments.push(CellAlignment::Unset),
            rows: with_empty_cell(table.rows),
        },
        TableStructuralChange::AddRow => TableContent {
            rows: table.rows.push(empty_cells(table.header.len())),
            ..table
        },
        TableStructuralChange::MoveRow { from, to } => TableContent {
            rows: moved(table.rows, from as int, to as int),
            ..table
        },
        TableStructuralChange::MoveColumn { from, to } => if from < table.header.len() && to
            < table.header.len() {
            TableContent {
                header: moved(table.header, from as int, to as int),
                alignments: moved(table.alignments, from as int, to as int),
                rows: cells_moved(table.rows, from as int, to as int),
            }
        } else {
            table
        },
        TableStructuralChange::DeleteRow(index) => TableContent {
            rows: without(table.rows, index as int),
            ..table
        },
        TableStructuralChange::DeleteColumn(index) => if table.header.len() > 1 && index
            < table.header.len() {
            TableContent {
                header: without(table.header, index as int),
                alignments: without(table.alignments, index as int),
                rows: cells_without(table.rows, index as int),
            }
        } else {
            table
        },
        TableStructuralChange::Normalize => table,
    }
}

/// Every row cut, or filled up with empty cells, to `count`.
pub open spec fn normalized_rows(rows: Seq<Seq<Seq<char>>>, count: nat) -> Seq<Seq<Seq<char>>> {
    Seq::new(rows.len(), |i: int| resized(rows[i], count, Seq::empty()))
}

/// The content with as many alignments, and as many cells in every row, as the header has cells.
pub open spec fn normalized(table: TableContent) -> TableContent {
    TableContent {
        header: table.header,
        alignments: resized(table.alignments, table.header.len(), CellAlignment::Unset),
        rows: normalized_rows(table.rows, table.header.len()),
    }
}

/// Takes out the item at `from` and puts it back at `to`, where both are there.
fn move_item<T>(items: &mut Vec<T>, from: usize, to: usize)
    ensures
        final(items)@ == moved(old(items)@, from as int, to as int),
{
    if from < items.len() && to < items.len() {
        let item = items.remove(from);
        items.insert(to, item);
    }
}

/// Takes out the item at `index`, where it is there.
fn remove_item<T>(items: &mut Vec<T>, index: usize)
    ensures
        final(items)@ == without(old(items)@, index as int),
{
    if index < items.len() {
        items.remove(index);
    }
}

/// A row of `count` empty cells.
fn empty_row(count: usize) -> (row: Vec<String>)
    ensures
        views(row@) == empty_cells(count as nat),
{
    let mut row: Vec<String> = Vec::new();
    while row.len() < count
        invariant
            row@.len() <= count,
            forall|m: int| 0 <= m < row@.len() ==> (#[trigger] row@[m])@ == Seq::<char>::empty(),
        decreases count - row@.len(),
    {
        row.push(String::new());
    }
    assert(views(row@) =~= empty_cells(count as nat));
    row
}

/// Cuts a row, or fills it up with empty cells, to `count`.
fn resize_row(row: &mut Vec<String>, count: usize)
    ensures
        views(final(row)@) == resized(views(old(row)@), count as nat, Seq::empty()),
{
    while row.len() < count
        invariant
            old(row)@.len() <= row@.len(),
            row@.len() > old(row)@.len() ==> row@.len() <= count,
            forall|m: int| 0 <= m < old(row)@.len() ==> row@[m] == old(row)@[m],
            forall|m: int|
                old(row)@.len() <= m < row@.len() ==> (#[trigger] row@[m])@ == Seq::<
                    char,
                >::empty(),
        decreases count - row@.len(),
    {
        row.push(String::new());
    }
    row.truncate(count);
    assert(views(row@) =~= resized(views(old(row)@), count as nat, Seq::empty()));
}

/// Puts an empty cell behind every row.
fn add_cells(rows: &mut Vec<Vec<String>>)
    ensures
        row_views(final(rows)@) == with_empty_cell(row_views(old(rows)@)),
{
    let mut i: usize = 0;
    while i < rows.len()
        invariant
            i <= rows@.len(),
            rows@.len() == old(rows)@.len(),
            forall|m: int|
                0 <= m < i ==> views((#[trigger] rows@[m])@) == views(old(rows)@[m]@).push(Seq::empty()),
            forall|m: int| i <= m < rows@.len() ==> #[trigger] rows@[m] == old(rows)@[m],
        decreases rows@.len() - i,
    {
        rows[i].push(String::new());
        assert(views(rows@[i as int]@) =~= views(old(rows)@[i as int]@).push(Seq::empty()));
        i += 1;
    }
    assert(row_views(rows@) =~= with_empty_cell(row_views(old(rows)@)));
}

/// Moves the cell at `from` to `to` in every row.
fn move_cells(rows: &mut Vec<Vec<String>>, from: usize, to: usize)
    ensures
        row_views(final(rows)@) == cells_moved(row_views(old(rows)@), from as int, to as int),
{
    let mut i: usize = 0;
    while i < rows.len()
        invariant
            i <= rows@.len(),
            rows@.len() == old(rows)@.len(),
            forall|m: int|
                0 <= m < i ==> views((#[trigger] rows@[m])@) == moved(views(old(rows)@[m]@), from as int, to as int),
            forall|m: int| i <= m < rows@.len() ==> #[trigger] rows@[m] == old(rows)@[m],
        decreases rows@.len() - i,
    {
        move_item(&mut rows[i], from, to);
        assert(views(rows@[i as int]@) =~= moved(
            views(old(rows)@[i as int]@),
            from as int,
            to as int,
        ));
        i += 1;
    }
    assert(row_views(rows@) =~= cells_moved(row_views(old(rows)@), from as int, to as int));
}

/// Takes the cell at `index` out of every row.
fn remove_cells(rows: &mut Vec<Vec<String>>, index: usize)
    ensures
        row_views(final(rows)@) == cells_without(row_views(old(rows)@), index as int),
{
    let mut i: usize = 0;
    while i < rows.len()
        invariant
            i <= rows@.len(),
            rows@.len() == old(rows)@.len(),
            forall|m: int|
                0 <= m < i ==> views((#[trigger] rows@[m])@) == without(views(old(rows)@[m]@), index as int),
            forall|m: int| i <= m < rows@.len() ==> #[trigger] rows@[m] == old(rows)@[m],
        decreases rows@.len() - i,
    {
        remove_item(&mut rows[i], index);
        assert(views(rows@[i as int]@) =~= without(views(old(rows)@[i as int]@), index as int));
        i += 1;
    }
    assert(row_views(rows@) =~= cells_without(row_views(old(rows)@), index as int));
}

/// Cuts every row, or fills it up with empty cells, to `count`.
fn resize_rows(rows: &mut Vec<Vec<String>>, count: usize)
    ensures
        row_views(final(rows)@) == normalized_rows(row_views(old(rows)@), count as nat),
{
    let mut i: usize = 0;
    while i < rows.len()
        invariant
            i <= rows@.len(),
            rows@.len() == old(rows)@.len(),
            forall|m: int|
                0 <= m < i ==> views((#[trigger] rows@[m])@) == resized(views(old(rows)@[m]@), count as nat, Seq::empty()),
            forall|m: int| i <= m < rows@.len() ==> #[trigger] rows@[m] == old(rows)@[m],
        decreases rows@.len() - i,
    {
        resize_row(&mut rows[i], count);
        i += 1;
    }
    assert(row_views(rows@) =~= normalized_rows(row_views(old(rows)@), count as nat));
}

impl TableText {
    /// Makes a structural change.
    pub fn change(&mut self, change: TableStructuralChange)
        ensures
            final(self)@ == changed(old(self)@, change),
    {
        match change {
            TableStructuralChange::AddColumn => {
                self.header.push(String::new());
                self.alignments.push(CellAlignment::Unset);
                add_cells(&mut self.rows);
            },
            TableStructuralChange::AddRow => {
                self.rows.push(empty_row(self.header.len()));
            },
            TableStructuralChange::MoveRow { from, to } => {
                move_item(&mut self.rows, from, to);
            },
            TableStructuralChange::MoveColumn { from, to } => {
                if from < self.header.len() && to < self.header.len() {
                    move_item(&mut self.header, from, to);
                    move_item(&mut self.alignments, from, to);
                    move_cells(&mut self.rows, from, to);
                }
            },
            TableStructuralChange::DeleteRow(index) => {
                remove_item(&mut self.rows, index);
            },
            TableStructuralChange::DeleteColumn(index) => {
                if self.header.len() > 1 && index < self.header.len() {
                    remove_item(&mut self.header, index);
                    remove_item(&mut self.alignments, index);
                    remove_cells(&mut self.rows, index);
                }
            },
            TableStructuralChange::Normalize => {},
        }
        assert(self@ =~~= changed(old(self)@, change));
    }

    /// Gives every row, and the alignments, as many items as the header has cells.
    pub fn normalize(&mut self)
        ensures
            final(self)@ == normalized(old(self)@),
    {
        let columns: usize = self.header.len();
        while self.alignments.len() < columns
            invariant
                columns == self.header@.len(),
                self.header == old(self).header,
                self.rows == old(self).rows,
                old(self).alignments@.len() <= self.alignments@.len(),
                self.alignments@.len() > old(self).alignments@.len() ==> self.alignments@.len()
                    <= columns,
                forall|m: int|
                    0 <= m < old(self).alignments@.len() ==> self.alignments@[m] == old(
                        self,
                    ).alignments@[m],
                forall|m: int|
                    old(self).alignments@.len() <= m < self.alignments@.len()
                        ==> #[trigger] self.alignments@[m] == CellAlignment::Unset,
            decreases columns - self.alignments@.len(),
        {
            self.alignments.push(CellAlignment::Unset);
        }
        self.alignments.truncate(columns);
        resize_rows(&mut self.rows, columns);
        assert(self@ =~~= normalized(old(self)@));
    }

    /// The table's source.
    pub fn source(&self) -> (result: String)
        ensures
            result@ == written_table(self@),
    {
        let mut result = written_row_text(&self.header);
        result.push('\n');
        let mut delimiter = String::new();
        delimiter.push('|');
        let mut k: usize = 0;
        while k < self.alignments.len()
            invariant
                k <= self.alignments@.len(),
                delimiter@ == seq!['|'] + written_cells(
                    delimiter_markers(self.alignments@).take(k as int),
                ),
            decreases self.alignments@.len() - k,
        {
            push_delimiter(&mut delimiter, self.alignments[k]);
            k += 1;
            let ghost markers = delimiter_markers(self.alignments@);
            assert(markers.take(k as int).drop_last() =~= markers.take(k - 1));
            assert(delimiter@ =~= seq!['|'] + written_cells(markers.take(k as int)));
        }
        assert(delimiter_markers(self.alignments@).take(k as int) =~= delimiter_markers(
            self.alignments@,
        ));
        push_text(&mut result, delimiter.as_str());
        let ghost head = result@;
        let mut r: usize = 0;
        while r < self.rows.len()
            invariant
                r <= self.rows@.len(),
                result@ == head + written_rows(self@.rows.take(r as int)),
            decreases self.rows@.len() - r,
        {
            result.push('\n');
            push_text(&mut result, written_row_text(&self.rows[r]).as_str());
            r += 1;
            assert(self@.rows.take(r as int).drop_last() =~= self@.rows.take(r - 1));
            assert(result@ =~= head + written_rows(self@.rows.take(r as int)));
        }
        assert(self@.rows.take(r as int) =~= self@.rows);
        assert(result@ =~= written_table(self@));
        result
    }
}

// ---------------------------------------------------------------------------------------------
// Writing
// ---------------------------------------------------------------------------------------------

/// A cell as it is written behind a pipe, with its padding and the pipe that closes it.
pub open spec fn written_cell(cell: Seq<char>) -> Seq<char> {
    if cell.len() == 0 {
        seq![' ', ' ', ' ', '|']
    } else {
        seq![' '] + cell + seq![' ', '|']
    }
}

/// The cells of a row as they are written.
pub open spec fn written_cells(cells: Seq<Seq<char>>) -> Seq<char>
    decreases cells.len(),
{
    if cells.len() == 0 {
        Seq::empty()
    } else {
        written_cells(cells.drop_last()) + written_cell(cells.last())
    }
}

/// A row of cells, padded and between pipes.
pub open spec fn written_row(cells: Seq<Seq<char>>) -> Seq<char> {
    seq!['|'] + written_cells(cells)
}

/// The delimiter cell that asks for an alignment.
pub open spec fn delimiter_marker(alignment: CellAlignment) -> Seq<char> {
    match alignment {
        CellAlignment::Unset => seq!['-', '-', '-'],
        CellAlignment::Left => seq![':', '-', '-'],
        CellAlignment::Center => seq![':', '-', ':'],
        CellAlignment::Right => seq!['-', '-', ':'],
    }
}

/// The markers of several alignments.
pub open spec fn delimiter_markers(alignments: Seq<CellAlignment>) -> Seq<Seq<char>> {
    Seq::new(alignments.len(), |k: int| delimiter_marker(alignments[k]))
}

/// The rows below the delimiter, each on a line of its own.
pub open spec fn written_rows(rows: Seq<Seq<Seq<char>>>) -> Seq<char>
    decreases rows.len(),
{
    if rows.len() == 0 {
        Seq::empty()
    } else {
        written_rows(rows.drop_last()) + seq!['\n'] + written_row(rows.last())
    }
}

/// The source of a table: its header, its delimiter row, its rows.
pub open spec fn written_table(table: TableContent) -> Seq<char> {
    written_row(table.header) + seq!['\n'] + written_row(delimiter_markers(table.alignments))
        + written_rows(table.rows)
}

fn push_cell(line: &mut String, cell: &str)
    ensures
        final(line)@ == old(line)@ + written_cell(cell@),
{
    let chars = to_chars(cell);
    line.push(' ');
    if chars.len() == 0 {
        line.push(' ');
    } else {
        push_text(line, cell);
    }
    line.push(' ');
    line.push('|');
    assert(line@ =~= old(line)@ + written_cell(cell@));
}

fn written_row_text(cells: &Vec<String>) -> (result: String)
    ensures
        result@ == written_row(views(cells@)),
{
    let mut line = String::new();
    line.push('|');
    let mut k: usize = 0;
    while k < cells.len()
        invariant
            k <= cells@.len(),
            line@ == seq!['|'] + written_cells(views(cells@).take(k as int)),
        decreases cells@.len() - k,
    {
        push_cell(&mut line, cells[k].as_str());
        k += 1;
        assert(views(cells@).take(k as int).drop_last() =~= views(cells@).take(k - 1));
        assert(line@ =~= seq!['|'] + written_cells(views(cells@).take(k as int)));
    }
    assert(views(cells@).take(k as int) =~= views(cells@));
    line
}

fn push_delimiter(line: &mut String, alignment: CellAlignment)
    ensures
        final(line)@ == old(line)@ + written_cell(delimiter_marker(alignment)),
{
    line.push(' ');
    match alignment {
        CellAlignment::Unset => {
            line.push('-');
            line.push('-');
            line.push('-');
        },
        CellAlignment::Left => {
            line.push(':');
            line.push('-');
            line.push('-');
        },
        CellAlignment::Center => {
            line.push(':');
            line.push('-');
            line.push(':');
        },
        CellAlignment::Right => {
            line.push('-');
            line.push('-');
            line.push(':');
        },
    }
    line.push(' ');
    line.push('|');
    assert(line@ =~= old(line)@ + written_cell(delimiter_marker(alignment)));
}

// ---------------------------------------------------------------------------------------------
// Editing the text
// ---------------------------------------------------------------------------------------------

/// The table at either end of a byte range, the start first.
pub open spec fn fresh_table(s: Seq<char>, start: int, end: int) -> Option<
    ((int, int), TableShape),
> {
    match table_near(s, start) {
        Some(table) => Some(table),
        None => table_near(s, end),
    }
}

/// Finds the table that now lies at `start..end` by parsing the text.
pub fn fresh_table_at(text: &str, start: usize, end: usize) -> (result: Option<
    (Range<usize>, TableStructure),
>)
    ensures
        match result {
            Some((range, structure)) => fresh_table(text@, start as int, end as int) == Some(
                ((range.start as int, range.end as int), structure@),
            ),
            None => fresh_table(text@, start as int, end as int) is None,
        },
{
    match parse_table_at(text, start) {
        Some(table) => Some(table),
        None => parse_table_at(text, end),
    }
}

/// The table's source after a change.
pub open spec fn changed_source(
    s: Seq<char>,
    shape: TableShape,
    change: TableStructuralChange,
) -> Seq<char> {
    written_table(normalized(changed(content_of(s, shape), change)))
}

/// Rebuilds the whole source of the table at `start..end` with a structural change, normalized.
/// Returns the byte range to replace and what to put there; `None` where no table is at that
/// place any more. The table is resolved from the text, since the caller's range may be stale.
pub fn apply_table_structural_change(
    text: &str,
    start: usize,
    end: usize,
    change: TableStructuralChange,
) -> (result: Option<(Range<usize>, String)>)
    ensures
        match fresh_table(text@, start as int, end as int) {
            Some((span, shape)) => result is Some && {
                let (range, source) = result->0;
                &&& (range.start as int, range.end as int) == span
                &&& source@ == changed_source(text@, shape, change)
            },
            None => result is None,
        },
{
    match fresh_table_at(text, start, end) {
        Some((range, structure)) => {
            let mut table = read_table(text, &structure);
            table.change(change);
            table.normalize();
            Some((range, table.source()))
        },
        None => None,
    }
}

// ---------------------------------------------------------------------------------------------
// Editing one cell
// ---------------------------------------------------------------------------------------------

/// Whether the last character of a text is a backslash that takes the meaning from the character
/// behind the text.
pub open spec fn ends_in_escape(s: Seq<char>) -> bool
    decreases s.len(),
{
    s.len() > 0 && s.last() == '\\' && !ends_in_escape(s.drop_last())
}

/// What an edited character becomes in a cell: a newline would end the row, and a pipe the cell
/// where it is not escaped yet.
pub open spec fn escaped_char(c: char, is_escaped: bool) -> Seq<char> {
    if c == '\n' {
        seq![' ']
    } else if c == '|' && !is_escaped {
        seq!['\\', '|']
    } else {
        seq![c]
    }
}

/// An edited text as it is written into a cell.
pub open spec fn escaped(edited: Seq<char>) -> Seq<char>
    decreases edited.len(),
{
    if edited.len() == 0 {
        Seq::empty()
    } else {
        escaped(edited.drop_last()) + escaped_char(
            edited.last(),
            ends_in_escape(edited.drop_last()),
        )
    }
}

/// What replaces the cell text `current` when `edited` is committed to it.
pub open spec fn committed(current: Seq<char>, edited: Seq<char>) -> Option<Seq<char>> {
    let new = trim(escaped(edited));
    if trim(current) == new {
        None
    } else {
        Some(seq![' '] + new + seq![' '])
    }
}

fn escape_cell(edited: &str) -> (result: Vec<char>)
    ensures
        result@ == escaped(edited@),
{
    let chars = to_chars(edited);
    let mut result: Vec<char> = Vec::new();
    let mut is_escaped = false;
    let mut i: usize = 0;
    while i < chars.len()
        invariant
            i <= chars@.len(),
            result@ == escaped(chars@.take(i as int)),
            is_escaped == ends_in_escape(chars@.take(i as int)),
        decreases chars@.len() - i,
    {
        let c = chars[i];
        let ghost before = result@;
        let ghost was_escaped = is_escaped;
        if c == '\n' {
            result.push(' ');
        } else {
            if c == '|' && !is_escaped {
                result.push('\\');
            }
            result.push(c);
        }
        is_escaped = c == '\\' && !is_escaped;
        i += 1;
        assert(chars@.take(i as int).drop_last() =~= chars@.take(i - 1));
        assert(result@ =~= before + escaped_char(c, was_escaped));
    }
    assert(chars@.take(i as int) =~= chars@);
    result
}

/// Writes a cell editor's text back into the table source: returns the byte range to replace and
/// what to put there, or `None` where the cell has collapsed or already holds that text.
pub fn commit_active_cell(text: &str, cell: Range<usize>, edited: &str) -> (result: Option<
    (Range<usize>, String),
>)
    requires
        is_boundary(text@, cell.start as int),
        is_boundary(text@, cell.end as int),
    ensures
        match slice_at(text@, cell.start as int, cell.end as int) {
            Some(current) => match committed(current, edited@) {
                Some(new) => result is Some && (result->0).0 == cell && (result->0).1@ == new,
                None => result is None,
            },
            None => result is None,
        },
{
    if cell.start > cell.end {
        return None;
    }
    let text = Text::new(text);
    let (start, end) = match (text.index_of(cell.start), text.index_of(cell.end)) {
        (Some(start), Some(end)) => (start, end),
        _ => {
            return None;
        },
    };
    proof {
        if end < start {
            lemma_byte_offset_grows(text@, end as int, start as int);
        }
    }
    let escaped_text = escape_cell(edited);
    let new = trimmed(escaped_text.as_slice());
    if same_chars(trimmed(text.part(start, end)), new) {
        return None;
    }
    let mut replacement = String::new();
    replacement.push(' ');
    push_chars(&mut replacement, new);
    replacement.push(' ');
    assert(replacement@ =~= seq![' '] + new@ + seq![' ']);
    Some((cell, replacement))
}

/// A cell's byte range; a cell that the source leaves out has an empty one at the start.
pub open spec fn cell_span(cell: Option<(int, int)>) -> (int, int) {
    match cell {
        Some(span) => span,
        None => (0, 0),
    }
}

/// The byte ranges of the cells of several rows, one row behind the other.
pub open spec fn cells_of_rows(rows: Seq<Seq<Option<(int, int)>>>) -> Seq<Option<(int, int)>>
    decreases rows.len(),
{
    if rows.len() == 0 {
        Seq::empty()
    } else {
        cells_of_rows(rows.drop_last()) + rows.last()
    }
}

/// The cells of a table in reading order.
pub open spec fn reading_order(shape: TableShape) -> Seq<(int, int)> {
    spans_of(shape.header + cells_of_rows(shape.rows))
}

fn push_spans(out: &mut Vec<Range<usize>>, cells: &Vec<Option<Range<usize>>>)
    ensures
        spans(final(out)@) == spans(old(out)@) + spans_of(cells_view(cells@)),
{
    let mut k: usize = 0;
    let ghost added = spans_of(cells_view(cells@));
    while k < cells.len()
        invariant
            k <= cells@.len(),
            added == spans_of(cells_view(cells@)),
            spans(out@) == spans(old(out)@) + added.take(k as int),
        decreases cells@.len() - k,
    {
        let ghost before = spans(out@);
        match &cells[k] {
            Some(range) => out.push(range.start..range.end),
            None => out.push(0..0),
        }
        assert(spans(out@) =~= before.push(added[k as int]));
        k += 1;
        assert(added.take(k as int) =~= added.take(k - 1).push(added[k - 1]));
    }
    assert(added.take(k as int) =~= added);
}

impl TableStructure {
    /// All cell ranges in reading order, for moving from cell to cell.
    pub fn cells_in_order(&self) -> (result: Vec<Range<usize>>)
        ensures
            spans(result@) == reading_order(self@),
    {
        let mut result: Vec<Range<usize>> = Vec::new();
        push_spans(&mut result, &self.header);
        let ghost shape = self@;
        let mut r: usize = 0;
        assert(cells_of_rows(shape.rows.take(0)) =~= Seq::empty());
        assert(spans(result@) =~= spans_of(shape.header + cells_of_rows(shape.rows.take(0))));
        while r < self.rows.len()
            invariant
                r <= self.rows@.len(),
                shape == self@,
                spans(result@) == spans_of(shape.header + cells_of_rows(shape.rows.take(r as int))),
            decreases self.rows@.len() - r,
        {
            let ghost before = spans(result@);
            push_spans(&mut result, &self.rows[r]);
            r += 1;
            assert(shape.rows.take(r as int).drop_last() =~= shape.rows.take(r - 1));
            assert(shape.rows.take(r as int).last() == cells_view(self.rows@[r - 1]@));
            assert(spans(result@) =~= spans_of(
                shape.header + cells_of_rows(shape.rows.take(r as int)),
            ));
        }
        assert(shape.rows.take(r as int) =~= shape.rows);
        assert(spans(result@) =~= reading_order(self@));
        result
    }
}

/// The byte ranges of several cells.
pub open spec fn spans_of(cells: Seq<Option<(int, int)>>) -> Seq<(int, int)> {
    Seq::new(cells.len(), |k: int| cell_span(cells[k]))
}

/// The first of the ranges, from `k` on, that the offset lies in or at an end of.
pub open spec fn first_around(cells: Seq<(int, int)>, offset: int, k: int) -> Option<int>
    decreases cells.len() - k,
{
    if k < 0 || k >= cells.len() {
        None
    } else if cells[k].0 <= offset <= cells[k].1 {
        Some(k)
    } else {
        first_around(cells, offset, k + 1)
    }
}

/// What mounting an editor over a cell needs: the cell's byte range, its trimmed text, and the
/// range of the cell that comes next in reading order.
#[derive(Debug)]
pub struct CellEdit {
    pub range: Range<usize>,
    pub text: String,
    pub next: Option<Range<usize>>,
}

/// The cell to edit for a click on what was a cell that started at the byte offset `stale_start`:
/// resolved from the text, since the clicked range may be stale. `None` where no cell of a table
/// is there.
pub fn start_cell_edit(text: &str, stale_start: usize) -> (result: Option<CellEdit>)
    ensures
        match table_near(text@, stale_start as int) {
            Some((_, shape)) => {
                let cells = reading_order(shape);
                match first_around(cells, stale_start as int, 0) {
                    Some(k) => result is Some && {
                        let edit = result->0;
                        &&& (edit.range.start as int, edit.range.end as int) == cells[k]
                        &&& edit.text@ == cell_content(text@, Some(cells[k]))
                        &&& match edit.next {
                            Some(next) => k + 1 < cells.len() && (
                                next.start as int,
                                next.end as int,
                            ) == cells[k + 1],
                            None => k + 1 == cells.len(),
                        }
                    },
                    None => result is None,
                }
            },
            None => result is None,
        },
{
    let (_, structure) = match parse_table_at(text, stale_start) {
        Some(table) => table,
        None => {
            return None;
        },
    };
    let cells = structure.cells_in_order();
    let ghost order = reading_order(structure@);
    assert(spans(cells@).len() == order.len());
    let count: usize = cells.len();
    let mut k: usize = 0;
    while k < count
        invariant
            k <= count,
            count == cells@.len(),
            count == order.len(),
            spans(cells@) == order,
            first_around(order, stale_start as int, 0) == first_around(
                order,
                stale_start as int,
                k as int,
            ),
            table_near(text@, stale_start as int) is Some,
            (table_near(text@, stale_start as int)->0).1 == structure@,
            order == reading_order(structure@),
        decreases count - k,
    {
        assert(spans(cells@)[k as int] == order[k as int]);
        if cells[k].start <= stale_start && stale_start <= cells[k].end {
            let range = cells[k].start..cells[k].end;
            let whole = Text::new(text);
            let cell = Some(cells[k].start..cells[k].end);
            let content = read_cell(&whole, &cell);
            let next = if k < count - 1 {
                assert(spans(cells@)[k + 1] == order[k + 1]);
                Some(cells[k + 1].start..cells[k + 1].end)
            } else {
                None
            };
            return Some(CellEdit { range, text: content, next });
        }
        k += 1;
    }
    None
}

} // verus!
