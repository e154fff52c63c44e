//! What a table widget shows and does: selected and dragged rows and columns, insertion
//! boundaries, and how each cell looks.

use crate::table::{larger, longest, CellAlignment, TableStructure};
use crate::table_edit::{moved, TableStructuralChange};
use crate::text::{found, to_chars, trim, trimmed, views};
use std::ops::Range;
use vstd::prelude::*;

verus! {

/// An insertion point between rows or columns: "insert before this index", with the count for
/// "behind the last".
#[derive(Clone, Copy, Debug, PartialEq, Eq, Structural)]
pub enum TableBoundary {
    Row(usize),
    Column(usize),
}

/// A whole row or column, chosen by its handle.
#[derive(Clone, Copy, Debug, PartialEq, Eq, Structural)]
pub enum TableUnit {
    /// A data row (the header cannot be chosen).
    Row(usize),
    Column(usize),
}

/// A row or column of the table at a byte range.
#[derive(Debug)]
pub struct TableUnitSelection {
    pub table_range: Range<usize>,
    pub unit: TableUnit,
}

impl Clone for TableUnitSelection {
    fn clone(&self) -> (result: Self)
        ensures
            result == *self,
    {
        TableUnitSelection {
            table_range: self.table_range.start..self.table_range.end,
            unit: self.unit,
        }
    }
}

/// What a table widget remembers between frames.
#[derive(Debug)]
pub struct TableWidgetState {
    pub selected_unit: Option<TableUnitSelection>,
    pub drag_source: Option<TableUnitSelection>,
    pub drop_boundary: Option<(Range<usize>, TableBoundary)>,
}

/// The unit of a selection that lies in the table at `table_start`.
pub open spec fn unit_in_table(selection: Option<TableUnitSelection>, table_start: usize) -> Option<
    TableUnit,
> {
    match selection {
        Some(selection) => if selection.table_range.start == table_start {
            Some(selection.unit)
        } else {
            None
        },
        None => None,
    }
}

/// The boundary of the table at `table_start`.
pub open spec fn boundary_in_table(
    boundary: Option<(Range<usize>, TableBoundary)>,
    table_start: usize,
) -> Option<TableBoundary> {
    match boundary {
        Some((range, boundary)) => if range.start == table_start {
            Some(boundary)
        } else {
            None
        },
        None => None,
    }
}

fn unit_of(selection: &Option<TableUnitSelection>, table_start: usize) -> (result: Option<
    TableUnit,
>)
    ensures
        result == unit_in_table(*selection, table_start),
{
    match selection {
        Some(selection) => if selection.table_range.start == table_start {
            Some(selection.unit)
        } else {
            None
        },
        None => None,
    }
}

/// What one table shows of the state.
#[derive(Clone, Copy, Debug)]
pub struct ShownUnits {
    pub selected: Option<TableUnit>,
    pub drag_source: Option<TableUnit>,
    pub boundary: Option<TableBoundary>,
}

impl TableWidgetState {
    /// A state with nothing selected and nothing dragged.
    pub fn new() -> (result: Self)
        ensures
            result.selected_unit is None,
            result.drag_source is None,
            result.drop_boundary is None,
    {
        TableWidgetState { selected_unit: None, drag_source: None, drop_boundary: None }
    }

    /// What the table at `table_start` shows: its selected unit always, its dragged unit and the
    /// boundary only while something is dragged.
    pub fn shown_units(&self, table_start: usize, dragging: bool) -> (result: ShownUnits)
        ensures
            result.selected == unit_in_table(self.selected_unit, table_start),
            result.drag_source == (if dragging {
                unit_in_table(self.drag_source, table_start)
            } else {
                None
            }),
            result.boundary == (if dragging {
                boundary_in_table(self.drop_boundary, table_start)
            } else {
                None
            }),
    {
        let selected = unit_of(&self.selected_unit, table_start);
        if !dragging {
            return ShownUnits { selected, drag_source: None, boundary: None };
        }
        let boundary = match &self.drop_boundary {
            Some((range, boundary)) => if range.start == table_start {
                Some(*boundary)
            } else {
                None
            },
            None => None,
        };
        ShownUnits { selected, drag_source: unit_of(&self.drag_source, table_start), boundary }
    }

    /// Records the insertion boundary the pointer indicates. Returns whether it is a new one.
    pub fn set_drop_boundary(&mut self, table_range: Range<usize>, boundary: TableBoundary) -> (
        result: bool)
        ensures
            result == !(old(self).drop_boundary matches Some((_, current)) && current == boundary),
            final(self).selected_unit == old(self).selected_unit,
            final(self).drag_source == old(self).drag_source,
            final(self).drop_boundary == (if result {
                Some((table_range, boundary))
            } else {
                old(self).drop_boundary
            }),
    {
        let same = match &self.drop_boundary {
            Some((_, current)) => *current == boundary,
            None => false,
        };
        if same {
            return false;
        }
        self.drop_boundary = Some((table_range, boundary));
        true
    }

    /// Marks the unit that a drag just started from.
    pub fn record_drag_source(&mut self, table_range: Range<usize>, unit: TableUnit)
        ensures
            final(self).selected_unit is None,
            final(self).drag_source == Some(TableUnitSelection { table_range, unit }),
            final(self).drop_boundary is None,
    {
        self.selected_unit = None;
        self.drag_source = Some(TableUnitSelection { table_range, unit });
        self.drop_boundary = None;
    }

    /// A click on a handle selects its unit, or clears the selection where that unit is selected.
    pub fn select_unit(&mut self, table_range: Range<usize>, unit: TableUnit)
        ensures
            final(self).drag_source == old(self).drag_source,
            final(self).drop_boundary == old(self).drop_boundary,
            match old(self).selected_unit {
                Some(selection) if selection.unit == unit => final(self).selected_unit is None,
                _ => final(self).selected_unit == Some(TableUnitSelection { table_range, unit }),
            },
    {
        let already = match &self.selected_unit {
            Some(selection) => selection.unit == unit,
            None => false,
        };
        self.selected_unit = if already {
            None
        } else {
            Some(TableUnitSelection { table_range, unit })
        };
    }

    /// Takes the selected unit to delete it: the byte range its table had, and the change that
    /// deletes it. `None` where nothing is selected.
    pub fn delete_selected_table_unit(&mut self) -> (result: Option<
        (Range<usize>, TableStructuralChange),
    >)
        ensures
            final(self).selected_unit is None,
            final(self).drag_source == old(self).drag_source,
            final(self).drop_boundary == old(self).drop_boundary,
            match old(self).selected_unit {
                Some(selection) => result == Some(
                    (selection.table_range, deletion_of(selection.unit)),
                ),
                None => result is None,
            },
    {
        let result = match &self.selected_unit {
            Some(selection) => {
                let change = match selection.unit {
                    TableUnit::Row(row) => TableStructuralChange::DeleteRow(row),
                    TableUnit::Column(column) => TableStructuralChange::DeleteColumn(column),
                };
                Some((selection.table_range.start..selection.table_range.end, change))
            },
            None => None,
        };
        self.selected_unit = None;
        result
    }

    /// Drops the dragged unit `from` of the table at `table_range` on the recorded boundary, if
    /// `boundary_is_here` says that the boundary is one of this table. Returns the change to make;
    /// the moved unit is then the selected one. Where nothing moves, nothing changes.
    pub fn drop_unit(&mut self, table_range: Range<usize>, boundary_is_here: bool, from: TableUnit) -> (
        result: Option<TableStructuralChange>)
        ensures
            match old(self).drop_boundary {
                Some((_, boundary)) if boundary_is_here => match moved_unit(from, boundary) {
                    Some((change, unit)) => {
                        &&& result == Some(change)
                        &&& final(self).drag_source is None
                        &&& final(self).drop_boundary is None
                        &&& final(self).selected_unit == Some(
                            TableUnitSelection { table_range, unit },
                        )
                    },
                    None => result is None && *final(self) == *old(self),
                },
                _ => result is None && *final(self) == *old(self),
            },
    {
        let boundary = match &self.drop_boundary {
            Some((_, boundary)) => *boundary,
            None => {
                return None;
            },
        };
        if !boundary_is_here {
            return None;
        }
        match boundary_drop(from, boundary) {
            Some((change, unit)) => {
                self.drag_source = None;
                self.drop_boundary = None;
                self.selected_unit = Some(TableUnitSelection { table_range, unit });
                Some(change)
            },
            None => None,
        }
    }
}

/// The change that deletes a unit.
pub open spec fn deletion_of(unit: TableUnit) -> TableStructuralChange {
    match unit {
        TableUnit::Row(row) => TableStructuralChange::DeleteRow(row),
        TableUnit::Column(column) => TableStructuralChange::DeleteColumn(column),
    }
}

/// Where an item ends up that is dragged from `from` to a boundary. Taking the item out first
/// shifts later items down by one; the two boundaries beside the item leave it where it is.
pub open spec fn move_target(from: int, boundary: int) -> Option<int> {
    if boundary == from || boundary == from + 1 {
        None
    } else if boundary > from {
        Some(boundary - 1)
    } else {
        Some(boundary)
    }
}

/// The change that dropping a unit on a boundary makes, and where the unit then stands.
pub open spec fn moved_unit(from: TableUnit, boundary: TableBoundary) -> Option<
    (TableStructuralChange, TableUnit),
> {
    match (from, boundary) {
        (TableUnit::Row(from), TableBoundary::Row(boundary)) => match move_target(
            from as int,
            boundary as int,
        ) {
            Some(to) => Some(
                (
                    TableStructuralChange::MoveRow { from, to: to as usize },
                    TableUnit::Row(to as usize),
                ),
            ),
            None => None,
        },
        (TableUnit::Column(from), TableBoundary::Column(boundary)) => match move_target(
            from as int,
            boundary as int,
        ) {
            Some(to) => Some(
                (
                    TableStructuralChange::MoveColumn { from, to: to as usize },
                    TableUnit::Column(to as usize),
                ),
            ),
            None => None,
        },
        _ => None,
    }
}

/// Where an item ends up that is dragged from `from` to a boundary.
pub fn move_to(from: usize, boundary: usize) -> (result: Option<usize>)
    ensures
        found(result) == move_target(from as int, boundary as int),
{
    if boundary == from || (boundary > from && boundary - from == 1) {
        None
    } else if boundary > from {
        Some(boundary - 1)
    } else {
        Some(boundary)
    }
}

/// The change that dropping a unit on a boundary makes, and where the unit then stands. `None`
/// where the drop moves nothing.
pub fn boundary_drop(from: TableUnit, boundary: TableBoundary) -> (result: Option<
    (TableStructuralChange, TableUnit),
>)
    ensures
        result == moved_unit(from, boundary),
{
    match (from, boundary) {
        (TableUnit::Row(from), TableBoundary::Row(boundary)) => match move_to(from, boundary) {
            Some(to) => Some((TableStructuralChange::MoveRow { from, to }, TableUnit::Row(to))),
            None => None,
        },
        (TableUnit::Column(from), TableBoundary::Column(boundary)) => match move_to(
            from,
            boundary,
        ) {
            Some(to) => Some(
                (TableStructuralChange::MoveColumn { from, to }, TableUnit::Column(to)),
            ),
            None => None,
        },
        _ => None,
    }
}

/// An item dropped on a boundary ends up right at it: what stood before the boundary stays before
/// the item, what stood behind it stays behind, and nothing else moves.
pub proof fn law_a_dropped_item_lands_on_its_boundary<T>(items: Seq<T>, from: int, boundary: int)
    requires
        0 <= from < items.len(),
        0 <= boundary <= items.len(),
    ensures
        match move_target(from, boundary) {
            Some(to) => {
                let before = items.take(boundary);
                let behind = items.skip(boundary);
                moved(items, from, to) == if boundary > from {
                    before.remove(from).push(items[from]) + behind
                } else {
                    before.push(items[from]) + behind.remove(from - boundary)
                }
            },
            None => boundary == from || boundary == from + 1,
        },
{
    match move_target(from, boundary) {
        Some(to) => {
            let before = items.take(boundary);
            let behind = items.skip(boundary);
            if boundary > from {
                assert(moved(items, from, to) =~= before.remove(from).push(items[from]) + behind);
            } else {
                assert(moved(items, from, to) =~= before.push(items[from]) + behind.remove(
                    from - boundary,
                ));
            }
        },
        None => {},
    }
}

/// The boundary a pointer over a column indicates: its near half the one before, its far half the
/// one behind.
pub fn column_boundary(column: usize, after: bool) -> (result: TableBoundary)
    requires
        column < usize::MAX,
    ensures
        result == TableBoundary::Column((column + if after {
            1int
        } else {
            0int
        }) as usize),
{
    if after {
        TableBoundary::Column(column + 1)
    } else {
        TableBoundary::Column(column)
    }
}

/// The boundary a pointer over a row indicates. Rows can only land below the header, so the header
/// (no data row) always indicates the first boundary.
pub fn row_boundary(data_row: Option<usize>, after: bool) -> (result: TableBoundary)
    requires
        data_row matches Some(row) ==> row < usize::MAX,
    ensures
        match data_row {
            None => result == TableBoundary::Row(0),
            Some(row) => result == TableBoundary::Row((row + if after {
                1int
            } else {
                0int
            }) as usize),
        },
{
    match data_row {
        None => TableBoundary::Row(0),
        Some(row) => if after {
            TableBoundary::Row(row + 1)
        } else {
            TableBoundary::Row(row)
        },
    }
}

/// Whether a unit covers the cell of a column in a data row, or in the header where there is none.
pub open spec fn covers_cell(unit: Option<TableUnit>, column: usize, data_row: Option<usize>) -> bool {
    match unit {
        Some(TableUnit::Row(row)) => data_row == Some(row),
        Some(TableUnit::Column(unit_column)) => column == unit_column,
        None => false,
    }
}

/// Whether a unit covers a cell.
pub fn unit_covers_cell(unit: Option<TableUnit>, column: usize, data_row: Option<usize>) -> (result:
    bool)
    ensures
        result == covers_cell(unit, column, data_row),
{
    match unit {
        Some(TableUnit::Row(row)) => match data_row {
            Some(data_row) => data_row == row,
            None => false,
        },
        Some(TableUnit::Column(unit_column)) => column == unit_column,
        None => false,
    }
}

/// On which edge of a column's cells the insertion line stands while a column is dragged: on the
/// left one (`false`) of the column behind the boundary, and on the right one (`true`) of the last
/// column for the boundary behind it.
pub open spec fn column_edge(
    drag_source: Option<TableUnit>,
    drop_boundary: Option<TableBoundary>,
    column: int,
    columns: int,
) -> Option<bool> {
    match (drag_source, drop_boundary) {
        (Some(TableUnit::Column(_)), Some(TableBoundary::Column(boundary))) => if boundary
            == column {
            Some(false)
        } else if boundary == columns && column + 1 == columns {
            Some(true)
        } else {
            None
        },
        _ => None,
    }
}

/// On which edge of a row the insertion line stands while a row is dragged: on the top one
/// (`false`) of the data row behind the boundary, on the bottom one (`true`) of the header for the
/// first boundary, and on the bottom one of the last data row for the boundary behind it.
pub open spec fn row_edge(
    drag_source: Option<TableUnit>,
    drop_boundary: Option<TableBoundary>,
    data_row: Option<usize>,
    rows: int,
) -> Option<bool> {
    match (drag_source, drop_boundary) {
        (Some(TableUnit::Row(_)), Some(TableBoundary::Row(boundary))) => match data_row {
            None => if boundary == 0 {
                Some(true)
            } else {
                None
            },
            Some(row) => if boundary == row && row > 0 {
                Some(false)
            } else if boundary == rows && row + 1 == rows {
                Some(true)
            } else {
                None
            },
        },
        _ => None,
    }
}

/// While a column is dragged over a boundary of its table, the insertion line stands beside exactly
/// one column.
pub proof fn law_one_column_shows_the_boundary(
    from: usize,
    boundary: usize,
    columns: int,
    a: int,
    b: int,
)
    requires
        0 < columns,
        boundary <= columns,
        0 <= a < columns,
        0 <= b < columns,
    ensures
        ({
            let source = Some(TableUnit::Column(from));
            let target = Some(TableBoundary::Column(boundary));
            &&& column_edge(source, target, a, columns) is Some && column_edge(
                source,
                target,
                b,
                columns,
            ) is Some ==> a == b
            &&& exists|column: int|
                0 <= column < columns && #[trigger] column_edge(
                    source,
                    target,
                    column,
                    columns,
                ) is Some
        }),
{
    let source = Some(TableUnit::Column(from));
    let target = Some(TableBoundary::Column(boundary));
    let column = if boundary == columns {
        columns - 1
    } else {
        boundary as int
    };
    assert(column_edge(source, target, column, columns) is Some);
}

/// While a row is dragged over a boundary of its table, the insertion line stands at exactly one
/// row, the header counted.
pub proof fn law_one_row_shows_the_boundary(
    from: usize,
    boundary: usize,
    rows: usize,
    a: Option<usize>,
    b: Option<usize>,
)
    requires
        boundary <= rows,
        a matches Some(row) ==> row < rows,
        b matches Some(row) ==> row < rows,
    ensures
        ({
            let source = Some(TableUnit::Row(from));
            let target = Some(TableBoundary::Row(boundary));
            &&& row_edge(source, target, a, rows as int) is Some && row_edge(
                source,
                target,
                b,
                rows as int,
            ) is Some ==> a == b
            &&& exists|row: Option<usize>|
                (row matches Some(r) ==> r < rows) && #[trigger] row_edge(
                    source,
                    target,
                    row,
                    rows as int,
                ) is Some
        }),
{
    let source = Some(TableUnit::Row(from));
    let target = Some(TableBoundary::Row(boundary));
    let row = if boundary == 0 {
        None
    } else if boundary == rows {
        Some((rows - 1) as usize)
    } else {
        Some(boundary)
    };
    assert(row_edge(source, target, row, rows as int) is Some);
}

/// On which edge of a column's cells the insertion line stands while a column is dragged.
pub fn column_insertion(
    drag_source: Option<TableUnit>,
    drop_boundary: Option<TableBoundary>,
    column: usize,
    columns: usize,
) -> (result: Option<bool>)
    ensures
        result == column_edge(drag_source, drop_boundary, column as int, columns as int),
{
    match (drag_source, drop_boundary) {
        (Some(TableUnit::Column(_)), Some(TableBoundary::Column(boundary))) => {
            if boundary == column {
                Some(false)
            } else if boundary == columns && columns > 0 && column == columns - 1 {
                Some(true)
            } else {
                None
            }
        },
        _ => None,
    }
}

/// On which edge of a row the insertion line stands while a row is dragged.
pub fn row_insertion(
    drag_source: Option<TableUnit>,
    drop_boundary: Option<TableBoundary>,
    data_row: Option<usize>,
    rows: usize,
) -> (result: Option<bool>)
    ensures
        result == row_edge(drag_source, drop_boundary, data_row, rows as int),
{
    match (drag_source, drop_boundary) {
        (Some(TableUnit::Row(_)), Some(TableBoundary::Row(boundary))) => match data_row {
            None => if boundary == 0 {
                Some(true)
            } else {
                None
            },
            Some(row) => if boundary == row && row > 0 {
                Some(false)
            } else if boundary == rows && rows > 0 && row == rows - 1 {
                Some(true)
            } else {
                None
            },
        },
        _ => None,
    }
}

/// The change that the delete control of a selected unit makes. `None` where the control is
/// disabled: the unit is not in the table, or is its last column.
pub fn unit_deletion(unit: TableUnit, rows: usize, columns: usize) -> (result: Option<
    TableStructuralChange,
>)
    ensures
        result == match unit {
            TableUnit::Row(row) => if row < rows {
                Some(TableStructuralChange::DeleteRow(row))
            } else {
                None
            },
            TableUnit::Column(column) => if columns > 1 && column < columns {
                Some(TableStructuralChange::DeleteColumn(column))
            } else {
                None
            },
        },
{
    match unit {
        TableUnit::Row(row) => if row < rows {
            Some(TableStructuralChange::DeleteRow(row))
        } else {
            None
        },
        TableUnit::Column(column) => if columns > 1 && column < columns {
            Some(TableStructuralChange::DeleteColumn(column))
        } else {
            None
        },
    }
}

/// What a cell of the widget is: the one being edited, one that a click edits, or one that the
/// source leaves out, so that a click has to normalize the table first.
#[derive(Clone, Copy, Debug, PartialEq, Eq, Structural)]
pub enum CellRole {
    Active,
    Missing,
    Editable,
}

/// How a cell of the widget looks and reacts.
#[derive(Clone, Copy, Debug)]
pub struct CellLook {
    pub role: CellRole,
    pub alignment: CellAlignment,
    pub weight: u32,
    pub in_selected_unit: bool,
    pub in_drag_source: bool,
    pub insertion: Option<bool>,
}

/// The role of a cell, where `active` is the byte range of the cell being edited.
pub open spec fn role_of(cell: Option<Range<usize>>, active: Option<Range<usize>>) -> CellRole {
    let span = match cell {
        Some(range) => (range.start, range.end),
        None => (0usize, 0usize),
    };
    match active {
        Some(range) if (range.start, range.end) == span => CellRole::Active,
        _ => match cell {
            Some(_) => CellRole::Editable,
            None => CellRole::Missing,
        },
    }
}

/// The role of a cell.
pub fn cell_role(cell: &Option<Range<usize>>, active: &Option<Range<usize>>) -> (result: CellRole)
    ensures
        result == role_of(*cell, *active),
{
    let (start, end): (usize, usize) = match cell {
        Some(range) => (range.start, range.end),
        None => (0, 0),
    };
    let is_active = match active {
        Some(range) => range.start == start && range.end == end,
        None => false,
    };
    if is_active {
        CellRole::Active
    } else if cell.is_some() {
        CellRole::Editable
    } else {
        CellRole::Missing
    }
}

/// The cell at a column of a row; a column that the row does not have is left out.
pub open spec fn cell_at(row: Seq<Option<Range<usize>>>, column: int) -> Option<Range<usize>> {
    if 0 <= column < row.len() {
        row[column]
    } else {
        None
    }
}

/// The cell at a column of a data row, or of the header where there is none.
pub open spec fn cell_of(structure: TableStructure, column: int, data_row: Option<usize>) -> Option<
    Range<usize>,
> {
    match data_row {
        None => cell_at(structure.header@, column),
        Some(row) => if row < structure.rows@.len() {
            cell_at(structure.rows@[row as int]@, column)
        } else {
            None
        },
    }
}

fn pick_cell(row: &Vec<Option<Range<usize>>>, column: usize, active: &Option<Range<usize>>) -> (
    result: CellRole)
    ensures
        result == role_of(cell_at(row@, column as int), *active),
{
    if column < row.len() {
        cell_role(&row[column], active)
    } else {
        cell_role(&None, active)
    }
}

/// How the cell at a column of a data row, or of the header, looks.
pub fn cell_look(
    structure: &TableStructure,
    column_weights: &Vec<u32>,
    shown: ShownUnits,
    active: &Option<Range<usize>>,
    column: usize,
    data_row: Option<usize>,
) -> (result: CellLook)
    ensures
        result.role == role_of(cell_of(*structure, column as int, data_row), *active),
        result.alignment == (if column < structure.alignments@.len() {
            structure.alignments@[column as int]
        } else {
            CellAlignment::Unset
        }),
        result.weight == (if column < column_weights@.len() {
            column_weights@[column as int]
        } else {
            8
        }),
        result.in_selected_unit == covers_cell(shown.selected, column, data_row),
        result.in_drag_source == covers_cell(shown.drag_source, column, data_row),
        result.insertion == column_edge(
            shown.drag_source,
            shown.boundary,
            column as int,
            structure.header@.len() as int,
        ),
{
    let role = match data_row {
        None => pick_cell(&structure.header, column, active),
        Some(row) => if row < structure.rows.len() {
            pick_cell(&structure.rows[row], column, active)
        } else {
            cell_role(&None, active)
        },
    };
    let alignment = if column < structure.alignments.len() {
        structure.alignments[column]
    } else {
        CellAlignment::Unset
    };
    let weight: u32 = if column < column_weights.len() {
        column_weights[column]
    } else {
        8
    };
    CellLook {
        role,
        alignment,
        weight,
        in_selected_unit: unit_covers_cell(shown.selected, column, data_row),
        in_drag_source: unit_covers_cell(shown.drag_source, column, data_row),
        insertion: column_insertion(
            shown.drag_source,
            shown.boundary,
            column,
            structure.header.len(),
        ),
    }
}

// ---------------------------------------------------------------------------------------------
// Column weights
// ---------------------------------------------------------------------------------------------

/// The length of a cell that comes in chunks: the characters of each chunk, its padding aside.
pub open spec fn chunks_length(chunks: Seq<Seq<char>>) -> nat
    decreases chunks.len(),
{
    if chunks.len() == 0 {
        0
    } else {
        chunks_length(chunks.drop_last()) + trim(chunks.last()).len()
    }
}

/// The weight of one cell: its length, but no less than 3 and no more than 60.
pub open spec fn cell_weight(chunks: Seq<Seq<char>>) -> nat {
    let length = chunks_length(chunks);
    if length < 3 {
        3
    } else if length > 60 {
        60
    } else {
        length
    }
}

/// The weight of a column over several rows: that of its widest cell, at least 3.
pub open spec fn column_weight(rows: Seq<Seq<Seq<Seq<char>>>>, column: int) -> nat
    decreases rows.len(),
{
    if rows.len() == 0 {
        3
    } else {
        let above = column_weight(rows.drop_last(), column);
        let row = rows.last();
        if 0 <= column < row.len() && cell_weight(row[column]) > above {
            cell_weight(row[column])
        } else {
            above
        }
    }
}

/// The chunks of the cells of a row.
pub open spec fn chunk_views(row: Seq<Vec<String>>) -> Seq<Seq<Seq<char>>> {
    Seq::new(row.len(), |k: int| views(row[k]@))
}

/// The chunks of the cells of several rows.
pub open spec fn chunk_rows(rows: Seq<Vec<Vec<String>>>) -> Seq<Seq<Seq<Seq<char>>>> {
    Seq::new(rows.len(), |r: int| chunk_views(rows[r]@))
}

proof fn lemma_chunks_length_grows(chunks: Seq<Seq<char>>, k: int)
    requires
        0 <= k <= chunks.len(),
    ensures
        chunks_length(chunks.take(k)) <= chunks_length(chunks),
    decreases chunks.len(),
{
    if k < chunks.len() {
        assert(chunks.drop_last().take(k) =~= chunks.take(k));
        lemma_chunks_length_grows(chunks.drop_last(), k);
    } else {
        assert(chunks.take(k) =~= chunks);
    }
}

fn weigh_cell(chunks: &Vec<String>) -> (weight: u32)
    ensures
        weight == cell_weight(views(chunks@)),
{
    let ghost all = views(chunks@);
    let mut length: usize = 0;
    let mut k: usize = 0;
    while k < chunks.len()
        invariant
            k <= chunks@.len(),
            all == views(chunks@),
            length == chunks_length(all.take(k as int)),
            length <= 60,
        decreases chunks@.len() - k,
    {
        let chars = to_chars(chunks[k].as_str());
        let count: usize = trimmed(chars.as_slice()).len();
        assert(all.take(k + 1).drop_last() =~= all.take(k as int));
        if count > 60 - length {
            proof {
                lemma_chunks_length_grows(all, k + 1);
            }
            return 60;
        }
        length += count;
        k += 1;
    }
    assert(all.take(k as int) =~= all);
    if length < 3 {
        3
    } else {
        length as u32
    }
}

/// How much room each column of a table asks for: its widest cell counts, between 3 and 60. A
/// cell's text is given in the chunks the buffer holds it in, and each chunk counts without its
/// padding.
pub fn table_column_weights(header: &Vec<Vec<String>>, rows: &Vec<Vec<Vec<String>>>) -> (result:
    Vec<u32>)
    ensures
        result@.len() == larger(chunk_views(header@).len(), longest(chunk_rows(rows@))),
        forall|column: int|
            0 <= column < result@.len() ==> #[trigger] result@[column] == column_weight(
                seq![chunk_views(header@)] + chunk_rows(rows@),
                column,
            ),
{
    let ghost all = seq![chunk_views(header@)] + chunk_rows(rows@);
    let mut columns: usize = header.len();
    let mut r: usize = 0;
    assert(chunk_rows(rows@).take(0) =~= Seq::empty());
    while r < rows.len()
        invariant
            r <= rows@.len(),
            columns == larger(header@.len(), longest(chunk_rows(rows@).take(r as int))),
        decreases rows@.len() - r,
    {
        if rows[r].len() > columns {
            columns = rows[r].len();
        }
        r += 1;
        assert(chunk_rows(rows@).take(r as int).drop_last() =~= chunk_rows(rows@).take(r - 1));
        assert(chunk_rows(rows@).take(r as int).last().len() == rows@[r - 1]@.len());
    }
    assert(chunk_rows(rows@).take(r as int) =~= chunk_rows(rows@));
    let mut weights: Vec<u32> = Vec::new();
    while weights.len() < columns
        invariant
            weights@.len() <= columns,
            forall|c: int| 0 <= c < weights@.len() ==> weights@[c] == 3,
        decreases columns - weights@.len(),
    {
        weights.push(3);
    }
    assert forall|c: int| 0 <= c < weights@.len() implies #[trigger] weights@[c] == column_weight(
        all.take(0),
        c,
    ) by {
        assert(all.take(0) =~= Seq::empty());
    }
    measure_row(&mut weights, header, Ghost(all.take(0)));
    assert(all.take(1) =~= all.take(0).push(chunk_views(header@)));
    let mut r: usize = 0;
    while r < rows.len()
        invariant
            r <= rows@.len(),
            all == seq![chunk_views(header@)] + chunk_rows(rows@),
            weights@.len() == columns,
            forall|c: int|
                0 <= c < weights@.len() ==> #[trigger] weights@[c] == column_weight(
                    all.take(r + 1),
                    c,
                ),
        decreases rows@.len() - r,
    {
        measure_row(&mut weights, &rows[r], Ghost(all.take(r + 1)));
        assert(all.take(r + 2) =~= all.take(r + 1).push(chunk_views(rows@[r as int]@)));
        r += 1;
    }
    assert(all.take(r + 1) =~= all);
    weights
}

/// Widens the columns to what one more row asks for, where they have what `above` asks for.
fn measure_row(
    weights: &mut Vec<u32>,
    row: &Vec<Vec<String>>,
    Ghost(above): Ghost<Seq<Seq<Seq<Seq<char>>>>>,
)
    requires
        forall|c: int|
            0 <= c < old(weights)@.len() ==> #[trigger] old(weights)@[c] == column_weight(above, c),
    ensures
        final(weights)@.len() == old(weights)@.len(),
        forall|c: int|
            0 <= c < final(weights)@.len() ==> #[trigger] final(weights)@[c] == column_weight(
                above.push(chunk_views(row@)),
                c,
            ),
{
    let ghost all = above.push(chunk_views(row@));
    assert(all.drop_last() =~= above);
    let mut column: usize = 0;
    while column < row.len() && column < weights.len()
        invariant
            all == above.push(chunk_views(row@)),
            all.drop_last() == above,
            column <= row@.len(),
            column <= weights@.len(),
            weights@.len() == old(weights)@.len(),
            forall|c: int| 0 <= c < column ==> #[trigger] weights@[c] == column_weight(all, c),
            forall|c: int|
                column <= c < weights@.len() ==> #[trigger] weights@[c] == column_weight(above, c),
        decreases row@.len() - column,
    {
        let weight = weigh_cell(&row[column]);
        if weight > weights[column] {
            weights[column] = weight;
        }
        column += 1;
    }
}

} // verus!
