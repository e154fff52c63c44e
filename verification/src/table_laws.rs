//! What holds of structural table edits as a whole.

use crate::table::CellAlignment;
use crate::table_edit::{changed, moved, normalized, without, TableContent, TableStructuralChange};
use vstd::prelude::*;

verus! {

/// Every row has as many cells, and there are as many alignments, as the header has cells.
pub open spec fn rectangular(table: TableContent) -> bool {
    &&& table.alignments.len() == table.header.len()
    &&& forall|r: int| 0 <= r < table.rows.len() ==> (#[trigger] table.rows[r]).len()
        == table.header.len()
}

/// Whatever the change, the table that is written back is rectangular, and a table with a column
/// keeps one.
pub proof fn law_a_changed_table_is_rectangular(table: TableContent, change: TableStructuralChange)
    ensures
        rectangular(normalized(changed(table, change))),
        table.header.len() > 0 ==> normalized(changed(table, change)).header.len() > 0,
{
}

/// Normalizing twice is normalizing once, and a rectangular table is left as it is.
pub proof fn law_normalizing_is_idempotent(table: TableContent)
    ensures
        normalized(normalized(table)) == normalized(table),
        rectangular(table) ==> normalized(table) == table,
{
    assert(normalized(normalized(table)) =~~= normalized(table));
    if rectangular(table) {
        assert(normalized(table) =~~= table);
    }
}

proof fn lemma_moved_back<T>(items: Seq<T>, from: int, to: int)
    ensures
        moved(moved(items, from, to), to, from) == items,
{
    assert(moved(moved(items, from, to), to, from) =~= items);
}

/// Moving a row back undoes moving it there.
pub proof fn law_moving_a_row_back_undoes_the_move(table: TableContent, from: usize, to: usize)
    ensures
        changed(
            changed(table, TableStructuralChange::MoveRow { from, to }),
            TableStructuralChange::MoveRow { from: to, to: from },
        ) == table,
{
    lemma_moved_back(table.rows, from as int, to as int);
}

/// Moving a column back undoes moving it there.
pub proof fn law_moving_a_column_back_undoes_the_move(table: TableContent, from: usize, to: usize)
    ensures
        changed(
            changed(table, TableStructuralChange::MoveColumn { from, to }),
            TableStructuralChange::MoveColumn { from: to, to: from },
        ) == table,
{
    let there = changed(table, TableStructuralChange::MoveColumn { from, to });
    let back = changed(there, TableStructuralChange::MoveColumn { from: to, to: from });
    if from < table.header.len() && to < table.header.len() {
        lemma_moved_back(table.header, from as int, to as int);
        lemma_moved_back(table.alignments, from as int, to as int);
        assert forall|r: int| 0 <= r < table.rows.len() implies back.rows[r] == table.rows[r] by {
            lemma_moved_back(table.rows[r], from as int, to as int);
        }
        assert(back.rows =~= table.rows);
    }
}

/// Deleting the row that was just added undoes adding it.
pub proof fn law_deleting_an_added_row_undoes_it(table: TableContent)
    requires
        table.rows.len() <= usize::MAX,
    ensures
        changed(
            changed(table, TableStructuralChange::AddRow),
            TableStructuralChange::DeleteRow(table.rows.len() as usize),
        ) == table,
{
    let added = changed(table, TableStructuralChange::AddRow);
    assert(without(added.rows, table.rows.len() as int) =~= table.rows);
}

/// Deleting the column that was just added to a rectangular table undoes adding it.
pub proof fn law_deleting_an_added_column_undoes_it(table: TableContent)
    requires
        rectangular(table),
        0 < table.header.len() <= usize::MAX,
    ensures
        changed(
            changed(table, TableStructuralChange::AddColumn),
            TableStructuralChange::DeleteColumn(table.header.len() as usize),
        ) == table,
{
    let count = table.header.len() as usize;
    let added = changed(table, TableStructuralChange::AddColumn);
    let back = changed(added, TableStructuralChange::DeleteColumn(count));
    assert(back.header =~= table.header);
    assert(back.alignments =~= table.alignments);
    assert forall|r: int| 0 <= r < table.rows.len() implies back.rows[r] == table.rows[r] by {
        assert(added.rows[r] == table.rows[r].push(Seq::empty()));
        assert(without(added.rows[r], count as int) =~= table.rows[r]);
    }
    assert(back.rows =~= table.rows);
}

/// A table never loses its last column.
pub proof fn law_the_last_column_stays(table: TableContent, index: usize)
    requires
        table.header.len() == 1,
    ensures
        changed(table, TableStructuralChange::DeleteColumn(index)) == table,
{
}

// ---------------------------------------------------------------------------------------------
// What each change does
// ---------------------------------------------------------------------------------------------

/// Where the item that stands at `i` once the one at `from` was moved to `to` stood before.
pub open spec fn place_before_move(from: int, to: int, i: int) -> int {
    if i == to {
        from
    } else if from < to && from <= i < to {
        i + 1
    } else if to < from && to < i <= from {
        i - 1
    } else {
        i
    }
}

/// Where the item that stands at `i` once the one at `index` was deleted stood before.
pub open spec fn place_before_deletion(index: int, i: int) -> int {
    if i < index {
        i
    } else {
        i + 1
    }
}

/// Adding a row puts an empty row of as many cells as the header has behind the others, and changes
/// nothing else.
pub proof fn law_an_added_row_is_empty_and_last(table: TableContent, r: int, k: int)
    ensures
        ({
            let new = changed(table, TableStructuralChange::AddRow);
            let last = table.rows.len() as int;
            &&& new.header == table.header
            &&& new.alignments == table.alignments
            &&& new.rows.len() == last + 1
            &&& 0 <= r < last ==> new.rows[r] == table.rows[r]
            &&& new.rows[last].len() == table.header.len()
            &&& 0 <= k < table.header.len() ==> new.rows[last][k].len() == 0
        }),
{
}

/// Adding a column puts an empty cell behind the header's and each row's others, with no alignment,
/// and changes nothing else.
pub proof fn law_an_added_column_is_empty_and_last(table: TableContent, r: int, k: int)
    ensures
        ({
            let new = changed(table, TableStructuralChange::AddColumn);
            &&& new.header.len() == table.header.len() + 1
            &&& new.header[table.header.len() as int].len() == 0
            &&& 0 <= k < table.header.len() ==> new.header[k] == table.header[k]
            &&& new.alignments.len() == table.alignments.len() + 1
            &&& new.alignments[table.alignments.len() as int] == CellAlignment::Unset
            &&& 0 <= k < table.alignments.len() ==> new.alignments[k] == table.alignments[k]
            &&& new.rows.len() == table.rows.len()
            &&& 0 <= r < table.rows.len() ==> {
                &&& new.rows[r].len() == table.rows[r].len() + 1
                &&& new.rows[r][table.rows[r].len() as int].len() == 0
                &&& 0 <= k < table.rows[r].len() ==> new.rows[r][k] == table.rows[r][k]
            }
        }),
{
}

/// Deleting a row takes that row and no other, and leaves the header.
pub proof fn law_a_deleted_row_is_gone(table: TableContent, index: usize, r: int)
    requires
        index < table.rows.len(),
        0 <= r < table.rows.len() - 1,
    ensures
        ({
            let new = changed(table, TableStructuralChange::DeleteRow(index));
            &&& new.header == table.header
            &&& new.alignments == table.alignments
            &&& new.rows.len() == table.rows.len() - 1
            &&& new.rows[r] == table.rows[place_before_deletion(index as int, r)]
        }),
{
}

/// Deleting the only row leaves none.
pub proof fn law_deleting_the_only_row_leaves_none(table: TableContent)
    requires
        table.rows.len() == 1,
    ensures
        changed(table, TableStructuralChange::DeleteRow(0)).rows.len() == 0,
        changed(table, TableStructuralChange::DeleteRow(0)).header == table.header,
{
}

/// Deleting a column of a table with more than one takes that column from the header, the alignments
/// and every row, and nothing else.
pub proof fn law_a_deleted_column_is_gone(table: TableContent, index: usize, r: int, k: int)
    requires
        rectangular(table),
        table.header.len() > 1,
        index < table.header.len(),
        0 <= k < table.header.len() - 1,
    ensures
        ({
            let new = changed(table, TableStructuralChange::DeleteColumn(index));
            let before = place_before_deletion(index as int, k);
            &&& new.header.len() == table.header.len() - 1
            &&& new.header[k] == table.header[before]
            &&& new.alignments.len() == table.header.len() - 1
            &&& new.alignments[k] == table.alignments[before]
            &&& new.rows.len() == table.rows.len()
            &&& 0 <= r < table.rows.len() ==> new.rows[r].len() == table.header.len() - 1
                && new.rows[r][k] == table.rows[r][before]
        }),
{
    if 0 <= r < table.rows.len() {
        assert(table.rows[r].len() == table.header.len());
    }
}

/// Moving a row puts it at the place it is moved to, moves the rows between the two places by one,
/// and changes nothing else.
pub proof fn law_a_moved_row_lands_where_it_is_moved(
    table: TableContent,
    from: usize,
    to: usize,
    r: int,
)
    requires
        from < table.rows.len(),
        to < table.rows.len(),
        0 <= r < table.rows.len(),
    ensures
        ({
            let new = changed(table, TableStructuralChange::MoveRow { from, to });
            &&& new.header == table.header
            &&& new.alignments == table.alignments
            &&& new.rows.len() == table.rows.len()
            &&& new.rows[r] == table.rows[place_before_move(from as int, to as int, r)]
        }),
{
}

/// Moving a column puts it at the place it is moved to in the header, the alignments and every row,
/// and moves the columns between the two places by one.
pub proof fn law_a_moved_column_lands_where_it_is_moved(
    table: TableContent,
    from: usize,
    to: usize,
    r: int,
    k: int,
)
    requires
        rectangular(table),
        from < table.header.len(),
        to < table.header.len(),
        0 <= k < table.header.len(),
    ensures
        ({
            let new = changed(table, TableStructuralChange::MoveColumn { from, to });
            let before = place_before_move(from as int, to as int, k);
            &&& new.header.len() == table.header.len()
            &&& new.header[k] == table.header[before]
            &&& new.alignments.len() == table.header.len()
            &&& new.alignments[k] == table.alignments[before]
            &&& new.rows.len() == table.rows.len()
            &&& 0 <= r < table.rows.len() ==> new.rows[r].len() == table.header.len()
                && new.rows[r][k] == table.rows[r][before]
        }),
{
    if 0 <= r < table.rows.len() {
        assert(table.rows[r].len() == table.header.len());
    }
}

/// Normalizing leaves every cell that is there and falls within the header's columns, and fills up
/// with empty cells and unset alignments. It changes nothing on its own.
pub proof fn law_normalizing_fills_up(table: TableContent, r: int, k: int)
    requires
        0 <= k < table.header.len(),
    ensures
        changed(table, TableStructuralChange::Normalize) == table,
        ({
            let new = normalized(table);
            &&& new.header == table.header
            &&& new.alignments.len() == table.header.len()
            &&& new.alignments[k] == (if k < table.alignments.len() {
                table.alignments[k]
            } else {
                CellAlignment::Unset
            })
            &&& new.rows.len() == table.rows.len()
            &&& 0 <= r < table.rows.len() ==> {
                &&& new.rows[r].len() == table.header.len()
                &&& k < table.rows[r].len() ==> new.rows[r][k] == table.rows[r][k]
                &&& k >= table.rows[r].len() ==> new.rows[r][k].len() == 0
            }
        }),
{
}

} // verus!
