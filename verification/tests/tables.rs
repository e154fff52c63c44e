use std::ops::Range;
use suzuri::table::{
    is_delimiter_row, parse_table_at, split_table_row_text, CellAlignment, TableStructure,
};
use suzuri::table_edit::{
    apply_table_structural_change, commit_active_cell, fresh_table_at, read_table, start_cell_edit,
    TableStructuralChange, TableText,
};
use suzuri::table_widget::{
    boundary_drop, cell_look, cell_role, column_boundary, column_insertion, move_to, row_boundary,
    row_insertion, table_column_weights, unit_covers_cell, unit_deletion, CellRole, TableBoundary,
    TableUnit, TableWidgetState,
};

const TABLE: &str = "| a | b |\n|:--|--:|\n| 1 | 2 |\n| 3 |\n";

fn table(text: &str, near: usize) -> (Range<usize>, TableStructure) {
    parse_table_at(text, near).expect("a table")
}

fn content(text: &str) -> TableText {
    let (_, structure) = table(text, 0);
    read_table(text, &structure)
}

fn changed(text: &str, change: TableStructuralChange) -> String {
    let (range, _) = table(text, 0);
    match apply_table_structural_change(text, range.start, range.end, change) {
        Some((range, source)) => {
            let mut result = text.to_string();
            result.replace_range(range, &source);
            result
        }
        None => text.to_string(),
    }
}

#[test]
fn rows_split_at_unescaped_pipes() {
    let cells = |line: &str| -> Vec<String> {
        split_table_row_text(line, 0).into_iter().map(|range| line[range].to_string()).collect()
    };
    assert_eq!(cells("| a | b |"), [" a ", " b "]);
    assert_eq!(cells("a | b"), ["a ", " b"]);
    assert_eq!(cells("| a \\| b | c |"), [" a \\| b ", " c "]);
    assert_eq!(cells("|  |  |"), ["  ", "  "]);
    assert_eq!(split_table_row_text("| é | b |", 100), vec![101..105, 106..109]);
}

#[test]
fn delimiter_rows_are_dashes_and_colons() {
    for line in ["|---|:-:|", " --- | --: ", "| - |", "|:-|-:|"] {
        assert!(is_delimiter_row(line), "{line}");
    }
    for line in ["", "| a |", "|  |", "|--x|", "::", "---:--|-"] {
        assert!(!is_delimiter_row(line), "{line}");
    }
}

#[test]
fn a_table_is_read_from_any_of_its_rows() {
    let text = format!("intro\n\n{TABLE}\nafter\n");
    let (range, structure) = table(&text, 20);
    assert_eq!(&text[range.clone()], TABLE.trim_end());
    assert_eq!(structure.header.len(), 2);
    assert_eq!(structure.rows.len(), 2);
    assert_eq!(structure.alignments, vec![CellAlignment::Left, CellAlignment::Right]);
    // The source leaves the last cell out.
    assert!(structure.rows[1][1].is_none());
    assert!(parse_table_at(&text, 0).is_none());
    assert!(parse_table_at("| a |\n| b |\n", 0).is_none());
    assert!(parse_table_at("", 0).is_none());
    assert_eq!(fresh_table_at(&text, range.start, range.end).expect("still there").0, range);
}

#[test]
fn cells_are_read_without_their_padding() {
    let text = content(TABLE);
    assert_eq!(text.header, ["a", "b"]);
    assert_eq!(text.rows, vec![vec!["1", "2"], vec!["3", ""]]);
    assert_eq!(
        text.source(),
        "| a | b |\n| :-- | --: |\n| 1 | 2 |\n| 3 |   |"
    );
}

#[test]
fn a_structural_change_rewrites_the_table() {
    let added = content(&changed(TABLE, TableStructuralChange::AddColumn));
    assert_eq!(added.header, ["a", "b", ""]);
    assert_eq!(added.rows, vec![vec!["1", "2", ""], vec!["3", "", ""]]);
    let added = content(&changed(TABLE, TableStructuralChange::AddRow));
    assert_eq!(added.rows.len(), 3);
    let moved = content(&changed(TABLE, TableStructuralChange::MoveRow { from: 0, to: 1 }));
    assert_eq!(moved.rows, vec![vec!["3", ""], vec!["1", "2"]]);
    let moved = content(&changed(TABLE, TableStructuralChange::MoveColumn { from: 1, to: 0 }));
    assert_eq!(moved.header, ["b", "a"]);
    assert_eq!(moved.alignments, vec![CellAlignment::Right, CellAlignment::Left]);
    let deleted = content(&changed(TABLE, TableStructuralChange::DeleteRow(0)));
    assert_eq!(deleted.rows, vec![vec!["3", ""]]);
    let deleted = content(&changed(TABLE, TableStructuralChange::DeleteColumn(0)));
    assert_eq!(deleted.header, ["b"]);
    // The last column stays.
    let one = "| a |\n|---|\n| 1 |\n";
    assert_eq!(content(&changed(one, TableStructuralChange::DeleteColumn(0))).header, ["a"]);
}

#[test]
fn changes_undo_each_other() {
    let plain = content(&changed(TABLE, TableStructuralChange::Normalize)).source();
    let round = |first: TableStructuralChange, second: TableStructuralChange| {
        content(&changed(&changed(TABLE, first), second)).source()
    };
    assert_eq!(
        round(TableStructuralChange::AddRow, TableStructuralChange::DeleteRow(2)),
        plain
    );
    assert_eq!(
        round(TableStructuralChange::AddColumn, TableStructuralChange::DeleteColumn(2)),
        plain
    );
    assert_eq!(
        round(
            TableStructuralChange::MoveRow { from: 0, to: 1 },
            TableStructuralChange::MoveRow { from: 1, to: 0 }
        ),
        plain
    );
    assert_eq!(
        round(
            TableStructuralChange::MoveColumn { from: 0, to: 1 },
            TableStructuralChange::MoveColumn { from: 1, to: 0 }
        ),
        plain
    );
    assert_eq!(round(TableStructuralChange::Normalize, TableStructuralChange::Normalize), plain);
}

#[test]
fn a_committed_cell_reads_back() {
    let cell = 1..4;
    let (range, new) = commit_active_cell("| a | b |", cell.clone(), " x|y\nz ").expect("a change");
    assert_eq!(range, cell);
    assert_eq!(new, " x\\|y z ");
    let line = format!("|{new}| b |");
    let cells = split_table_row_text(&line, 0);
    assert_eq!(cells.len(), 2);
    assert_eq!(line[cells[0].clone()].trim(), "x\\|y z");
    assert_eq!(line[cells[1].clone()].trim(), "b");
    // Nothing to write where nothing changed.
    assert!(commit_active_cell("| a | b |", 1..4, " a").is_none());
    assert_eq!(commit_active_cell("| a | b |", 1..4, "").expect("emptied").1, "  ");
}

#[test]
fn backslashes_and_blanks_read_back_between_pipes() {
    for (edited, written) in [
        ("a\\b", "a\\b"),
        ("a\\", "a\\"),
        ("a\\\\|b", "a\\\\\\|b"),
        ("a\\|b|", "a\\|b\\|"),
        ("", ""),
        (" \n ", ""),
    ] {
        let (range, new) = commit_active_cell("| a | b |", 1..4, edited).expect("a change");
        let mut line = "| a | b |".to_string();
        line.replace_range(range, &new);
        let cells = split_table_row_text(&line, 0);
        assert_eq!(cells.len(), 2, "{edited:?}");
        assert_eq!(line[cells[0].clone()].trim(), written, "{edited:?}");
    }
}

#[test]
fn an_escaped_pipe_is_not_escaped_again() {
    let line = "| a \\| b | c |";
    let cells = split_table_row_text(line, 0);
    assert_eq!(line[cells[0].clone()].trim(), "a \\| b");
    assert!(commit_active_cell(line, cells[0].clone(), "a \\| b").is_none());
    // An escaped backslash escapes nothing.
    let (_, new) = commit_active_cell(line, cells[0].clone(), "a \\\\| b|").expect("a change");
    assert_eq!(new, " a \\\\\\| b\\| ");
}

#[test]
fn editing_moves_from_cell_to_cell() {
    let edit = start_cell_edit(TABLE, 2).expect("a cell");
    assert_eq!((edit.range, edit.text.as_str(), edit.next), (1..4, "a", Some(5..8)));
    let edit = start_cell_edit(TABLE, 22).expect("a cell");
    assert_eq!(edit.text, "1");
    assert!(start_cell_edit("no table", 2).is_none());
}

#[test]
fn a_unit_is_selected_and_deselected_by_clicks() {
    let mut state = TableWidgetState::new();
    state.select_unit(10..40, TableUnit::Row(1));
    assert_eq!(state.shown_units(10, false).selected, Some(TableUnit::Row(1)));
    assert_eq!(state.shown_units(50, false).selected, None);
    state.select_unit(10..40, TableUnit::Row(1));
    assert_eq!(state.shown_units(10, false).selected, None);
    state.select_unit(10..40, TableUnit::Column(0));
    let (range, change) = state.delete_selected_table_unit().expect("a selection");
    assert_eq!(range, 10..40);
    assert!(matches!(change, TableStructuralChange::DeleteColumn(0)));
    assert!(state.delete_selected_table_unit().is_none());
}

#[test]
fn a_unit_is_dropped_on_a_boundary() {
    let mut state = TableWidgetState::new();
    state.record_drag_source(0..30, TableUnit::Row(0));
    assert!(state.set_drop_boundary(0..30, TableBoundary::Row(3)));
    assert!(!state.set_drop_boundary(0..30, TableBoundary::Row(3)));
    let shown = state.shown_units(0, true);
    assert_eq!(shown.drag_source, Some(TableUnit::Row(0)));
    assert_eq!(shown.boundary, Some(TableBoundary::Row(3)));
    assert_eq!(state.shown_units(0, false).boundary, None);
    match state.drop_unit(0..30, true, TableUnit::Row(0)) {
        Some(TableStructuralChange::MoveRow { from, to }) => assert_eq!((from, to), (0, 2)),
        other => panic!("a move, not {other:?}"),
    }
    assert_eq!(state.shown_units(0, false).selected, Some(TableUnit::Row(2)));
}

#[test]
fn drops_beside_the_dragged_unit_move_nothing() {
    assert_eq!(move_to(2, 2), None);
    assert_eq!(move_to(2, 3), None);
    assert_eq!(move_to(2, 0), Some(0));
    assert_eq!(move_to(2, 5), Some(4));
    assert!(boundary_drop(TableUnit::Row(0), TableBoundary::Column(2)).is_none());
    assert!(boundary_drop(TableUnit::Column(0), TableBoundary::Column(2)).is_some());
    assert_eq!(column_boundary(1, false), TableBoundary::Column(1));
    assert_eq!(column_boundary(1, true), TableBoundary::Column(2));
    // The header's lower half is the boundary above the first row.
    assert_eq!(row_boundary(None, true), TableBoundary::Row(0));
    assert_eq!(row_boundary(Some(1), true), TableBoundary::Row(2));
}

#[test]
fn one_cell_edge_shows_the_boundary() {
    let from = Some(TableUnit::Column(0));
    let at = Some(TableBoundary::Column(2));
    let shown: Vec<usize> =
        (0..3).filter(|column| column_insertion(from, at, *column, 3).is_some()).collect();
    assert_eq!(shown.len(), 1);
    let at = Some(TableBoundary::Row(2));
    let shown = [None, Some(0), Some(1)]
        .into_iter()
        .filter(|row| row_insertion(Some(TableUnit::Row(0)), at, *row, 2).is_some())
        .count();
    assert_eq!(shown, 1);
}

#[test]
fn cells_know_their_part() {
    assert!(unit_covers_cell(Some(TableUnit::Column(1)), 1, None));
    assert!(unit_covers_cell(Some(TableUnit::Row(0)), 5, Some(0)));
    assert!(!unit_covers_cell(Some(TableUnit::Row(0)), 5, None));
    assert!(!unit_covers_cell(None, 0, None));
    assert_eq!(cell_role(&Some(1..4), &Some(1..4)), CellRole::Active);
    assert_eq!(cell_role(&Some(1..4), &None), CellRole::Editable);
    assert_eq!(cell_role(&None, &None), CellRole::Missing);
    let (_, structure) = table(TABLE, 0);
    let state = TableWidgetState::new();
    let look = cell_look(&structure, &vec![3, 3], state.shown_units(0, false), &None, 1, Some(1));
    assert_eq!(look.role, CellRole::Missing);
    assert_eq!(look.alignment, CellAlignment::Right);
    assert_eq!(look.weight, 3);
}

#[test]
fn a_unit_can_be_deleted_unless_it_is_the_last() {
    assert!(matches!(
        unit_deletion(TableUnit::Row(1), 2, 2),
        Some(TableStructuralChange::DeleteRow(1))
    ));
    assert!(unit_deletion(TableUnit::Column(0), 2, 1).is_none());
}

#[test]
fn columns_ask_for_room_by_their_widest_cell() {
    let cell = |text: &str| vec![text.to_string()];
    let wide = "x".repeat(80);
    let weights = table_column_weights(
        &vec![cell("ab"), cell("header")],
        &vec![vec![cell(" abcd "), cell("x"), cell(&wide)]],
    );
    assert_eq!(weights, vec![4, 6, 60]);
}

fn restructured(text: &str, near: usize, change: TableStructuralChange) -> String {
    let mut new = text.to_string();
    if let Some((range, source)) = apply_table_structural_change(text, near, near, change) {
        new.replace_range(range, &source);
    }
    new
}

#[test]
fn changes_undo_each_other_among_other_lines() {
    let above = "intro\nx | y\n";
    let text = format!("{above}| a | ---|\n|-|:-:|\n| 1 |\n3 | 4\n\nend | \u{e9}");
    let near = above.len() + 2;
    let plain = restructured(&text, near, TableStructuralChange::Normalize);
    assert_eq!(
        plain,
        format!("{above}| a | --- |\n| --- | :-: |\n| 1 |   |\n| 3 | 4 |\n\nend | \u{e9}")
    );
    assert_eq!(restructured(&plain, near, TableStructuralChange::Normalize), plain);
    for (change, back) in [
        (TableStructuralChange::MoveRow { from: 0, to: 1 }, TableStructuralChange::MoveRow { from: 1, to: 0 }),
        (TableStructuralChange::MoveColumn { from: 0, to: 1 }, TableStructuralChange::MoveColumn { from: 1, to: 0 }),
        (TableStructuralChange::AddRow, TableStructuralChange::DeleteRow(2)),
        (TableStructuralChange::AddColumn, TableStructuralChange::DeleteColumn(2)),
    ] {
        let there = restructured(&text, near, change);
        assert_ne!(there, plain);
        for again in [above.len(), near, above.len() + 20] {
            assert_eq!(restructured(&there, again, back), plain, "{change:?}");
        }
    }
    assert_eq!(
        restructured(&text, near, TableStructuralChange::MoveColumn { from: 0, to: 1 }),
        format!("{above}| --- | a |\n| :-: | --- |\n|   | 1 |\n| 4 | 3 |\n\nend | \u{e9}")
    );
    for change in [
        TableStructuralChange::DeleteRow(2),
        TableStructuralChange::DeleteColumn(2),
        TableStructuralChange::MoveRow { from: 0, to: 2 },
        TableStructuralChange::MoveColumn { from: 2, to: 0 },
    ] {
        assert_eq!(restructured(&text, near, change), plain, "{change:?}");
    }
    // Where no table is, nothing changes.
    assert_eq!(restructured(&text, 0, TableStructuralChange::AddRow), text);
    assert_eq!(restructured("| a |\n| - |", 1, TableStructuralChange::DeleteColumn(0)), "| a |\n| --- |");
}
