//! Pipe tables: finding one in a text, and rebuilding its source after a structural change.

use crate::text::{
    all_class, byte_length, byte_offset, contains_char, ends_with_char, found, has_char, is_all_class,
    lemma_byte_offset_grows, lemma_split_from, lines, pairs, piece, split, split_ranges,
    starts_with_char, to_chars, trim, trim_end_by, trim_start_by, trimmed, trimmed_end,
    trimmed_start, CharClass, Text,
};
use std::ops::Range;
use vstd::prelude::*;

verus! {

/// How a column's delimiter asks its cells to be aligned.
#[derive(Clone, Copy, Debug, PartialEq, Eq, Structural)]
pub enum CellAlignment {
    Unset,
    Left,
    Center,
    Right,
}

/// Where the cells of a table lie, as byte ranges of the text it was read from. A cell that the
/// source leaves out of a short row has no range.
#[derive(Debug)]
pub struct TableStructure {
    pub header: Vec<Option<Range<usize>>>,
    pub alignments: Vec<CellAlignment>,
    pub rows: Vec<Vec<Option<Range<usize>>>>,
}

/// What a [`TableStructure`] holds.
pub struct TableShape {
    pub header: Seq<Option<(int, int)>>,
    pub alignments: Seq<CellAlignment>,
    pub rows: Seq<Seq<Option<(int, int)>>>,
}

/// A cell's byte range as a specification value.
pub open spec fn cell_view(cell: Option<Range<usize>>) -> Option<(int, int)> {
    match cell {
        Some(range) => Some((range.start as int, range.end as int)),
        None => None,
    }
}

/// The byte ranges of several cells as specification values.
pub open spec fn cells_view(cells: Seq<Option<Range<usize>>>) -> Seq<Option<(int, int)>> {
    Seq::new(cells.len(), |i: int| cell_view(cells[i]))
}

/// The byte ranges of the cells of several rows as specification values.
pub open spec fn cell_rows_view(rows: Seq<Vec<Option<Range<usize>>>>) -> Seq<
    Seq<Option<(int, int)>>,
> {
    Seq::new(rows.len(), |i: int| cells_view(rows[i]@))
}

impl View for TableStructure {
    type V = TableShape;

    open spec fn view(&self) -> TableShape {
        TableShape {
            header: cells_view(self.header@),
            alignments: self.alignments@,
            rows: cell_rows_view(self.rows@),
        }
    }
}

fn copy_cells(cells: &Vec<Option<Range<usize>>>) -> (result: Vec<Option<Range<usize>>>)
    ensures
        cells_view(result@) == cells_view(cells@),
{
    let mut result: Vec<Option<Range<usize>>> = Vec::new();
    let mut i: usize = 0;
    while i < cells.len()
        invariant
            i <= cells@.len(),
            result@.len() == i,
            forall|k: int| 0 <= k < i ==> cell_view(#[trigger] result@[k]) == cell_view(cells@[k]),
        decreases cells@.len() - i,
    {
        let cell = match &cells[i] {
            Some(range) => Some(range.start..range.end),
            None => None,
        };
        result.push(cell);
        i += 1;
    }
    assert(cells_view(result@) =~= cells_view(cells@));
    result
}

impl Clone for TableStructure {
    fn clone(&self) -> (result: Self)
        ensures
            result@ == self@,
    {
        let mut alignments: Vec<CellAlignment> = Vec::new();
        let mut i: usize = 0;
        while i < self.alignments.len()
            invariant
                i <= self.alignments@.len(),
                alignments@ == self.alignments@.take(i as int),
            decreases self.alignments@.len() - i,
        {
            alignments.push(self.alignments[i]);
            i += 1;
            assert(self.alignments@.take(i as int) =~= self.alignments@.take(i - 1).push(
                self.alignments@[i - 1],
            ));
        }
        assert(alignments@ =~= self.alignments@);
        let mut rows: Vec<Vec<Option<Range<usize>>>> = Vec::new();
        let mut j: usize = 0;
        while j < self.rows.len()
            invariant
                j <= self.rows@.len(),
                rows@.len() == j,
                forall|k: int|
                    0 <= k < j ==> cells_view((#[trigger] rows@[k])@) == cells_view(
                        self.rows@[k]@,
                    ),
            decreases self.rows@.len() - j,
        {
            rows.push(copy_cells(&self.rows[j]));
            j += 1;
        }
        assert(cell_rows_view(rows@) =~= cell_rows_view(self.rows@));
        TableStructure { header: copy_cells(&self.header), alignments, rows }
    }
}

// ---------------------------------------------------------------------------------------------
// One row
// ---------------------------------------------------------------------------------------------

/// The segments of a row line from `i` on that unescaped pipes part, the first of them starting
/// at `start`. A backslash takes the meaning from the character behind it.
pub open spec fn segments_from(line: Seq<char>, start: int, i: int, escaped: bool) -> Seq<
    (int, int),
>
    decreases line.len() - i,
{
    if i >= line.len() {
        seq![(start, line.len() as int)]
    } else if !escaped && line[i] == '|' {
        seq![(start, i)] + segments_from(line, i + 1, i + 1, false)
    } else {
        segments_from(line, start, i + 1, !escaped && line[i] == '\\')
    }
}

/// A segment with nothing but white space in it.
pub open spec fn is_blank(line: Seq<char>, segment: (int, int)) -> bool {
    trim(piece(line, segment)).len() == 0
}

/// The segments without a blank one in front of the first pipe.
pub open spec fn without_blank_start(line: Seq<char>, segments: Seq<(int, int)>) -> Seq<
    (int, int),
> {
    if segments.len() > 1 && is_blank(line, segments[0]) {
        segments.drop_first()
    } else {
        segments
    }
}

/// The segments without a blank one behind the last pipe.
pub open spec fn without_blank_end(line: Seq<char>, segments: Seq<(int, int)>) -> Seq<(int, int)> {
    if segments.len() > 1 && is_blank(line, segments.last()) {
        segments.drop_last()
    } else {
        segments
    }
}

/// The cells of a row line: everything between two unescaped pipes, padding and all, plus what
/// stands outside the outer pipes where that is not blank.
pub open spec fn row_cells(line: Seq<char>) -> Seq<(int, int)> {
    without_blank_end(line, without_blank_start(line, segments_from(line, 0, 0, false)))
}

/// Segments stay inside the line and keep their order.
pub proof fn lemma_segments_from(line: Seq<char>, start: int, i: int, escaped: bool)
    requires
        0 <= start <= i <= line.len(),
    ensures
        ({
            let segments = segments_from(line, start, i, escaped);
            &&& segments.len() > 0
            &&& forall|k: int|
                0 <= k < segments.len() ==> start <= (#[trigger] segments[k]).0 <= segments[k].1
                    <= line.len()
        }),
    decreases line.len() - i,
{
    if i < line.len() {
        if !escaped && line[i] == '|' {
            lemma_segments_from(line, i + 1, i + 1, false);
            let rest = segments_from(line, i + 1, i + 1, false);
            let segments = segments_from(line, start, i, escaped);
            assert(segments =~= seq![(start, i)] + rest);
            assert forall|k: int| 0 <= k < segments.len() implies start <= (
            #[trigger] segments[k]).0 <= segments[k].1 <= line.len() by {
                if k > 0 {
                    assert(segments[k] == rest[k - 1]);
                }
            }
        } else {
            lemma_segments_from(line, start, i + 1, !escaped && line[i] == '\\');
        }
    }
}

/// Cells stay inside the line, and there is at least one.
pub proof fn lemma_row_cells(line: Seq<char>)
    ensures
        row_cells(line).len() > 0,
        forall|k: int|
            0 <= k < row_cells(line).len() ==> 0 <= (#[trigger] row_cells(line)[k]).0 <= row_cells(
                line,
            )[k].1 <= line.len(),
{
    lemma_segments_from(line, 0, 0, false);
    let all = segments_from(line, 0, 0, false);
    let opened = without_blank_start(line, all);
    assert forall|k: int| 0 <= k < opened.len() implies 0 <= (#[trigger] opened[k]).0
        <= opened[k].1 <= line.len() by {
        if opened.len() < all.len() {
            assert(opened[k] == all[k + 1]);
        }
    }
    let cells = row_cells(line);
    assert forall|k: int| 0 <= k < cells.len() implies 0 <= (#[trigger] cells[k]).0 <= cells[k].1
        <= line.len() by {
        assert(cells[k] == opened[k]);
    }
}

/// The cells of a row line, as index ranges of the line.
pub fn row_cell_indices(line: &[char]) -> (result: Vec<(usize, usize)>)
    ensures
        pairs(result@) == row_cells(line@),
        result@.len() > 0,
        forall|k: int|
            0 <= k < result@.len() ==> (#[trigger] result@[k]).0 <= result@[k].1 <= line@.len(),
{
    let mut segments: Vec<(usize, usize)> = Vec::new();
    let mut start: usize = 0;
    let mut escaped = false;
    let mut i: usize = 0;
    while i < line.len()
        invariant
            start <= i <= line@.len(),
            segments_from(line@, 0, 0, false) == pairs(segments@) + segments_from(
                line@,
                start as int,
                i as int,
                escaped,
            ),
        decreases line@.len() - i,
    {
        let ghost before = pairs(segments@);
        if !escaped && line[i] == '|' {
            segments.push((start, i));
            assert(pairs(segments@) =~= before.push((start as int, i as int)));
            assert(before + segments_from(line@, start as int, i as int, escaped) =~= pairs(
                segments@,
            ) + segments_from(line@, i + 1, i + 1, false));
            start = i + 1;
            escaped = false;
        } else {
            escaped = !escaped && line[i] == '\\';
        }
        i += 1;
    }
    let ghost before = pairs(segments@);
    segments.push((start, line.len()));
    assert(pairs(segments@) =~= before + segments_from(
        line@,
        start as int,
        i as int,
        escaped,
    ));
    proof {
        lemma_segments_from(line@, 0, 0, false);
        lemma_row_cells(line@);
    }
    let ghost all = segments_from(line@, 0, 0, false);
    assert(pairs(segments@)[0] == all[0]);
    if segments.len() > 1 && trimmed(&line[segments[0].0..segments[0].1]).len() == 0 {
        segments.remove(0);
        assert(pairs(segments@) =~= all.drop_first());
    }
    let ghost opened = without_blank_start(line@, all);
    assert(pairs(segments@) =~= opened);
    assert forall|k: int| 0 <= k < opened.len() implies 0 <= (#[trigger] opened[k]).0
        <= opened[k].1 <= line@.len() by {
        if opened.len() < all.len() {
            assert(opened[k] == all[k + 1]);
        }
    }
    let last: usize = segments.len() - 1;
    assert(pairs(segments@)[last as int] == opened[last as int]);
    if segments.len() > 1 && trimmed(&line[segments[last].0..segments[last].1]).len() == 0 {
        segments.pop();
        assert(pairs(segments@) =~= opened.drop_last());
    }
    assert(pairs(segments@) =~= row_cells(line@));
    assert forall|k: int| 0 <= k < segments@.len() implies (#[trigger] segments@[k]).0
        <= segments@[k].1 <= line@.len() by {
        assert(pairs(segments@)[k] == row_cells(line@)[k]);
    }
    assert(pairs(segments@).len() == row_cells(line@).len());
    segments
}

/// A range of bytes of `line`, `base` bytes further on.
pub open spec fn shifted_range(line: Seq<char>, base: int, range: (int, int)) -> (int, int) {
    (base + byte_offset(line, range.0), base + byte_offset(line, range.1))
}

/// Splits one row line of a table into its cells at unescaped pipes. Each range spans everything
/// between two pipes, padding included, so that a cell edit can rewrite it in place; what stands
/// outside the outer pipes counts only where it is not blank. `base_offset` is where the line
/// starts in the text the ranges are wanted for.
pub fn split_table_row_text(text: &str, base_offset: usize) -> (result: Vec<Range<usize>>)
    requires
        base_offset + byte_length(text@) <= usize::MAX,
    ensures
        result@.len() == row_cells(text@).len(),
        forall|k: int|
            0 <= k < result@.len() ==> (
                (#[trigger] result@[k]).start as int,
                result@[k].end as int,
            ) == shifted_range(text@, base_offset as int, row_cells(text@)[k]),
{
    let line = Text::new(text);
    let cells = row_cell_indices(line.all());
    let mut result: Vec<Range<usize>> = Vec::new();
    let mut k: usize = 0;
    while k < cells.len()
        invariant
            line.wf(),
            line@ == text@,
            base_offset + byte_length(text@) <= usize::MAX,
            pairs(cells@) == row_cells(text@),
            k <= cells@.len(),
            result@.len() == k,
            forall|m: int|
                0 <= m < cells@.len() ==> (#[trigger] cells@[m]).0 <= cells@[m].1 <= text@.len(),
            forall|m: int|
                0 <= m < k ==> ((#[trigger] result@[m]).start as int, result@[m].end as int)
                    == shifted_range(text@, base_offset as int, row_cells(text@)[m]),
        decreases cells@.len() - k,
    {
        assert(pairs(cells@)[k as int] == row_cells(text@)[k as int]);
        assert(cells@[k as int].0 <= cells@[k as int].1 <= text@.len());
        proof {
            lemma_byte_offset_grows(text@, cells@[k as int].0 as int, text@.len() as int);
            lemma_byte_offset_grows(text@, cells@[k as int].1 as int, text@.len() as int);
        }
        result.push(
            base_offset + line.offset(cells[k].0)..base_offset + line.offset(cells[k].1),
        );
        k += 1;
    }
    assert(pairs(cells@).len() == row_cells(text@).len());
    result
}

/// A cell of a delimiter row: dashes, with colons at either end.
pub open spec fn is_delimiter_cell(cell: Seq<char>) -> bool {
    let dashes = trim_end_by(
        trim_start_by(trim(cell), CharClass::Only(':')),
        CharClass::Only(':'),
    );
    dashes.len() > 0 && all_class(dashes, CharClass::Only('-'))
}

/// What a delimiter row's cells are parted from: the line without padding and outer pipes.
pub open spec fn delimiter_body(line: Seq<char>) -> Seq<char> {
    trim_end_by(trim_start_by(trim(line), CharClass::Only('|')), CharClass::Only('|'))
}

/// A line whose every cell is a delimiter cell.
pub open spec fn delimiter_line(line: Seq<char>) -> bool {
    let body = delimiter_body(line);
    forall|k: int|
        0 <= k < split(body, '|').len() ==> is_delimiter_cell(
            piece(body, #[trigger] split(body, '|')[k]),
        )
}

fn delimiter_cell(cell: &[char]) -> (result: bool)
    ensures
        result == is_delimiter_cell(cell@),
{
    let dashes = trimmed_end(
        trimmed_start(trimmed(cell), CharClass::Only(':')),
        CharClass::Only(':'),
    );
    dashes.len() > 0 && is_all_class(dashes, CharClass::Only('-'))
}

fn is_delimiter_chars(line: &[char]) -> (result: bool)
    ensures
        result == delimiter_line(line@),
{
    let body = trimmed_end(
        trimmed_start(trimmed(line), CharClass::Only('|')),
        CharClass::Only('|'),
    );
    let cells = split_ranges(body, '|');
    let mut k: usize = 0;
    while k < cells.len()
        invariant
            body@ == delimiter_body(line@),
            pairs(cells@) == split(body@, '|'),
            k <= cells@.len(),
            forall|m: int|
                0 <= m < cells@.len() ==> (#[trigger] cells@[m]).0 <= cells@[m].1 <= body@.len(),
            forall|m: int|
                0 <= m < k ==> is_delimiter_cell(piece(body@, #[trigger] split(body@, '|')[m])),
        decreases cells@.len() - k,
    {
        assert(pairs(cells@)[k as int] == split(body@, '|')[k as int]);
        assert(cells@[k as int].0 <= cells@[k as int].1 <= body@.len());
        if !delimiter_cell(&body[cells[k].0..cells[k].1]) {
            assert(!is_delimiter_cell(piece(body@, split(body@, '|')[k as int])));
            return false;
        }
        k += 1;
    }
    assert(pairs(cells@).len() == split(body@, '|').len());
    true
}

/// Whether a line delimits a table's header from its rows.
pub fn is_delimiter_row(line: &str) -> (result: bool)
    ensures
        result == delimiter_line(line@),
{
    is_delimiter_chars(to_chars(line).as_slice())
}

/// The alignment a delimiter cell asks for.
pub open spec fn alignment_of(cell: Seq<char>) -> CellAlignment {
    let text = trim(cell);
    if starts_with_char(text, ':') {
        if ends_with_char(text, ':') {
            CellAlignment::Center
        } else {
            CellAlignment::Left
        }
    } else if ends_with_char(text, ':') {
        CellAlignment::Right
    } else {
        CellAlignment::Unset
    }
}

fn read_alignment(cell: &[char]) -> (result: CellAlignment)
    ensures
        result == alignment_of(cell@),
{
    let text = trimmed(cell);
    let starts = text.len() > 0 && text[0] == ':';
    let ends = text.len() > 0 && text[text.len() - 1] == ':';
    if starts {
        if ends {
            CellAlignment::Center
        } else {
            CellAlignment::Left
        }
    } else if ends {
        CellAlignment::Right
    } else {
        CellAlignment::Unset
    }
}

// ---------------------------------------------------------------------------------------------
// Finding a table
// ---------------------------------------------------------------------------------------------

/// The first row from `row` on that ends at or behind the byte offset `near`; the last row where
/// none does.
pub open spec fn row_near(s: Seq<char>, rows: Seq<(int, int)>, near: int, row: int) -> int
    decreases rows.len() - row,
{
    if row + 1 >= rows.len() || near <= byte_offset(s, rows[row].1) {
        row
    } else {
        row_near(s, rows, near, row + 1)
    }
}

/// A line that may belong to a table: it has a pipe, and so is not blank.
pub open spec fn is_table_line(line: Seq<char>) -> bool {
    trim(line).len() > 0 && has_char(line, '|')
}

/// The topmost of the table lines that reach up from `row` without a gap.
pub open spec fn block_top(s: Seq<char>, rows: Seq<(int, int)>, row: int) -> int
    decreases row,
{
    if row > 0 && is_table_line(piece(s, rows[row - 1])) {
        block_top(s, rows, row - 1)
    } else {
        row
    }
}

/// The lowest of the table lines that reach down from `row` without a gap.
pub open spec fn block_bottom(s: Seq<char>, rows: Seq<(int, int)>, row: int) -> int
    decreases rows.len() - row,
{
    if row + 1 < rows.len() && is_table_line(piece(s, rows[row + 1])) {
        block_bottom(s, rows, row + 1)
    } else {
        row
    }
}

/// The first delimiter row from `row` up to and including `last`.
pub open spec fn first_delimiter(
    s: Seq<char>,
    rows: Seq<(int, int)>,
    row: int,
    last: int,
) -> Option<int>
    decreases last + 1 - row,
{
    if row > last {
        None
    } else if delimiter_line(piece(s, rows[row])) {
        Some(row)
    } else {
        first_delimiter(s, rows, row + 1, last)
    }
}

/// The byte range of the part `range` of the line `line`.
pub open spec fn range_in_line(s: Seq<char>, line: (int, int), range: (int, int)) -> (int, int) {
    (
        byte_offset(s, line.0 + range.0) as int,
        byte_offset(s, line.0 + range.1) as int,
    )
}

/// The byte ranges of the cells of one line.
pub open spec fn line_cells(s: Seq<char>, line: (int, int)) -> Seq<Option<(int, int)>> {
    let cells = row_cells(piece(s, line));
    Seq::new(cells.len(), |k: int| Some(range_in_line(s, line, cells[k])))
}

/// The alignments that the cells of a delimiter line ask for.
pub open spec fn line_alignments(line: Seq<char>) -> Seq<CellAlignment> {
    let cells = row_cells(line);
    Seq::new(cells.len(), |k: int| alignment_of(piece(line, cells[k])))
}

/// `items` cut or filled up to `count`.
pub open spec fn resized<T>(items: Seq<T>, count: nat, filler: T) -> Seq<T> {
    Seq::new(
        count,
        |k: int|
            if k < items.len() {
                items[k]
            } else {
                filler
            },
    )
}

/// Every row cut or filled up with left-out cells to `columns`.
pub open spec fn resized_rows(rows: Seq<Seq<Option<(int, int)>>>, columns: nat) -> Seq<
    Seq<Option<(int, int)>>,
> {
    Seq::new(rows.len(), |k: int| resized(rows[k], columns, None))
}

/// The length of the longest of several sequences.
pub open spec fn longest<T>(rows: Seq<Seq<T>>) -> nat
    decreases rows.len(),
{
    if rows.len() == 0 {
        0
    } else {
        let rest = longest(rows.drop_last());
        if rows.last().len() > rest {
            rows.last().len()
        } else {
            rest
        }
    }
}

/// The larger of two numbers.
pub open spec fn larger(a: nat, b: nat) -> nat {
    if a > b {
        a
    } else {
        b
    }
}

/// The cells of the lines from `first` up to and including `last`.
pub open spec fn body_cells(s: Seq<char>, rows: Seq<(int, int)>, first: int, last: int) -> Seq<
    Seq<Option<(int, int)>>,
> {
    Seq::new((last + 1 - first) as nat, |k: int| line_cells(s, rows[first + k]))
}

/// The table whose delimiter row is `delimiter` and whose last row is `last`: its header stands
/// right above the delimiter, and every row has as many cells as the widest one.
pub open spec fn table_with(s: Seq<char>, rows: Seq<(int, int)>, delimiter: int, last: int) -> (
    (int, int),
    TableShape,
) {
    let header = line_cells(s, rows[delimiter - 1]);
    let body = body_cells(s, rows, delimiter + 1, last);
    let columns = larger(header.len(), longest(body));
    (
        (
            byte_offset(s, rows[delimiter - 1].0) as int,
            byte_offset(s, rows[last].1) as int,
        ),
        TableShape {
            header: resized(header, columns, None),
            alignments: line_alignments(piece(s, rows[delimiter])),
            rows: resized_rows(body, columns),
        },
    )
}

/// The pipe table that holds the byte offset `near`: the block of table lines round it, from the
/// line above the block's first delimiter row down to the block's end.
pub open spec fn table_near(s: Seq<char>, near: int) -> Option<((int, int), TableShape)> {
    let rows = lines(s);
    let row = row_near(s, rows, near, 0);
    if !is_table_line(piece(s, rows[row])) {
        None
    } else {
        let last = block_bottom(s, rows, row);
        match first_delimiter(s, rows, block_top(s, rows, row) + 1, last) {
            Some(delimiter) => Some(table_with(s, rows, delimiter, last)),
            None => None,
        }
    }
}

fn table_line(line: &[char]) -> (result: bool)
    ensures
        result == is_table_line(line@),
{
    trimmed(line).len() > 0 && contains_char(line, '|')
}

fn read_line_cells(text: &Text, line: (usize, usize)) -> (result: Vec<Option<Range<usize>>>)
    requires
        text.wf(),
        line.0 <= line.1 <= text@.len(),
    ensures
        cells_view(result@) == line_cells(text@, (line.0 as int, line.1 as int)),
        result@.len() == line_cells(text@, (line.0 as int, line.1 as int)).len(),
{
    let ghost bounds = (line.0 as int, line.1 as int);
    let chars = text.part(line.0, line.1);
    let cells = row_cell_indices(chars);
    let mut result: Vec<Option<Range<usize>>> = Vec::new();
    let mut k: usize = 0;
    assert(pairs(cells@).len() == row_cells(chars@).len());
    while k < cells.len()
        invariant
            text.wf(),
            line.0 <= line.1 <= text@.len(),
            bounds == (line.0 as int, line.1 as int),
            chars@ == piece(text@, bounds),
            pairs(cells@) == row_cells(chars@),
            k <= cells@.len(),
            cells@.len() == line_cells(text@, bounds).len(),
            result@.len() == k,
            forall|m: int|
                0 <= m < k ==> cell_view(#[trigger] result@[m]) == line_cells(text@, bounds)[m],
            forall|m: int|
                0 <= m < cells@.len() ==> (#[trigger] cells@[m]).0 <= cells@[m].1 <= chars@.len(),
        decreases cells@.len() - k,
    {
        assert(pairs(cells@)[k as int] == row_cells(chars@)[k as int]);
        assert(cells@[k as int].0 <= cells@[k as int].1 <= chars@.len());
        let cell = text.offset(line.0 + cells[k].0)..text.offset(line.0 + cells[k].1);
        assert(line_cells(text@, bounds)[k as int] == Some(
            range_in_line(text@, bounds, row_cells(chars@)[k as int]),
        ));
        result.push(Some(cell));
        k += 1;
    }
    assert(cells_view(result@) =~= line_cells(text@, bounds));
    result
}

fn read_line_alignments(line: &[char]) -> (result: Vec<CellAlignment>)
    ensures
        result@ == line_alignments(line@),
{
    let cells = row_cell_indices(line);
    let mut result: Vec<CellAlignment> = Vec::new();
    let mut k: usize = 0;
    while k < cells.len()
        invariant
            pairs(cells@) == row_cells(line@),
            k <= cells@.len(),
            result@ == line_alignments(line@).take(k as int),
            forall|m: int|
                0 <= m < cells@.len() ==> (#[trigger] cells@[m]).0 <= cells@[m].1 <= line@.len(),
        decreases cells@.len() - k,
    {
        assert(pairs(cells@)[k as int] == row_cells(line@)[k as int]);
        assert(cells@[k as int].0 <= cells@[k as int].1 <= line@.len());
        assert(pairs(cells@).len() == row_cells(line@).len());
        result.push(read_alignment(&line[cells[k].0..cells[k].1]));
        k += 1;
        assert(result@ =~= line_alignments(line@).take(k as int));
    }
    assert(pairs(cells@).len() == row_cells(line@).len());
    assert(result@ =~= line_alignments(line@));
    result
}

/// Cuts a row or fills it up with cells that the source leaves out.
fn resize_cells(cells: Vec<Option<Range<usize>>>, columns: usize) -> (result: Vec<
    Option<Range<usize>>,
>)
    ensures
        cells_view(result@) == resized(cells_view(cells@), columns as nat, None),
{
    let mut result = cells;
    while result.len() < columns
        invariant
            result@.len() >= cells@.len(),
            result@.len() > cells@.len() ==> result@.len() <= columns,
            forall|k: int| 0 <= k < cells@.len() ==> result@[k] == cells@[k],
            forall|k: int| cells@.len() <= k < result@.len() ==> result@[k] is None,
        decreases columns - result@.len(),
    {
        result.push(None);
    }
    result.truncate(columns);
    assert(cells_view(result@) =~= resized(cells_view(cells@), columns as nat, None));
    result
}

/// Whether `rows` holds the bounds of the lines of `s`.
pub open spec fn rows_are_lines(s: Seq<char>, rows: Seq<(usize, usize)>) -> bool {
    &&& rows.len() == lines(s).len()
    &&& rows.len() > 0
    &&& forall|r: int|
        0 <= r < rows.len() ==> {
            &&& (#[trigger] rows[r]).0 <= rows[r].1 <= s.len()
            &&& lines(s)[r] == (rows[r].0 as int, rows[r].1 as int)
        }
}

/// The bounds of the lines of a text.
pub fn read_rows(text: &Text) -> (rows: Vec<(usize, usize)>)
    requires
        text.wf(),
    ensures
        rows_are_lines(text@, rows@),
{
    let rows = split_ranges(text.all(), '\n');
    proof {
        lemma_split_from(text@, '\n', 0);
    }
    assert forall|r: int| 0 <= r < rows@.len() implies lines(text@)[r] == (
        (#[trigger] rows@[r]).0 as int,
        rows@[r].1 as int,
    ) by {
        assert(pairs(rows@)[r] == lines(text@)[r]);
    }
    assert(pairs(rows@).len() == lines(text@).len());
    rows
}

/// The row that the byte offset `near` falls in.
pub fn find_row(text: &Text, rows: &Vec<(usize, usize)>, near: usize) -> (result: usize)
    requires
        text.wf(),
        rows_are_lines(text@, rows@),
    ensures
        result < rows@.len(),
        result == row_near(text@, lines(text@), near as int, 0),
{
    let count: usize = rows.len();
    let mut row: usize = 0;
    while row < count - 1 && near > text.offset(rows[row].1)
        invariant
            text.wf(),
            rows_are_lines(text@, rows@),
            count == rows@.len(),
            row < count,
            row_near(text@, lines(text@), near as int, 0) == row_near(
                text@,
                lines(text@),
                near as int,
                row as int,
            ),
        decreases count - row,
    {
        row += 1;
    }
    row
}

/// The first and the last row of the table lines round `row`.
fn find_block(text: &Text, rows: &Vec<(usize, usize)>, row: usize) -> (result: (usize, usize))
    requires
        text.wf(),
        rows_are_lines(text@, rows@),
        row < rows@.len(),
    ensures
        result.0 <= row <= result.1 < rows@.len() <= usize::MAX,
        result.0 == block_top(text@, lines(text@), row as int),
        result.1 == block_bottom(text@, lines(text@), row as int),
{
    let count: usize = rows.len();
    let mut first: usize = row;
    while first > 0 && table_line(text.part(rows[first - 1].0, rows[first - 1].1))
        invariant
            text.wf(),
            rows_are_lines(text@, rows@),
            first <= row < rows@.len(),
            block_top(text@, lines(text@), row as int) == block_top(
                text@,
                lines(text@),
                first as int,
            ),
        decreases first,
    {
        first -= 1;
    }
    let mut last: usize = row;
    while last < count - 1 && table_line(text.part(rows[last + 1].0, rows[last + 1].1))
        invariant
            text.wf(),
            rows_are_lines(text@, rows@),
            count == rows@.len(),
            row <= last < count,
            block_bottom(text@, lines(text@), row as int) == block_bottom(
                text@,
                lines(text@),
                last as int,
            ),
        decreases count - last,
    {
        last += 1;
    }
    (first, last)
}

/// The first delimiter row from `first` up to and including `last`.
fn find_delimiter(
    text: &Text,
    rows: &Vec<(usize, usize)>,
    first: usize,
    last: usize,
) -> (result: Option<usize>)
    requires
        text.wf(),
        rows_are_lines(text@, rows@),
        first <= last + 1 <= rows@.len(),
    ensures
        found(result) == first_delimiter(text@, lines(text@), first as int, last as int),
        result matches Some(row) ==> first <= row <= last,
{
    let count: usize = rows.len();
    let mut row: usize = first;
    while row <= last
        invariant
            text.wf(),
            rows_are_lines(text@, rows@),
            count == rows@.len(),
            first <= row <= last + 1 <= count,
            first_delimiter(text@, lines(text@), first as int, last as int) == first_delimiter(
                text@,
                lines(text@),
                row as int,
                last as int,
            ),
        decreases last + 1 - row,
    {
        if is_delimiter_chars(text.part(rows[row].0, rows[row].1)) {
            return Some(row);
        }
        row += 1;
    }
    None
}

/// The number of columns of a table: the cells of its widest row, the header counted in.
fn count_columns(
    text: &Text,
    rows: &Vec<(usize, usize)>,
    delimiter: usize,
    last: usize,
) -> (columns: usize)
    requires
        text.wf(),
        rows_are_lines(text@, rows@),
        0 < delimiter <= last < rows@.len(),
    ensures
        columns == larger(
            line_cells(text@, lines(text@)[delimiter - 1]).len(),
            longest(body_cells(text@, lines(text@), delimiter + 1, last as int)),
        ),
{
    let ghost ls = lines(text@);
    let ghost body = body_cells(text@, ls, delimiter + 1, last as int);
    let mut columns: usize = read_line_cells(text, rows[delimiter - 1]).len();
    let ghost header = columns as nat;
    let mut row: usize = delimiter;
    while row < last
        invariant
            text.wf(),
            rows_are_lines(text@, rows@),
            0 < delimiter <= row <= last < rows@.len(),
            ls == lines(text@),
            body == body_cells(text@, ls, delimiter + 1, last as int),
            columns == larger(header, longest(body.take(row - delimiter))),
        decreases last - row,
    {
        row += 1;
        let count: usize = read_line_cells(text, rows[row]).len();
        if count > columns {
            columns = count;
        }
        let ghost done = body.take(row - delimiter);
        assert(done.drop_last() =~= body.take(row - delimiter - 1));
        assert(done.last() == line_cells(text@, ls[row as int]));
    }
    assert(body.take(body.len() as int) =~= body);
    columns
}

/// The rows of a table below its delimiter, each with `columns` cells.
fn read_body(
    text: &Text,
    rows: &Vec<(usize, usize)>,
    delimiter: usize,
    last: usize,
    columns: usize,
) -> (result: Vec<Vec<Option<Range<usize>>>>)
    requires
        text.wf(),
        rows_are_lines(text@, rows@),
        0 < delimiter <= last < rows@.len(),
    ensures
        cell_rows_view(result@) == resized_rows(
            body_cells(text@, lines(text@), delimiter + 1, last as int),
            columns as nat,
        ),
{
    let ghost ls = lines(text@);
    let ghost body = body_cells(text@, ls, delimiter + 1, last as int);
    let mut result: Vec<Vec<Option<Range<usize>>>> = Vec::new();
    let mut row: usize = delimiter;
    while row < last
        invariant
            text.wf(),
            rows_are_lines(text@, rows@),
            0 < delimiter <= row <= last < rows@.len(),
            ls == lines(text@),
            body == body_cells(text@, ls, delimiter + 1, last as int),
            result@.len() == row - delimiter,
            forall|k: int|
                0 <= k < result@.len() ==> cells_view((#[trigger] result@[k])@) == resized(
                    body[k],
                    columns as nat,
                    None,
                ),
        decreases last - row,
    {
        row += 1;
        let cells = resize_cells(read_line_cells(text, rows[row]), columns);
        assert(body[row - delimiter - 1] == line_cells(text@, ls[row as int]));
        result.push(cells);
    }
    assert(cell_rows_view(result@) =~= resized_rows(body, columns as nat));
    result
}

/// Parses the pipe table that holds the byte offset `near`, in a text whose lines are known.
pub fn find_table(text: &Text, rows: &Vec<(usize, usize)>, near: usize) -> (result: Option<
    (Range<usize>, TableStructure),
>)
    requires
        text.wf(),
        rows_are_lines(text@, rows@),
    ensures
        match result {
            Some((range, structure)) => table_near(text@, near as int) == Some(
                ((range.start as int, range.end as int), structure@),
            ),
            None => table_near(text@, near as int) is None,
        },
        result matches Some((range, _)) ==> range.start <= range.end,
{
    let row = find_row(text, rows, near);
    if !table_line(text.part(rows[row].0, rows[row].1)) {
        return None;
    }
    let (first, last) = find_block(text, rows, row);
    let delimiter = match find_delimiter(text, rows, first + 1, last) {
        Some(delimiter) => delimiter,
        None => {
            return None;
        },
    };
    let columns = count_columns(text, rows, delimiter, last);
    let header = resize_cells(read_line_cells(text, rows[delimiter - 1]), columns);
    let alignments = read_line_alignments(text.part(rows[delimiter].0, rows[delimiter].1));
    let body = read_body(text, rows, delimiter, last, columns);
    let range = text.offset(rows[delimiter - 1].0)..text.offset(rows[last].1);
    proof {
        lemma_split_from(text@, '\n', 0);
        assert(lines(text@)[delimiter - 1].1 < lines(text@)[last as int].0);
        assert(rows@[last as int].0 <= rows@[last as int].1);
        assert(rows@[delimiter - 1].0 <= rows@[delimiter - 1].1);
        lemma_byte_offset_grows(
            text@,
            rows@[delimiter - 1].0 as int,
            rows@[last as int].1 as int,
        );
    }
    Some((range, TableStructure { header, alignments, rows: body }))
}

/// Parses the pipe table that holds the byte offset `near` straight from the text. Returns the
/// table's byte range and where its cells lie; `None` where no table is there.
pub fn parse_table_at(text: &str, near: usize) -> (result: Option<(Range<usize>, TableStructure)>)
    ensures
        match result {
            Some((range, structure)) => table_near(text@, near as int) == Some(
                ((range.start as int, range.end as int), structure@),
            ),
            None => table_near(text@, near as int) is None,
        },
{
    let text = Text::new(text);
    let rows = read_rows(&text);
    find_table(&text, &rows, near)
}

} // verus!
