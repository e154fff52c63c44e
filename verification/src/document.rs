//! A text with its lines, and the nodes of its syntax trees in it.

use crate::syntax::SyntaxNode;
use crate::table::{
    find_row, find_table, read_rows, row_near, rows_are_lines, table_near, TableStructure,
};
use crate::text::{
    all_class, byte_length, byte_offset, find_char, find_char_back, find_run_end, index_at,
    index_of_char, is_all_class, is_boundary, last_index_of_char, lemma_byte_offset_grows,
    lemma_byte_offset_part, lemma_find_char, lemma_split_from, lines, piece, run_end, same_chars,
    slice_at, trim, trimmed, CharClass, Text,
};
use std::ops::Range;
use vstd::prelude::*;

verus! {

/// A text short enough for its rows and columns to be counted in 32 bits, a tab being four
/// columns.
pub open spec fn countable(s: Seq<char>) -> bool {
    4 * (s.len() + 1) <= u32::MAX
}

/// The row that a byte offset falls in.
pub open spec fn row_at(s: Seq<char>, offset: int) -> int {
    row_near(s, lines(s), offset, 0)
}

/// The byte range of the rows from `first` up to and including `last`.
pub open spec fn rows_span(s: Seq<char>, first: int, last: int) -> (int, int) {
    (byte_offset(s, lines(s)[first].0) as int, byte_offset(s, lines(s)[last].1) as int)
}

/// The characters of a row.
pub open spec fn row_text(s: Seq<char>, row: int) -> Seq<char> {
    piece(s, lines(s)[row])
}

/// The rows that a node spans: a newline that ends it does not take it onto the next row.
pub open spec fn node_rows(s: Seq<char>, node: SyntaxNode) -> (int, int) {
    let start_row = row_at(s, node.start as int);
    let end_row = row_at(s, node.end as int);
    if end_row > start_row && byte_offset(s, lines(s)[end_row].0) == node.end {
        (start_row, end_row - 1)
    } else {
        (start_row, end_row)
    }
}

/// The text that a node spans.
pub open spec fn node_text(s: Seq<char>, node: SyntaxNode) -> Seq<char> {
    piece(s, node.span(s))
}

/// Where the line that holds index `i` starts.
pub open spec fn line_start(s: Seq<char>, i: int) -> int {
    match find_char_back(s, '\n', i) {
        Some(at) => at + 1,
        None => 0,
    }
}

/// Where the line that holds index `i` ends.
pub open spec fn line_end(s: Seq<char>, i: int) -> int {
    match find_char(s, '\n', i) {
        Some(at) => at,
        None => s.len() as int,
    }
}

/// Whether only white space shares a node's first and last lines with it.
pub open spec fn alone_on_its_lines(s: Seq<char>, node: SyntaxNode) -> bool {
    let (start, end) = node.span(s);
    &&& all_class(s.subrange(line_start(s, start), start), CharClass::Whitespace)
    &&& all_class(s.subrange(end, line_end(s, end)), CharClass::Whitespace)
}

/// Whether a node that stays on one line is all there is on it.
pub open spec fn alone_on_line(s: Seq<char>, node: SyntaxNode) -> bool {
    &&& row_at(s, node.start as int) == row_at(s, node.end as int)
    &&& trim(row_text(s, row_at(s, node.start as int))) == trim(node_text(s, node))
}

/// The columns that a run of white space takes.
pub open spec fn columns_of(s: Seq<char>) -> nat
    decreases s.len(),
{
    if s.len() == 0 {
        0
    } else {
        columns_of(s.drop_last()) + if s.last() == '\t' {
            4nat
        } else {
            1nat
        }
    }
}

/// The columns of white space that a run of rows opens with.
pub open spec fn indent_of(s: Seq<char>, first: int, last: int) -> nat {
    let block = s.subrange(lines(s)[first].0, lines(s)[last].1);
    columns_of(block.take(run_end(block, CharClass::Whitespace, 0)))
}

/// There are at most as many lines as characters, and one more.
proof fn lemma_line_count(s: Seq<char>, start: int)
    requires
        0 <= start <= s.len(),
    ensures
        crate::text::split_from(s, '\n', start).len() <= s.len() - start + 1,
    decreases s.len() - start,
{
    lemma_find_char(s, '\n', start);
    match find_char(s, '\n', start) {
        Some(at) => {
            lemma_line_count(s, at + 1);
        },
        None => {},
    }
}

/// Rows grow with offsets.
pub proof fn lemma_rows_grow(s: Seq<char>, rows: Seq<(int, int)>, a: int, b: int, row: int)
    requires
        a <= b,
        0 <= row < rows.len(),
    ensures
        row <= row_near(s, rows, a, row) <= row_near(s, rows, b, row) < rows.len(),
    decreases rows.len() - row,
{
    if row + 1 < rows.len() {
        lemma_rows_grow(s, rows, a, b, row + 1);
    }
}

proof fn lemma_columns_bound(s: Seq<char>)
    ensures
        columns_of(s) <= 4 * s.len(),
    decreases s.len(),
{
    if s.len() > 0 {
        lemma_columns_bound(s.drop_last());
    }
}

/// A text and the bounds of its lines.
pub struct Document {
    text: Text,
    rows: Vec<(usize, usize)>,
}

impl View for Document {
    type V = Seq<char>;

    closed spec fn view(&self) -> Seq<char> {
        self.text@
    }
}

impl Document {
    /// The rows are the text's lines, and few enough to count.
    pub closed spec fn wf(&self) -> bool {
        &&& self.text.wf()
        &&& rows_are_lines(self.text@, self.rows@)
        &&& countable(self.text@)
    }

    /// Takes a text apart.
    pub fn new(text: &str) -> (result: Document)
        requires
            countable(text@),
        ensures
            result.wf(),
            result@ == text@,
    {
        let text = Text::new(text);
        let rows = read_rows(&text);
        Document { text, rows }
    }

    /// The characters.
    pub fn text(&self) -> (result: &Text)
        requires
            self.wf(),
        ensures
            result.wf(),
            result@ == self@,
    {
        &self.text
    }

    /// The row that a byte offset falls in.
    pub fn row_of(&self, offset: usize) -> (result: u32)
        requires
            self.wf(),
        ensures
            result == row_at(self@, offset as int),
            result < lines(self@).len() <= u32::MAX / 4,
    {
        proof {
            lemma_line_count(self@, 0);
        }
        find_row(&self.text, &self.rows, offset) as u32
    }

    /// The byte offset that a row starts at.
    pub fn row_start(&self, row: u32) -> (result: usize)
        requires
            self.wf(),
            row < lines(self@).len(),
        ensures
            result == byte_offset(self@, lines(self@)[row as int].0),
    {
        self.text.offset(self.rows[row as usize].0)
    }

    /// The byte offset that a row ends at.
    pub fn row_end(&self, row: u32) -> (result: usize)
        requires
            self.wf(),
            row < lines(self@).len(),
        ensures
            result == byte_offset(self@, lines(self@)[row as int].1),
    {
        self.text.offset(self.rows[row as usize].1)
    }

    /// The characters of a row.
    pub fn row_chars(&self, row: u32) -> (result: &[char])
        requires
            self.wf(),
            row < lines(self@).len(),
        ensures
            result@ == row_text(self@, row as int),
    {
        self.text.part(self.rows[row as usize].0, self.rows[row as usize].1)
    }

    /// The index of the character at a byte offset.
    pub fn index(&self, offset: usize) -> (result: usize)
        requires
            self.wf(),
            is_boundary(self@, offset as int),
        ensures
            result == index_at(self@, offset as int),
            result <= self@.len(),
            byte_offset(self@, result as int) == offset,
    {
        match self.text.index_of(offset) {
            Some(index) => index,
            None => 0,
        }
    }

    /// The characters between two byte offsets, where both are boundaries in order.
    pub fn slice(&self, start: usize, end: usize) -> (result: Option<&[char]>)
        requires
            self.wf(),
        ensures
            match result {
                Some(part) => slice_at(self@, start as int, end as int) == Some(part@),
                None => slice_at(self@, start as int, end as int) is None,
            },
    {
        if start > end {
            return None;
        }
        match (self.text.index_of(start), self.text.index_of(end)) {
            (Some(first), Some(last)) => {
                proof {
                    if last < first {
                        lemma_byte_offset_grows(self@, last as int, first as int);
                    }
                }
                Some(self.text.part(first, last))
            },
            _ => None,
        }
    }

    /// A slice is as long as its byte range.
    pub proof fn lemma_slice_length(&self, start: usize, end: usize)
        requires
            slice_at(self@, start as int, end as int) is Some,
        ensures
            start + byte_length(slice_at(self@, start as int, end as int)->0) == end,
    {
        let first = index_at(self@, start as int);
        let last = index_at(self@, end as int);
        if last < first {
            lemma_byte_offset_grows(self@, last, first);
        }
        lemma_byte_offset_part(self@, first, last, last - first);
    }

    /// The index range of the characters that a node spans.
    pub fn span_of(&self, node: &SyntaxNode) -> (result: (usize, usize))
        requires
            self.wf(),
            node.fits(self@),
        ensures
            (result.0 as int, result.1 as int) == node.span(self@),
            result.0 <= result.1 <= self@.len(),
            byte_offset(self@, result.0 as int) == node.start,
            byte_offset(self@, result.1 as int) == node.end,
    {
        let start = self.index(node.start);
        let end = self.index(node.end);
        proof {
            if end < start {
                lemma_byte_offset_grows(self@, end as int, start as int);
            }
        }
        (start, end)
    }

    /// The characters that a node spans.
    pub fn chars_of(&self, node: &SyntaxNode) -> (result: &[char])
        requires
            self.wf(),
            node.fits(self@),
        ensures
            result@ == node_text(self@, *node),
    {
        let (start, end) = self.span_of(node);
        self.text.part(start, end)
    }

    /// The rows that a node spans.
    pub fn node_rows(&self, node: &SyntaxNode) -> (result: (u32, u32))
        requires
            self.wf(),
            node.fits(self@),
        ensures
            (result.0 as int, result.1 as int) == node_rows(self@, *node),
            result.0 <= result.1 < lines(self@).len() <= u32::MAX / 4,
    {
        let start_row = self.row_of(node.start);
        let end_row = self.row_of(node.end);
        proof {
            lemma_rows_grow(self@, lines(self@), node.start as int, node.end as int, 0);
        }
        if end_row > start_row && self.row_start(end_row) == node.end {
            (start_row, end_row - 1)
        } else {
            (start_row, end_row)
        }
    }

    /// Whether only white space shares a node's first and last lines with it.
    pub fn node_is_alone_on_its_lines(&self, node: &SyntaxNode) -> (result: bool)
        requires
            self.wf(),
            node.fits(self@),
        ensures
            result == alone_on_its_lines(self@, *node),
    {
        let (start, end) = self.span_of(node);
        let first: usize = match last_index_of_char(self.text.all(), '\n', start) {
            Some(at) => at + 1,
            None => 0,
        };
        let last: usize = match index_of_char(self.text.all(), '\n', end) {
            Some(at) => at,
            None => self.text.len(),
        };
        is_all_class(self.text.part(first, start), CharClass::Whitespace) && is_all_class(
            self.text.part(end, last),
            CharClass::Whitespace,
        )
    }

    /// Whether a node that stays on one line is all there is on it.
    pub fn is_alone_on_line(&self, node: &SyntaxNode) -> (result: bool)
        requires
            self.wf(),
            node.fits(self@),
        ensures
            result == alone_on_line(self@, *node),
    {
        let row = self.row_of(node.start);
        if row != self.row_of(node.end) {
            return false;
        }
        same_chars(trimmed(self.row_chars(row)), trimmed(self.chars_of(node)))
    }

    /// The columns of white space that a run of rows opens with.
    pub fn indent(&self, first: u32, last: u32) -> (result: u32)
        requires
            self.wf(),
            first <= last < lines(self@).len(),
        ensures
            result == indent_of(self@, first as int, last as int),
    {
        let start: usize = self.rows[first as usize].0;
        let end: usize = self.rows[last as usize].1;
        proof {
            lemma_split_from(self@, '\n', 0);
            assert(lines(self@)[first as int].0 <= lines(self@)[first as int].1);
            assert(lines(self@)[last as int].0 <= lines(self@)[last as int].1);
        }
        let block = self.text.part(start, end);
        let run = find_run_end(block, CharClass::Whitespace, 0);
        let ghost blank = block@.take(run as int);
        let mut columns: u32 = 0;
        let mut i: usize = 0;
        while i < run
            invariant
                i <= run <= block@.len(),
                block@.len() <= self@.len(),
                countable(self@),
                blank == block@.take(run as int),
                columns == columns_of(blank.take(i as int)),
            decreases run - i,
        {
            proof {
                assert(blank.take(i + 1).drop_last() =~= blank.take(i as int));
                lemma_columns_bound(blank.take(i + 1));
            }
            columns += if block[i] == '\t' {
                4
            } else {
                1
            };
            i += 1;
        }
        assert(blank.take(i as int) =~= blank);
        columns
    }

    /// The rows of a byte range.
    pub fn rows_of(&self, start: usize, end: usize) -> (result: (u32, u32))
        requires
            self.wf(),
            start <= end,
        ensures
            (result.0 as int, result.1 as int) == (
                row_at(self@, start as int),
                row_at(self@, end as int),
            ),
            result.0 <= result.1 < lines(self@).len() <= u32::MAX / 4,
    {
        proof {
            lemma_rows_grow(self@, lines(self@), start as int, end as int, 0);
        }
        (self.row_of(start), self.row_of(end))
    }

    /// Parses the pipe table that holds a byte offset.
    pub fn table_at(&self, near: usize) -> (result: Option<(Range<usize>, TableStructure)>)
        requires
            self.wf(),
        ensures
            match result {
                Some((range, structure)) => table_near(self@, near as int) == Some(
                    ((range.start as int, range.end as int), structure@),
                ),
                None => table_near(self@, near as int) is None,
            },
            result matches Some((range, _)) ==> range.start <= range.end,
    {
        find_table(&self.text, &self.rows, near)
    }
}

} // verus!
