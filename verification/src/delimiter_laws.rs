//! Which lines delimit a header: those whose every cell is made of dashes.

use crate::cell_laws::lemma_later_segments;
use crate::line_splits::lemma_pieces_from;
use crate::table::{
    delimiter_body, delimiter_line, is_blank, is_delimiter_cell, lemma_row_cells,
    lemma_segments_from, row_cells, segments_from, without_blank_start,
};
use crate::table_edit::{written_cell, written_cells, written_row};
use crate::table_round_trip::{
    cell_body, cell_start, lemma_split_of_inner, lemma_written_cells, pipe_free, plain_cell,
    plain_cells,
};
use crate::text::{
    find_char, lemma_find_char, lemma_run_end, lemma_run_start, lemma_split_from,
    lemma_trim_of_padded, lemma_trim_of_tight, piece, run_end, run_start, split, split_from, trim,
    trim_end_by, trim_start_by, white_space, CharClass,
};
use vstd::prelude::*;

verus! {

// ---------------------------------------------------------------------------------------------
// Trimming
// ---------------------------------------------------------------------------------------------

/// The trim of a text reaches from its first character that is no white space to its last.
pub(crate) proof fn lemma_trim_reaches_from(s: Seq<char>, i: int, j: int)
    requires
        0 <= i < j <= s.len(),
        forall|k: int| 0 <= k < i ==> white_space(#[trigger] s[k]),
        forall|k: int| j <= k < s.len() ==> white_space(#[trigger] s[k]),
        !white_space(s[i]),
        !white_space(s[j - 1]),
    ensures
        trim(s) == s.subrange(i, j),
        run_end(s, CharClass::Whitespace, 0) == i,
{
    let ws = CharClass::Whitespace;
    lemma_run_end(s, ws, 0);
    let start = run_end(s, ws, 0);
    if start > i {
        assert(ws.holds(s[i]));
    }
    let t = s.skip(i);
    assert(trim_start_by(s, ws) =~= t);
    lemma_run_start(t, ws, t.len() as int);
    let end = run_start(t, ws, t.len() as int);
    if end > j - i {
        assert(t[end - 1] == s[i + end - 1]);
    } else if end < j - i {
        assert(ws.holds(t[j - i - 1]));
    }
    assert(trim(s) =~= s.subrange(i, j));
}

/// A text is blank where its trim is empty, and else has a first and a last character that is no
/// white space.
pub(crate) proof fn lemma_trim_bounds(s: Seq<char>) -> (bounds: (int, int))
    ensures
        trim(s).len() == 0 ==> forall|k: int| 0 <= k < s.len() ==> white_space(#[trigger] s[k]),
        trim(s).len() > 0 ==> 0 <= bounds.0 < bounds.1 <= s.len() && trim(s) == s.subrange(
            bounds.0,
            bounds.1,
        ) && !white_space(s[bounds.0]) && !white_space(s[bounds.1 - 1]) && (forall|k: int|
            0 <= k < bounds.0 ==> white_space(#[trigger] s[k])) && (forall|k: int|
            bounds.1 <= k < s.len() ==> white_space(#[trigger] s[k])),
{
    let ws = CharClass::Whitespace;
    lemma_run_end(s, ws, 0);
    let i = run_end(s, ws, 0);
    let t = trim_start_by(s, ws);
    lemma_run_start(t, ws, t.len() as int);
    let j = run_start(t, ws, t.len() as int);
    assert forall|k: int| 0 <= k < i implies white_space(#[trigger] s[k]) by {
        assert(ws.holds(s[k]));
    }
    assert forall|k: int| i + j <= k < s.len() implies white_space(#[trigger] s[k]) by {
        assert(t[k - i] == s[k]);
        assert(ws.holds(t[k - i]));
    }
    if trim(s).len() > 0 {
        assert(t[0] == s[i]);
        assert(!ws.holds(s[i]));
        assert(t[j - 1] == s[i + j - 1]);
        assert(!ws.holds(t[j - 1]));
        assert(trim(s) =~= s.subrange(i, i + j));
    }
    (i, i + j)
}

/// White space taken off the ends of a text does not change its trim.
pub(crate) proof fn lemma_trim_of_inner(s: Seq<char>, a: int, b: int)
    requires
        0 <= a <= b <= s.len(),
        forall|k: int| 0 <= k < a ==> white_space(#[trigger] s[k]),
        forall|k: int| b <= k < s.len() ==> white_space(#[trigger] s[k]),
    ensures
        trim(s.subrange(a, b)) == trim(s),
{
    let t = s.subrange(a, b);
    let (i, j) = lemma_trim_bounds(s);
    if trim(s).len() > 0 {
        assert(t[i - a] == s[i]);
        assert(t[j - a - 1] == s[j - 1]);
        assert forall|k: int| 0 <= k < i - a implies white_space(#[trigger] t[k]) by {
            assert(t[k] == s[k + a]);
        }
        assert forall|k: int| j - a <= k < t.len() implies white_space(#[trigger] t[k]) by {
            assert(t[k] == s[k + a]);
        }
        lemma_trim_reaches_from(t, i - a, j - a);
        assert(t.subrange(i - a, j - a) =~= s.subrange(i, j));
    } else {
        let (x, y) = lemma_trim_bounds(t);
        if trim(t).len() > 0 {
            assert(t[x] == s[x + a]);
        }
        assert(trim(t) =~= trim(s));
    }
}

/// A delimiter cell is not blank, and holds dashes, colons and white space only.
pub(crate) proof fn lemma_delimiter_cell(cell: Seq<char>)
    requires
        is_delimiter_cell(cell),
    ensures
        trim(cell).len() > 0,
        forall|i: int|
            0 <= i < cell.len() ==> white_space(#[trigger] cell[i]) || cell[i] == ':' || cell[i]
                == '-',
{
    let colon = CharClass::Only(':');
    let t = trim(cell);
    lemma_run_end(t, colon, 0);
    let u = trim_start_by(t, colon);
    lemma_run_start(u, colon, u.len() as int);
    let dashes = trim_end_by(u, colon);
    let (i, j) = lemma_trim_bounds(cell);
    let a = run_end(t, colon, 0);
    let b = run_start(u, colon, u.len() as int);
    assert forall|k: int| 0 <= k < cell.len() implies white_space(#[trigger] cell[k]) || cell[k]
        == ':' || cell[k] == '-' by {
        if i <= k < j {
            assert(t[k - i] == cell[k]);
            if k - i < a {
                assert(colon.holds(t[k - i]));
            } else {
                assert(u[k - i - a] == cell[k]);
                if k - i - a < b {
                    assert(dashes[k - i - a] == cell[k]);
                    assert(CharClass::Only('-').holds(dashes[k - i - a]));
                } else {
                    assert(colon.holds(u[k - i - a]));
                }
            }
        }
    }
}

// ---------------------------------------------------------------------------------------------
// Pieces
// ---------------------------------------------------------------------------------------------

/// Every place of a text is in one of its pieces, or right behind one.
pub(crate) proof fn lemma_piece_around(s: Seq<char>, c: char, start: int, i: int) -> (k: int)
    requires
        0 <= start <= i <= s.len(),
    ensures
        0 <= k < split_from(s, c, start).len(),
        split_from(s, c, start)[k].0 <= i <= split_from(s, c, start)[k].1,
    decreases s.len() - start,
{
    lemma_find_char(s, c, start);
    match find_char(s, c, start) {
        Some(at) => {
            if i <= at {
                0
            } else {
                let rest = split_from(s, c, at + 1);
                let k = lemma_piece_around(s, c, at + 1, i);
                assert(split_from(s, c, start) =~= seq![(start, at)] + rest);
                assert(split_from(s, c, start)[k + 1] == rest[k]);
                k + 1
            }
        },
        None => 0,
    }
}

/// A separator stands behind every piece but the last.
pub(crate) proof fn lemma_piece_ends(s: Seq<char>, c: char, k: int)
    requires
        0 <= k < split(s, c).len(),
    ensures
        0 <= split(s, c)[k].0 <= split(s, c)[k].1 <= s.len(),
        split(s, c)[k].1 < s.len() ==> s[split(s, c)[k].1] == c,
        split(s, c)[k].0 > 0 ==> s[split(s, c)[k].0 - 1] == c,
        forall|i: int| split(s, c)[k].0 <= i < split(s, c)[k].1 ==> #[trigger] s[i] != c,
{
    let pieces = split(s, c);
    lemma_split_from(s, c, 0);
    lemma_pieces_from(s, c, 0, k);
    assert(pieces[k].0 <= pieces[k].1);
    if k + 1 < pieces.len() {
        lemma_pieces_from(s, c, 0, k + 1);
    } else {
        assert(pieces[k] == pieces.last());
    }
}

// ---------------------------------------------------------------------------------------------
// A written row
// ---------------------------------------------------------------------------------------------

proof fn lemma_written_bodies(cells: Seq<Seq<char>>)
    ensures
        written_cells(Seq::new(cells.len(), |k: int| cell_body(cells[k]))) == written_cells(cells),
    decreases cells.len(),
{
    let bodies = Seq::new(cells.len(), |k: int| cell_body(cells[k]));
    if cells.len() > 0 {
        let shorter = cells.drop_last();
        lemma_written_bodies(shorter);
        assert(bodies.drop_last() =~= Seq::new(shorter.len(), |k: int| cell_body(shorter[k])));
        assert(written_cell(cell_body(cells.last())) =~= written_cell(cells.last()));
    } else {
        assert(bodies =~= cells);
    }
}

proof fn lemma_body_of_written(cells: Seq<Seq<char>>)
    requires
        cells.len() > 0,
    ensures
        delimiter_body(written_row(cells)) == written_cells(cells).drop_last(),
{
    let line = written_row(cells);
    let pipe = CharClass::Only('|');
    lemma_written_cells(cells, cells.len() - 1);
    lemma_written_cells(cells, 0);
    let last = written_cell(cells.last());
    assert(written_cells(cells) =~= written_cells(cells.drop_last()) + last);
    assert(last[last.len() - 1] == '|');
    assert(last[last.len() - 2] == ' ');
    assert(line.last() == '|');
    lemma_trim_of_tight(line);
    assert(cells.take(0) =~= Seq::empty());
    assert(line.subrange(cell_start(cells, 0), cell_start(cells, 1))[0] == ' ');
    assert(line[1] == ' ');
    reveal_with_fuel(run_end, 2);
    reveal_with_fuel(run_start, 2);
    let opened = trim_start_by(line, pipe);
    assert(opened =~= written_cells(cells));
    assert(opened[opened.len() - 2] == ' ');
    assert(delimiter_body(line) =~= written_cells(cells).drop_last());
}

proof fn lemma_no_escape_no_pipe(s: Seq<char>, i: int)
    requires
        0 <= i,
        pipe_free(s, i, false),
        forall|k: int| i <= k < s.len() ==> #[trigger] s[k] != '\\',
    ensures
        forall|k: int| i <= k < s.len() ==> #[trigger] s[k] != '|',
    decreases s.len() - i,
{
    if i < s.len() {
        assert(s[i] != '\\');
        lemma_no_escape_no_pipe(s, i + 1);
    }
}

/// Every cell of a written row that delimits a header is made of dashes.
pub(crate) proof fn lemma_cells_of_written_delimiter(cells: Seq<Seq<char>>)
    requires
        plain_cells(cells),
        cells.len() > 0,
        delimiter_line(written_row(cells)),
    ensures
        forall|k: int| 0 <= k < cells.len() ==> is_delimiter_cell(#[trigger] cells[k]),
{
    let line = written_row(cells);
    let inner = written_cells(cells).drop_last();
    lemma_body_of_written(cells);
    assert forall|i: int| 0 <= i < inner.len() && #[trigger] inner[i] != '|' implies inner[i]
        != '\\' by {
        let k = lemma_piece_around(inner, '|', 0, i);
        lemma_piece_ends(inner, '|', k);
        let (a, b) = split(inner, '|')[k];
        lemma_delimiter_cell(piece(inner, (a, b)));
        assert(piece(inner, (a, b))[i - a] == inner[i]);
    }
    let bodies = Seq::new(cells.len(), |k: int| cell_body(cells[k]));
    lemma_written_bodies(cells);
    assert forall|k: int, i: int| 0 <= k < bodies.len() && 0 <= i
        < bodies[k].len() implies #[trigger] bodies[k][i] != '|' by {
        let cell = cells[k];
        assert(plain_cell(cell));
        if cell.len() > 0 {
            lemma_written_cells(cells, k);
            let start = cell_start(cells, k);
            let next = cell_start(cells, k + 1);
            assert forall|m: int| 0 <= m < cell.len() implies #[trigger] cell[m] != '\\' by {
                assert(line.subrange(start, next)[m + 1] == written_cell(cell)[m + 1]);
                assert(written_cell(cell)[m + 1] == cell[m]);
                assert(inner[start + m] == line[start + m + 1]);
            }
            lemma_no_escape_no_pipe(cell, 0);
        }
    }
    lemma_split_of_inner(bodies);
    assert forall|k: int| 0 <= k < cells.len() implies is_delimiter_cell(#[trigger] cells[k]) by {
        let padded = seq![' '] + bodies[k] + seq![' '];
        assert(piece(inner, split(inner, '|')[k]) == padded);
        assert(is_delimiter_cell(padded));
        assert(plain_cell(cells[k]));
        lemma_trim_of_padded(cells[k]);
        if cells[k].len() == 0 {
            assert(padded =~= seq![' ', ' ', ' ']);
            lemma_delimiter_cell(padded);
        }
    }
}

// ---------------------------------------------------------------------------------------------
// A line as it is found
// ---------------------------------------------------------------------------------------------

/// Whether a segment of a line holds no backslash.
spec fn is_plain_segment(line: Seq<char>, segment: (int, int)) -> bool {
    forall|m: int| segment.0 <= m < segment.1 ==> #[trigger] line[m] != '\\'
}

/// Where no segment holds a backslash, every pipe parts two of them.
proof fn lemma_segments_are_pieces(line: Seq<char>, start: int, i: int)
    requires
        0 <= start <= i <= line.len(),
        forall|k: int| start <= k < i ==> #[trigger] line[k] != '|',
        forall|k: int|
            0 <= k < segments_from(line, start, i, false).len() ==> is_plain_segment(
                line,
                #[trigger] segments_from(line, start, i, false)[k],
            ),
    ensures
        segments_from(line, start, i, false) == split_from(line, '|', start),
    decreases line.len() - i,
{
    let segments = segments_from(line, start, i, false);
    lemma_find_char(line, '|', start);
    if i < line.len() {
        if line[i] == '|' {
            let rest = segments_from(line, i + 1, i + 1, false);
            assert(segments =~= seq![(start, i)] + rest);
            assert forall|k: int| 0 <= k < rest.len() implies is_plain_segment(
                line,
                #[trigger] rest[k],
            ) by {
                assert(segments[k + 1] == rest[k]);
            }
            lemma_segments_are_pieces(line, i + 1, i + 1);
            assert(find_char(line, '|', start) == Some(i));
        } else {
            lemma_segments_from(line, start, i, false);
            lemma_later_segments(line, start, i + 1, line[i] == '\\');
            assert(segments == segments_from(line, start, i + 1, line[i] == '\\'));
            assert(is_plain_segment(line, segments[0]));
            assert(segments[0].0 == start && segments[0].1 >= i + 1);
            assert(line[i] != '\\');
            lemma_segments_are_pieces(line, start, i + 1);
        }
    } else {
        assert(segments =~= split_from(line, '|', start));
    }
}

/// Where the body of a delimiter row lies in its line: behind white space and pipes, and before
/// pipes and white space.
pub(crate) proof fn lemma_body_bounds(line: Seq<char>) -> (bounds: (int, int, int, int))
    requires
        trim(line).len() > 0,
    ensures
        ({
            let (x, p, q, y) = bounds;
            &&& 0 <= x <= p <= q <= y <= line.len()
            &&& delimiter_body(line) == line.subrange(p, q)
            &&& forall|k: int| 0 <= k < x ==> white_space(#[trigger] line[k])
            &&& forall|k: int| y <= k < line.len() ==> white_space(#[trigger] line[k])
            &&& forall|k: int| x <= k < p ==> #[trigger] line[k] == '|'
            &&& forall|k: int| q <= k < y ==> #[trigger] line[k] == '|'
            &&& x < y
            &&& !white_space(line[x])
            &&& !white_space(line[y - 1])
            &&& p < q ==> line[p] != '|' && line[q - 1] != '|'
            &&& p == q ==> p == y
        }),
{
    let pipe = CharClass::Only('|');
    let (x, y) = lemma_trim_bounds(line);
    let t = trim(line);
    lemma_run_end(t, pipe, 0);
    let p = x + run_end(t, pipe, 0);
    let u = trim_start_by(t, pipe);
    lemma_run_start(u, pipe, u.len() as int);
    let q = p + run_start(u, pipe, u.len() as int);
    assert(delimiter_body(line) =~= line.subrange(p, q));
    assert forall|k: int| x <= k < p implies #[trigger] line[k] == '|' by {
        assert(t[k - x] == line[k]);
        assert(pipe.holds(t[k - x]));
    }
    assert forall|k: int| q <= k < y implies #[trigger] line[k] == '|' by {
        assert(u[k - p] == line[k]);
        assert(pipe.holds(u[k - p]));
    }
    if p < y {
        assert(t[p - x] == line[p]);
        assert(!pipe.holds(t[p - x]));
        assert(u[0] == line[p]);
        if q == p {
            assert(pipe.holds(u[0]));
        }
        assert(u[q - p - 1] == line[q - 1]);
    }
    (x, p, q, y)
}

/// Whether a segment of a line is blank, or a delimiter cell.
spec fn is_delimiter_segment(line: Seq<char>, segment: (int, int)) -> bool {
    is_blank(line, segment) || is_delimiter_cell(piece(line, segment))
}

/// What the segments of a line are whose every cell is made of dashes: the pieces between its
/// pipes, each of them a delimiter cell, but for a blank one at either end.
proof fn lemma_segments_of_delimiter(line: Seq<char>)
    requires
        forall|k: int|
            0 <= k < row_cells(line).len() ==> is_delimiter_cell(
                piece(line, #[trigger] row_cells(line)[k]),
            ),
    ensures
        ({
            let pieces = split(line, '|');
            &&& forall|j: int|
                0 <= j < pieces.len() ==> is_delimiter_segment(line, #[trigger] pieces[j])
            &&& forall|j: int|
                0 <= j < pieces.len() && is_blank(line, #[trigger] pieces[j]) ==> pieces.len() > 1
                    && (j == 0 || j == pieces.len() - 1)
            &&& exists|z: int|
                0 <= z < line.len() && !white_space(#[trigger] line[z]) && line[z] != '|'
        }),
{
    let segments = segments_from(line, 0, 0, false);
    let opened = without_blank_start(line, segments);
    let cells = row_cells(line);
    lemma_row_cells(line);
    lemma_segments_from(line, 0, 0, false);
    let skipped = segments.len() - opened.len();
    assert(cells.len() >= opened.len() - 1);
    assert forall|j: int| 0 <= j < segments.len() implies is_delimiter_segment(
        line,
        #[trigger] segments[j],
    ) && (is_blank(line, segments[j]) ==> segments.len() > 1 && (j == 0 || j == segments.len()
        - 1)) by {
        if skipped <= j < skipped + cells.len() {
            assert(cells[j - skipped] == opened[j - skipped]);
            assert(cells[j - skipped] == segments[j]);
            lemma_delimiter_cell(piece(line, segments[j]));
        } else if j >= skipped + cells.len() {
            assert(opened.last() == segments[j]);
        }
    }
    assert forall|j: int| 0 <= j < segments.len() implies is_plain_segment(
        line,
        #[trigger] segments[j],
    ) by {
        assert(is_delimiter_segment(line, segments[j]));
        let part = piece(line, segments[j]);
        let bounds = lemma_trim_bounds(part);
        if !is_blank(line, segments[j]) {
            lemma_delimiter_cell(part);
        }
        assert forall|m: int| segments[j].0 <= m < segments[j].1 implies #[trigger] line[m]
            != '\\' by {
            assert(part[m - segments[j].0] == line[m]);
        }
    }
    lemma_segments_are_pieces(line, 0, 0);
    let first = piece(line, cells[0]);
    assert(cells[0] == opened[0]);
    lemma_delimiter_cell(first);
    let (i, _) = lemma_trim_bounds(first);
    assert(line[cells[0].0 + i] == first[i]);
}

/// What stands between two pipes of the body of a line is a piece of the line, without white space
/// at either end of the line.
proof fn lemma_piece_of_body(line: Seq<char>, bounds: (int, int, int, int), k: int) -> (j: int)
    requires
        ({
            let (x, p, q, y) = bounds;
            &&& 0 <= x <= p < q <= y <= line.len()
            &&& forall|k: int| 0 <= k < x ==> white_space(#[trigger] line[k])
            &&& forall|k: int| y <= k < line.len() ==> white_space(#[trigger] line[k])
            &&& forall|k: int| x <= k < p ==> #[trigger] line[k] == '|'
            &&& forall|k: int| q <= k < y ==> #[trigger] line[k] == '|'
            &&& 0 <= k < split(line.subrange(p, q), '|').len()
        }),
    ensures
        ({
            let (x, p, q, y) = bounds;
            let body = line.subrange(p, q);
            let (a, b) = split(body, '|')[k];
            let (c, d) = split(line, '|')[j];
            &&& 0 <= j < split(line, '|').len()
            &&& 0 <= a <= b <= q - p
            &&& c <= p + a <= p + b <= d
            &&& trim(piece(body, (a, b))) == trim(piece(line, (c, d)))
        }),
{
    let (x, p, q, y) = bounds;
    let body = line.subrange(p, q);
    let (a, b) = split(body, '|')[k];
    lemma_piece_ends(body, '|', k);
    let j = lemma_piece_around(line, '|', 0, p + a);
    lemma_piece_ends(line, '|', j);
    let (c, d) = split(line, '|')[j];
    assert(p + b <= d) by {
        if d < p + b {
            assert(body[d - p] == line[d]);
        }
    }
    let part = piece(line, (c, d));
    assert forall|m: int| 0 <= m < p + a - c implies white_space(#[trigger] part[m]) by {
        assert(part[m] == line[c + m]);
        if a > 0 {
            assert(body[a - 1] == line[p + a - 1]);
            assert(line[p + a - 1] != '|');
        } else if p > x {
            assert(line[p - 1] == '|');
            assert(c <= p - 1 < d);
        }
    }
    assert forall|m: int| p + b - c <= m < part.len() implies white_space(#[trigger] part[m]) by {
        assert(part[m] == line[c + m]);
        if b < body.len() {
            assert(body[b] == line[p + b]);
            assert(line[p + b] != '|');
        } else if q < y {
            assert(line[q] == '|');
            assert(c <= q < d);
        }
    }
    lemma_trim_of_inner(part, p + a - c, p + b - c);
    assert(part.subrange(p + a - c, p + b - c) =~= piece(body, (a, b)));
    j
}

/// A line whose every cell is made of dashes delimits a header.
pub(crate) proof fn lemma_line_of_delimiter_cells(line: Seq<char>)
    requires
        forall|k: int|
            0 <= k < row_cells(line).len() ==> is_delimiter_cell(
                piece(line, #[trigger] row_cells(line)[k]),
            ),
    ensures
        delimiter_line(line),
{
    let pieces = split(line, '|');
    lemma_segments_of_delimiter(line);
    let z = choose|z: int|
        0 <= z < line.len() && !white_space(#[trigger] line[z]) && line[z] != '|';
    let whole = lemma_trim_bounds(line);
    assert(trim(line).len() > 0);
    let bounds = lemma_body_bounds(line);
    let (x, p, q, y) = bounds;
    assert(x <= z < y);
    assert(p < q) by {
        if p == q {
            assert(line[z] == '|');
        }
    }
    let body = line.subrange(p, q);
    assert forall|k: int| 0 <= k < split(body, '|').len() implies is_delimiter_cell(
        piece(body, #[trigger] split(body, '|')[k]),
    ) by {
        let j = lemma_piece_of_body(line, bounds, k);
        let (a, b) = split(body, '|')[k];
        let (c, d) = pieces[j];
        lemma_piece_ends(line, '|', j);
        assert(is_delimiter_segment(line, pieces[j]));
        if is_blank(line, pieces[j]) {
            let part = piece(line, (c, d));
            let inner = lemma_trim_bounds(part);
            assert forall|m: int| c <= m < d implies white_space(#[trigger] line[m]) by {
                assert(part[m - c] == line[m]);
            }
            lemma_split_from(line, '|', 0);
            if j == 0 {
                assert(d < line.len()) by {
                    assert(pieces[0].1 < pieces[1].0);
                    assert(pieces[1].0 <= pieces[1].1 <= line.len());
                }
                assert(line[d] == '|');
                assert(x == d);
                assert(line[p] != '|');
                assert(false);
            } else {
                assert(d == line.len());
                assert(pieces[0].1 < pieces[j].0);
                assert(line[c - 1] == '|');
                assert(y <= c);
                assert(line[q - 1] != '|');
                assert(false);
            }
        }
    }
}

} // verus!
