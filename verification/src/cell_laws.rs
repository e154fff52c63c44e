//! A cell that was edited reads back as it was edited, and no other cell changes.

use crate::frontmatter_laws::{replaced, shifted};
use crate::table::{
    is_blank, lemma_row_cells, lemma_segments_from, row_cells, segments_from, without_blank_start,
};
use crate::table_edit::{committed, ends_in_escape, escaped};
use crate::table_round_trip::{
    escape_after, lemma_pipe_free_push, lemma_pipe_free_trim, lemma_read_cells_are_plain,
    lemma_segments_skip, pipe_free, plain_cell,
};
use crate::text::{lemma_trim_is_tight, lemma_trim_of_padded, piece, trim};
use vstd::prelude::*;

verus! {

/// Every segment but the first starts behind the place that is looked at.
pub(crate) proof fn lemma_later_segments(line: Seq<char>, start: int, i: int, esc: bool)
    requires
        0 <= start <= i <= line.len(),
    ensures
        segments_from(line, start, i, esc)[0].0 == start,
        segments_from(line, start, i, esc)[0].1 >= i,
        forall|k: int|
            1 <= k < segments_from(line, start, i, esc).len() ==> (#[trigger] segments_from(
                line,
                start,
                i,
                esc,
            )[k]).0 > i,
    decreases line.len() - i,
{
    let all = segments_from(line, start, i, esc);
    if i < line.len() {
        if !esc && line[i] == '|' {
            let rest = segments_from(line, i + 1, i + 1, false);
            assert(all =~= seq![(start, i)] + rest);
            lemma_segments_from(line, i + 1, i + 1, false);
            assert forall|k: int| 1 <= k < all.len() implies (#[trigger] all[k]).0 > i by {
                assert(all[k] == rest[k - 1]);
            }
        } else {
            lemma_later_segments(line, start, i + 1, !esc && line[i] == '\\');
        }
    }
}

proof fn lemma_segments_shift(
    line: Seq<char>,
    other: Seq<char>,
    start: int,
    i: int,
    esc: bool,
    by: int,
)
    requires
        0 <= start <= i <= line.len(),
        0 <= start + by,
        other.len() == line.len() + by,
        forall|k: int| i <= k < line.len() ==> #[trigger] line[k] == other[k + by],
    ensures
        segments_from(other, start + by, i + by, esc) == shifted(
            segments_from(line, start, i, esc),
            by,
        ),
    decreases line.len() - i,
{
    if i < line.len() {
        assert(line[i] == other[i + by]);
        if !esc && line[i] == '|' {
            lemma_segments_shift(line, other, i + 1, i + 1, false, by);
        } else {
            lemma_segments_shift(line, other, start, i + 1, !esc && line[i] == '\\', by);
        }
    }
    assert(segments_from(other, start + by, i + by, esc) =~= shifted(
        segments_from(line, start, i, esc),
        by,
    ));
}

/// The segments with the one at `q` ending at `end`, and those behind it moved by `by`.
pub open spec fn with_segment(segments: Seq<(int, int)>, q: int, end: int, by: int) -> Seq<
    (int, int),
> {
    Seq::new(
        segments.len(),
        |k: int|
            if k < q {
                segments[k]
            } else if k == q {
                (segments[k].0, end)
            } else {
                (segments[k].0 + by, segments[k].1 + by)
            },
    )
}

/// What the first segment of a line holds has no unescaped pipe, and one ends it unless the line
/// does.
proof fn lemma_first_segment_end(line: Seq<char>, start: int, i: int, esc: bool)
    requires
        0 <= start <= i <= line.len(),
    ensures
        ({
            let end = segments_from(line, start, i, esc)[0].1;
            &&& i <= end <= line.len()
            &&& end < line.len() ==> line[end] == '|' && segments_from(line, start, i, esc)
                == seq![(start, end)] + segments_from(line, end + 1, end + 1, false)
            &&& end == line.len() ==> segments_from(line, start, i, esc) == seq![(start, end)]
        }),
    decreases line.len() - i,
{
    if i < line.len() {
        if !esc && line[i] == '|' {
        } else {
            lemma_first_segment_end(line, start, i + 1, !esc && line[i] == '\\');
        }
    }
}

/// Replacing one segment by a text with no unescaped pipe replaces that segment and moves the ones
/// behind it.
proof fn lemma_segments_of_replaced(
    line: Seq<char>,
    a: int,
    b: int,
    new: Seq<char>,
    start: int,
    i: int,
    esc: bool,
    q: int,
)
    requires
        0 <= start <= i <= line.len(),
        0 <= q < segments_from(line, start, i, esc).len(),
        segments_from(line, start, i, esc)[q] == (a, b),
        q == 0 ==> i == start && !esc,
        pipe_free(new, 0, false),
        !escape_after(new, 0, false),
        0 <= a <= b <= line.len(),
    ensures
        segments_from(replaced(line, a, b, new), start, i, esc) == with_segment(
            segments_from(line, start, i, esc),
            q,
            a + new.len(),
            new.len() - (b - a),
        ),
    decreases line.len() - i,
{
    let other = replaced(line, a, b, new);
    let by = new.len() - (b - a);
    let all = segments_from(line, start, i, esc);
    lemma_later_segments(line, start, i, esc);
    if q == 0 {
        lemma_first_segment_end(line, start, i, esc);
        assert(a == start);
        assert forall|k: int| 0 <= k < new.len() implies other[a + k] == #[trigger] new[k] by {
        }
        lemma_segments_skip(other, a, a, new, 0, false);
        if b < line.len() {
            assert(other[a + new.len()] == line[b]);
            assert forall|k: int| b + 1 <= k < line.len() implies #[trigger] line[k] == other[k
                + by] by {
            }
            lemma_segments_shift(line, other, b + 1, b + 1, false, by);
            let rest = segments_from(line, b + 1, b + 1, false);
            assert(all == seq![(start, b)] + rest);
            assert(segments_from(other, a, a, false) =~= seq![(a, a + new.len())] + shifted(
                rest,
                by,
            ));
        } else {
            assert(segments_from(other, a, a, false) =~= seq![(a, a + new.len())]);
        }
        assert(segments_from(other, start, i, esc) =~= with_segment(all, q, a + new.len(), by));
    } else {
        assert(i < a);
        assert(other[i] == line[i]);
        if !esc && line[i] == '|' {
            let rest = segments_from(line, i + 1, i + 1, false);
            assert(all =~= seq![(start, i)] + rest);
            assert(all[q] == rest[q - 1]);
            lemma_segments_of_replaced(line, a, b, new, i + 1, i + 1, false, q - 1);
            assert(segments_from(other, start, i, esc) =~= with_segment(all, q, a + new.len(), by));
        } else {
            lemma_segments_of_replaced(
                line,
                a,
                b,
                new,
                start,
                i + 1,
                !esc && line[i] == '\\',
                q,
            );
        }
    }
}

/// Escaping leaves no unescaped pipe.
proof fn lemma_escaped_is_pipe_free(edited: Seq<char>)
    ensures
        pipe_free(escaped(edited), 0, false),
        escape_after(escaped(edited), 0, false) == ends_in_escape(edited),
    decreases edited.len(),
{
    if edited.len() > 0 {
        let front = edited.drop_last();
        lemma_escaped_is_pipe_free(front);
        let c = edited.last();
        let before = escaped(front);
        if c == '|' && !ends_in_escape(front) {
            lemma_pipe_free_push(before, '\\', 0, false);
            lemma_pipe_free_push(before.push('\\'), '|', 0, false);
            assert(escaped(edited) =~= before.push('\\').push('|'));
        } else if c == '\n' {
            lemma_pipe_free_push(before, ' ', 0, false);
            assert(escaped(edited) =~= before.push(' '));
        } else {
            lemma_pipe_free_push(before, c, 0, false);
            assert(escaped(edited) =~= before.push(c));
        }
    }
}

/// A text with no unescaped pipe has none without its last character, which is no pipe unless what
/// stands in front of it escapes it.
proof fn lemma_pipe_free_front(s: Seq<char>, i: int, esc: bool)
    requires
        0 <= i < s.len(),
        pipe_free(s, i, esc),
    ensures
        pipe_free(s.drop_last(), i, esc),
        s.last() == '|' ==> escape_after(s.drop_last(), i, esc),
    decreases s.len() - i,
{
    if i < s.len() - 1 {
        assert(s.drop_last()[i] == s[i]);
        lemma_pipe_free_front(s, i + 1, !esc && s[i] == '\\');
    }
}

/// Escaping leaves a text on one line with no unescaped pipe as it is.
proof fn lemma_nothing_to_escape(text: Seq<char>)
    requires
        pipe_free(text, 0, false),
        forall|i: int| 0 <= i < text.len() ==> #[trigger] text[i] != '\n',
    ensures
        escaped(text) == text,
    decreases text.len(),
{
    if text.len() > 0 {
        let front = text.drop_last();
        lemma_pipe_free_front(text, 0, false);
        lemma_nothing_to_escape(front);
        lemma_escaped_is_pipe_free(front);
        assert(text[text.len() - 1] != '\n');
        assert(escaped(text) =~= front.push(text.last()));
    }
    assert(escaped(text) =~= text);
}

/// Committing to a cell the text that it holds changes nothing, whatever that text escapes.
pub proof fn law_an_unchanged_cell_is_left_alone(line: Seq<char>, k: int)
    requires
        forall|i: int| 0 <= i < line.len() ==> #[trigger] line[i] != '\n',
        0 <= k < row_cells(line).len(),
    ensures
        committed(piece(line, row_cells(line)[k]), trim(piece(line, row_cells(line)[k]))) is None,
{
    let held = trim(piece(line, row_cells(line)[k]));
    lemma_read_cells_are_plain(line);
    assert(plain_cell(held));
    lemma_nothing_to_escape(held);
}

proof fn lemma_pipe_free_padded(text: Seq<char>)
    requires
        pipe_free(text, 0, false),
    ensures
        pipe_free(seq![' '] + text + seq![' '], 0, false),
        !escape_after(seq![' '] + text + seq![' '], 0, false),
{
    let front = seq![' '] + text;
    lemma_pipe_free_behind_space(text, 0, false);
    assert(front.skip(1) =~= text);
    lemma_pipe_free_push(front, ' ', 0, false);
    assert(front.push(' ') =~= seq![' '] + text + seq![' ']);
}

proof fn lemma_pipe_free_behind_space(text: Seq<char>, i: int, esc: bool)
    requires
        0 <= i <= text.len(),
    ensures
        pipe_free(seq![' '] + text, i + 1, esc) == pipe_free(text, i, esc),
        i == 0 && !esc ==> pipe_free(seq![' '] + text, 0, false) == pipe_free(text, 0, false),
    decreases text.len() - i,
{
    let longer = seq![' '] + text;
    if i < text.len() {
        assert(longer[i + 1] == text[i]);
        lemma_pipe_free_behind_space(text, i + 1, !esc && text[i] == '\\');
    }
    assert(longer[0] == ' ');
}

/// Where the `k`th cell of a row stands among its segments.
spec fn segment_of_cell(line: Seq<char>, k: int) -> int {
    let all = segments_from(line, 0, 0, false);
    if without_blank_start(line, all).len() < all.len() {
        k + 1
    } else {
        k
    }
}

/// The last segment ends where the line does.
proof fn lemma_last_segment(line: Seq<char>, start: int, i: int, esc: bool)
    requires
        0 <= start <= i <= line.len(),
    ensures
        segments_from(line, start, i, esc).len() > 0,
        segments_from(line, start, i, esc).last().1 == line.len(),
    decreases line.len() - i,
{
    if i < line.len() {
        if !esc && line[i] == '|' {
            lemma_last_segment(line, i + 1, i + 1, false);
            let rest = segments_from(line, i + 1, i + 1, false);
            assert((seq![(start, i)] + rest).last() == rest.last());
        } else {
            lemma_last_segment(line, start, i + 1, !esc && line[i] == '\\');
        }
    }
}

/// Whether a cell reads as a cell when it is blank too: it is the row's only one, or has a pipe on
/// each side.
pub open spec fn may_be_blank(line: Seq<char>, cell: (int, int)) -> bool {
    &&& cell.0 > 0 || cell.1 == line.len()
    &&& cell.1 < line.len() || row_cells(line).len() == 1
}

/// Committing an edited text to a cell leaves the row with as many cells, the edited one with the
/// text that was written, and every other one with what it held. Only a cell that may be blank is
/// emptied.
pub proof fn law_a_committed_cell_reads_back(line: Seq<char>, k: int, edited: Seq<char>, m: int)
    requires
        0 <= k < row_cells(line).len(),
        0 <= m < row_cells(line).len(),
        trim(escaped(edited)).len() > 0 || may_be_blank(line, row_cells(line)[k]),
    ensures
        ({
            let cell = row_cells(line)[k];
            let written = seq![' '] + trim(escaped(edited)) + seq![' '];
            let new = replaced(line, cell.0, cell.1, written);
            &&& row_cells(new).len() == row_cells(line).len()
            &&& trim(piece(new, row_cells(new)[m])) == if m == k {
                trim(escaped(edited))
            } else {
                trim(piece(line, row_cells(line)[m]))
            }
        }),
{
    let cells = row_cells(line);
    let text = trim(escaped(edited));
    let written = seq![' '] + text + seq![' '];
    lemma_escaped_is_pipe_free(edited);
    lemma_pipe_free_trim(escaped(edited));
    lemma_pipe_free_padded(text);
    lemma_trim_is_tight(escaped(edited));
    lemma_trim_of_padded(text);
    lemma_row_cells(line);
    lemma_segments_from(line, 0, 0, false);
    let all = segments_from(line, 0, 0, false);
    let opened = without_blank_start(line, all);
    let q = segment_of_cell(line, k);
    assert(all[q] == cells[k]) by {
        assert(cells[k] == opened[k]);
    }
    let (a, b) = cells[k];
    let new = replaced(line, a, b, written);
    let by = written.len() - (b - a);
    lemma_segments_of_replaced(line, a, b, written, 0, 0, false, q);
    let news = segments_from(new, 0, 0, false);
    assert(news == with_segment(all, q, a + written.len(), by));
    lemma_segments_apart(line, 0, 0, false);
    assert forall|j: int| 0 <= j < all.len() implies trim(piece(new, #[trigger] news[j])) == if j
        == q {
        text
    } else {
        trim(piece(line, all[j]))
    } by {
        assert(0 <= all[j].0 <= all[j].1 <= line.len());
        if j < q {
            assert(all[j].1 < all[q].0);
            assert(piece(new, news[j]) =~= piece(line, all[j]));
        } else if j == q {
            assert(piece(new, news[j]) =~= written);
        } else {
            assert(all[q].1 < all[j].0);
            assert(piece(new, news[j]) =~= piece(line, all[j]));
        }
    }
    let new_opened = without_blank_start(new, news);
    lemma_later_segments(line, 0, 0, false);
    lemma_last_segment(line, 0, 0, false);
    assert(is_blank(new, news[0]) == (if q == 0 {
        text.len() == 0
    } else {
        is_blank(line, all[0])
    }));
    assert(q == 0 ==> opened.len() == all.len());
    assert(all.len() > 1 && is_blank(line, all[0]) && q == 0 ==> false);
    assert(new_opened.len() == opened.len()) by {
        if q == 0 && all.len() > 1 {
            assert(!is_blank(line, all[0]));
            assert(all[0].1 < all[1].0);
            assert(text.len() > 0);
        }
    }
    let drop = all.len() - opened.len();
    assert forall|j: int| 0 <= j < opened.len() implies #[trigger] new_opened[j] == news[j + drop]
        && opened[j] == all[j + drop] by {
    }
    let last = opened.len() - 1;
    assert(new_opened.last() == news[last + drop] && opened.last() == all[last + drop]);
    if opened.len() > 1 {
        if is_blank(line, opened.last()) {
            assert(cells.len() == opened.len() - 1);
            assert(q != last + drop);
        } else if q == last + drop {
            assert(all[q] == all.last());
            assert(cells.len() == opened.len());
            assert(text.len() > 0);
        }
    }
    assert(row_cells(new).len() == cells.len());
    assert(row_cells(new)[m] == news[m + drop]);
    assert(cells[m] == all[m + drop]);
    assert(q == k + drop);
}

/// Segments stand one behind the other with a pipe between them.
proof fn lemma_segments_apart(line: Seq<char>, start: int, i: int, esc: bool)
    requires
        0 <= start <= i <= line.len(),
    ensures
        forall|j: int, k: int|
            0 <= j < k < segments_from(line, start, i, esc).len() ==> (#[trigger] segments_from(
                line,
                start,
                i,
                esc,
            )[j]).1 < (#[trigger] segments_from(line, start, i, esc)[k]).0,
    decreases line.len() - i,
{
    let all = segments_from(line, start, i, esc);
    if i < line.len() {
        if !esc && line[i] == '|' {
            let rest = segments_from(line, i + 1, i + 1, false);
            assert(all =~= seq![(start, i)] + rest);
            lemma_segments_from(line, i + 1, i + 1, false);
            lemma_segments_apart(line, i + 1, i + 1, false);
            assert forall|j: int, k: int| 0 <= j < k < all.len() implies (#[trigger] all[j]).1 < (
            #[trigger] all[k]).0 by {
                assert(all[k] == rest[k - 1]);
                if j > 0 {
                    assert(all[j] == rest[j - 1]);
                }
            }
        } else {
            lemma_segments_apart(line, start, i + 1, !esc && line[i] == '\\');
            assert(all == segments_from(line, start, i + 1, !esc && line[i] == '\\'));
        }
    } else {
        assert(all.len() == 1);
    }
}

} // verus!
