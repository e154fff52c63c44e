//! A property's value that was rewritten reads back as it was written.

use crate::frontmatter::{
    block_items, continues_value, inline_value, is_passed_over, is_toml, properties_from, property_named, property_on,
    property_separator, row_behind, scalar_span, separator_of, unquoted, value_end, Property,
    PropertyValue,
};
use crate::text::{
    byte_length, byte_offset, byte_span, find_char, has_char, index_at, lemma_byte_offset_grows,
    lemma_byte_offset_part, lemma_byte_offset_prefix, lemma_find_char, lemma_index_at,
    lemma_run_start, lemma_split_from, lemma_trim_is_tight, lemma_trim_of_tight, lines, piece,
    run_end, run_start, slice_at, split_from, trim, trim_start_by, white_space, CharClass,
};
use vstd::prelude::*;

verus! {

/// The text with the characters from `i` up to `j` replaced.
pub open spec fn replaced(s: Seq<char>, i: int, j: int, new: Seq<char>) -> Seq<char> {
    s.take(i) + new + s.skip(j)
}

/// The ranges moved by `by`.
pub open spec fn shifted(ranges: Seq<(int, int)>, by: int) -> Seq<(int, int)> {
    Seq::new(ranges.len(), |k: int| (ranges[k].0 + by, ranges[k].1 + by))
}

// ---------------------------------------------------------------------------------------------
// Lines of a replaced text
// ---------------------------------------------------------------------------------------------

proof fn lemma_find_char_shift(s: Seq<char>, t: Seq<char>, c: char, from: int, by: int)
    requires
        0 <= from,
        0 <= from + by,
        t.len() == s.len() + by,
        forall|k: int| from <= k < s.len() ==> #[trigger] s[k] == t[k + by],
    ensures
        find_char(t, c, from + by) == match find_char(s, c, from) {
            Some(at) => Some(at + by),
            None => None,
        },
    decreases s.len() - from,
{
    if from < s.len() {
        assert(s[from] == t[from + by]);
        if s[from] != c {
            lemma_find_char_shift(s, t, c, from + 1, by);
        }
    }
}

proof fn lemma_split_shift(s: Seq<char>, t: Seq<char>, c: char, start: int, by: int)
    requires
        0 <= start <= s.len(),
        0 <= start + by,
        t.len() == s.len() + by,
        forall|k: int| start <= k < s.len() ==> #[trigger] s[k] == t[k + by],
    ensures
        split_from(t, c, start + by) == shifted(split_from(s, c, start), by),
    decreases s.len() - start,
{
    lemma_find_char(s, c, start);
    lemma_find_char_shift(s, t, c, start, by);
    match find_char(s, c, start) {
        Some(at) => {
            lemma_split_shift(s, t, c, at + 1, by);
            assert(split_from(t, c, start + by) =~= shifted(split_from(s, c, start), by));
        },
        None => {
            assert(split_from(t, c, start + by) =~= shifted(split_from(s, c, start), by));
        },
    }
}

/// What the lines of a text become when the end of the line at `row` is replaced from index `i`
/// on.
pub open spec fn replaced_lines(rows: Seq<(int, int)>, row: int, end: int, by: int) -> Seq<
    (int, int),
> {
    Seq::new(
        rows.len(),
        |k: int|
            if k < row {
                rows[k]
            } else if k == row {
                (rows[k].0, end)
            } else {
                (rows[k].0 + by, rows[k].1 + by)
            },
    )
}

proof fn lemma_find_in_replaced(s: Seq<char>, i: int, j: int, new: Seq<char>, from: int)
    requires
        0 <= from <= i <= j <= s.len(),
        forall|k: int| from <= k < j ==> #[trigger] s[k] != '\n',
        forall|k: int| 0 <= k < new.len() ==> #[trigger] new[k] != '\n',
        j == s.len() || s[j] == '\n',
    ensures
        find_char(replaced(s, i, j, new), '\n', from) == if j < s.len() {
            Some(i + new.len())
        } else {
            None
        },
{
    let t = replaced(s, i, j, new);
    lemma_find_char(t, '\n', from);
    match find_char(t, '\n', from) {
        Some(at) => {
            if at < i {
                assert(t[at] == s[at]);
            } else if at < i + new.len() {
                assert(t[at] == new[at - i]);
            } else if j < s.len() && at > i + new.len() {
                assert(t[i + new.len()] == s[j]);
            }
        },
        None => {
            if j < s.len() {
                assert(t[i + new.len()] == s[j]);
            }
        },
    }
}

proof fn lemma_split_of_replaced(
    s: Seq<char>,
    i: int,
    j: int,
    new: Seq<char>,
    start: int,
    row: int,
)
    requires
        0 <= start <= i <= j <= s.len(),
        forall|k: int| 0 <= k < new.len() ==> #[trigger] new[k] != '\n',
        0 <= row < split_from(s, '\n', start).len(),
        split_from(s, '\n', start)[row].0 <= i,
        split_from(s, '\n', start)[row].1 == j,
    ensures
        split_from(replaced(s, i, j, new), '\n', start) == replaced_lines(
            split_from(s, '\n', start),
            row,
            i + new.len(),
            new.len() - (j - i),
        ),
    decreases s.len() - start,
{
    let t = replaced(s, i, j, new);
    let by = new.len() - (j - i);
    let rows = split_from(s, '\n', start);
    lemma_find_char(s, '\n', start);
    lemma_split_from(s, '\n', start);
    match find_char(s, '\n', start) {
        Some(at) => {
            let rest = split_from(s, '\n', at + 1);
            assert(rows =~= seq![(start, at)] + rest);
            if row == 0 {
                assert(at == j);
                lemma_find_in_replaced(s, i, j, new, start);
                assert forall|k: int| at + 1 <= k < s.len() implies #[trigger] s[k] == t[k + by] by {
                }
                lemma_split_shift(s, t, '\n', at + 1, by);
                assert(split_from(t, '\n', start) =~= seq![(start, i + new.len())] + shifted(
                    rest,
                    by,
                ));
            } else {
                lemma_split_from(s, '\n', at + 1);
                assert(rows[row] == rest[row - 1]);
                assert(rest[row - 1].0 >= at + 1);
                assert(find_char(t, '\n', start) == Some(at)) by {
                    lemma_find_char(t, '\n', start);
                    assert(t[at] == s[at]);
                    match find_char(t, '\n', start) {
                        Some(found) => {
                            if found < at {
                                assert(t[found] == s[found]);
                            }
                        },
                        None => {},
                    }
                }
                lemma_split_of_replaced(s, i, j, new, at + 1, row - 1);
                assert(split_from(t, '\n', start) =~= seq![(start, at)] + replaced_lines(
                    rest,
                    row - 1,
                    i + new.len(),
                    by,
                ));
            }
            assert(split_from(t, '\n', start) =~= replaced_lines(rows, row, i + new.len(), by));
        },
        None => {
            assert(rows =~= seq![(start, s.len() as int)]);
            lemma_find_in_replaced(s, i, j, new, start);
            assert(t.len() == i + new.len());
            assert(split_from(t, '\n', start) =~= replaced_lines(rows, row, i + new.len(), by));
        },
    }
}

// ---------------------------------------------------------------------------------------------
// Finding a property
// ---------------------------------------------------------------------------------------------

/// The row and the separator of the first property with a key, from a row on.
pub open spec fn named_at(s: Seq<char>, key: Seq<char>, row: int) -> Option<(int, int)>
    decreases lines(s).len() - row,
{
    if row < 0 || row >= lines(s).len() {
        None
    } else {
        let line = piece(s, lines(s)[row]);
        match property_separator(line, is_toml(s)) {
            Some(at) => if row < row_behind(s, row, at) <= lines(s).len() {
                if trim(line.take(at)) == key {
                    Some((row, at))
                } else {
                    named_at(s, key, row_behind(s, row, at))
                }
            } else {
                None
            },
            None => named_at(s, key, row + 1),
        }
    }
}

proof fn lemma_property_named_behind(first: Property, rest: Seq<Property>, key: Seq<char>, k: int)
    requires
        0 <= k <= rest.len(),
    ensures
        property_named(seq![first] + rest, key, k + 1) == property_named(rest, key, k),
    decreases rest.len() - k,
{
    let all = seq![first] + rest;
    if k < rest.len() {
        assert(all[k + 1] == rest[k]);
        if rest[k].key != key {
            lemma_property_named_behind(first, rest, key, k + 1);
        }
    }
}

pub(crate) proof fn lemma_named_at(s: Seq<char>, key: Seq<char>, row: int)
    requires
        0 <= row,
    ensures
        property_named(properties_from(s, row), key, 0) == match named_at(s, key, row) {
            Some((found, at)) => Some(property_on(s, found, at)),
            None => None,
        },
        named_at(s, key, row) matches Some((found, at)) ==> row <= found < lines(s).len()
            && property_separator(piece(s, lines(s)[found]), is_toml(s)) == Some(at) && trim(
            piece(s, lines(s)[found]).take(at),
        ) == key,
    decreases lines(s).len() - row,
{
    if row < lines(s).len() {
        let line = piece(s, lines(s)[row]);
        match property_separator(line, is_toml(s)) {
            Some(at) => {
                if row < row_behind(s, row, at) <= lines(s).len() {
                    let first = property_on(s, row, at);
                    let rest = properties_from(s, row_behind(s, row, at));
                    lemma_named_at(s, key, row_behind(s, row, at));
                    lemma_property_named_behind(first, rest, key, 0);
                    assert((seq![first] + rest)[0] == first);
                }
            },
            None => {
                lemma_named_at(s, key, row + 1);
            },
        }
    }
}

// ---------------------------------------------------------------------------------------------
// One line
// ---------------------------------------------------------------------------------------------

/// The separator of a property's line stands inside the line, behind a character that is not white
/// space.
proof fn lemma_separator(line: Seq<char>, toml: bool)
    requires
        property_separator(line, toml) is Some,
    ensures
        ({
            let at = property_separator(line, toml)->0;
            &&& 0 < at < line.len()
            &&& (line[at] == ':' || line[at] == '=')
            &&& !white_space(line[0])
            &&& line[0] != '#'
        }),
{
    let at = property_separator(line, toml)->0;
    lemma_find_char(line, ':', 0);
    lemma_find_char(line, '=', 0);
    let ws = CharClass::Whitespace;
    assert(trim_start_by(line, ws) =~= line);
    lemma_run_start(line, ws, line.len() as int);
    assert(trim(line)[0] == line[0]);
    if at == 0 {
        assert(line.take(0) =~= Seq::empty());
        assert(trim(line.take(0)) =~= Seq::empty());
    }
}

/// The trim of a line that starts with no white space reaches over every character that is none.
proof fn lemma_trim_reaches(line: Seq<char>, at: int)
    requires
        0 <= at < line.len(),
        !white_space(line[0]),
        !white_space(line[at]),
    ensures
        trim(line).len() > at,
        forall|k: int| 0 <= k <= at ==> #[trigger] trim(line)[k] == line[k],
{
    let ws = CharClass::Whitespace;
    assert(trim_start_by(line, ws) =~= line);
    lemma_run_start(line, ws, line.len() as int);
    if run_start(line, ws, line.len() as int) <= at {
        assert(ws.holds(line[at]));
    }
}

/// A value that a property's line can take: one line, tight, no list, and without a colon where the
/// line of a YAML source has an equals sign for its separator, since a colon anywhere in such a line
/// would be taken first.
pub open spec fn is_plain_value(value: Seq<char>, separator: char, toml: bool) -> bool {
    &&& value.len() > 0
    &&& trim(value) == value
    &&& forall|k: int| 0 <= k < value.len() ==> #[trigger] value[k] != '\n'
    &&& !(value.len() >= 2 && value[0] == '[' && value.last() == ']')
    &&& toml || separator == ':' || !has_char(value, ':')
}

/// A line with a separator that is neither white space nor a comment is not passed over.
proof fn lemma_no_delimiter(line: Seq<char>, at: int)
    requires
        0 < at < line.len(),
        line[at] == ':' || line[at] == '=',
        !white_space(line[0]),
        line[0] != '#',
    ensures
        !is_passed_over(line),
{
    lemma_trim_reaches(line, at);
    reveal_strlit("---");
    reveal_strlit("+++");
    assert(trim(line)[at] == line[at]);
    assert(trim(line) != "---"@) by {
        if trim(line) == "---"@ {
            assert("---"@[at] == '-');
        }
    }
    assert(trim(line) != "+++"@) by {
        if trim(line) == "+++"@ {
            assert("+++"@[at] == '+');
        }
    }
    assert(trim(line)[0] == line[0]);
}

/// A property's line with nothing behind its separator keeps its separator, its key, and its place
/// below the property above it.
proof fn lemma_line_without_value(line: Seq<char>, at: int, toml: bool)
    requires
        property_separator(line, toml) == Some(at),
    ensures
        ({
            let new = line.take(at + 1);
            &&& property_separator(new, toml) == Some(at)
            &&& new.take(at) == line.take(at)
            &&& trim(new.skip(at + 1)).len() == 0
            &&& continues_value(new) == continues_value(line)
        }),
{
    let new = line.take(at + 1);
    lemma_separator(line, toml);
    assert(new[0] == line[0]);
    assert(new[at] == line[at]);
    lemma_trim_reaches(line, at);
    lemma_trim_reaches(new, at);
    lemma_no_delimiter(new, at);
    lemma_find_char(line, ':', 0);
    lemma_find_char(line, '=', 0);
    lemma_find_char(new, ':', 0);
    lemma_find_char(new, '=', 0);
    assert(separator_of(new, toml) == Some(at)) by {
        match find_char(new, ':', 0) {
            Some(found) => {
                assert(new[found] == line[found]);
            },
            None => {},
        }
        match find_char(new, '=', 0) {
            Some(found) => {
                assert(new[found] == line[found]);
            },
            None => {},
        }
    }
    assert(new.take(at) =~= line.take(at));
    assert(new.skip(at + 1) =~= Seq::empty());
    assert(trim(new)[1] == new[1] && new[1] == line[1] && trim(line)[1] == line[1]);
}

/// A property's line with another value keeps its separator, its key, and its place below the
/// property above it.
proof fn lemma_line_with_value(line: Seq<char>, at: int, value: Seq<char>, toml: bool)
    requires
        property_separator(line, toml) == Some(at),
        is_plain_value(value, line[at], toml),
    ensures
        ({
            let new = line.take(at + 1) + (seq![' '] + value);
            &&& property_separator(new, toml) == Some(at)
            &&& new.take(at) == line.take(at)
            &&& trim(new.skip(at + 1)) == value
            &&& continues_value(new) == continues_value(line)
        }),
{
    let new = line.take(at + 1) + (seq![' '] + value);
    lemma_separator(line, toml);
    lemma_trim_is_tight(value);
    assert(new.last() == value.last());
    assert(new[0] == line[0]);
    assert(new[at] == line[at]);
    lemma_trim_reaches(line, at);
    lemma_trim_reaches(new, at);
    lemma_no_delimiter(new, at);
    lemma_find_char(line, ':', 0);
    lemma_find_char(line, '=', 0);
    lemma_find_char(new, ':', 0);
    lemma_find_char(new, '=', 0);
    lemma_find_char(value, ':', 0);
    assert(separator_of(new, toml) == Some(at)) by {
        if toml {
            match find_char(new, ':', 0) {
                Some(found) => {
                    if found < at {
                        assert(new[found] == line[found]);
                    }
                },
                None => {},
            }
            match find_char(new, '=', 0) {
                Some(found) => {
                    if found < at {
                        assert(new[found] == line[found]);
                    }
                },
                None => {},
            }
        } else if line[at] == ':' {
            match find_char(new, ':', 0) {
                Some(found) => {
                    if found < at {
                        assert(new[found] == line[found]);
                    }
                },
                None => {},
            }
        } else {
            match find_char(new, ':', 0) {
                Some(found) => {
                    if found <= at {
                        assert(new[found] == line[found]);
                    } else if found > at + 1 {
                        assert(new[found] == value[found - at - 2]);
                    }
                },
                None => {},
            }
            match find_char(new, '=', 0) {
                Some(found) => {
                    if found < at {
                        assert(new[found] == line[found]);
                    }
                },
                None => {},
            }
        }
    }
    assert(new.take(at) =~= line.take(at));
    assert(new.skip(at + 1) =~= seq![' '] + value);
    lemma_trim_of_tight(value);
    let ws = CharClass::Whitespace;
    let padded = seq![' '] + value;
    reveal_with_fuel(run_end, 2);
    assert(padded[1] == value[0]);
    assert(trim_start_by(padded, ws) =~= value);
    assert(trim(padded) == value);
    assert(trim(new)[1] == new[1] && new[1] == line[1] && trim(line)[1] == line[1]);
}

// ---------------------------------------------------------------------------------------------
// The whole source
// ---------------------------------------------------------------------------------------------

proof fn lemma_value_end_kept(s: Seq<char>, t: Seq<char>, row: int, last: int)
    requires
        0 <= row <= last < lines(s).len(),
        lines(t).len() == lines(s).len(),
        forall|k: int|
            row <= k < last ==> piece(t, #[trigger] lines(t)[k]) == piece(s, lines(s)[k]),
        continues_value(piece(t, lines(t)[last])) == continues_value(piece(s, lines(s)[last])),
        value_end(s, row) <= last,
    ensures
        value_end(t, row) == value_end(s, row),
    decreases last - row,
{
    if row < last {
        assert(piece(t, lines(t)[row]) == piece(s, lines(s)[row]));
        if continues_value(piece(s, lines(s)[row])) {
            lemma_value_end_kept(s, t, row + 1, last);
        }
    } else if continues_value(piece(s, lines(s)[row])) {
        lemma_value_end_bounds(s, row + 1);
    }
}

pub(crate) proof fn lemma_value_end_bounds(s: Seq<char>, row: int)
    requires
        0 <= row <= lines(s).len(),
    ensures
        row <= value_end(s, row) <= lines(s).len(),
    decreases lines(s).len() - row,
{
    if row < lines(s).len() && continues_value(piece(s, lines(s)[row])) {
        lemma_value_end_bounds(s, row + 1);
    }
}

/// The property is found on the same row in the text with another value on that row.
proof fn lemma_still_named(
    s: Seq<char>,
    t: Seq<char>,
    key: Seq<char>,
    row: int,
    found: int,
    at: int,
)
    requires
        0 <= row <= found < lines(s).len(),
        named_at(s, key, row) == Some((found, at)),
        lines(t).len() == lines(s).len(),
        forall|k: int|
            0 <= k < found ==> piece(t, #[trigger] lines(t)[k]) == piece(s, lines(s)[k]),
        is_toml(t) == is_toml(s),
        property_separator(piece(t, lines(t)[found]), is_toml(t)) == Some(at),
        piece(t, lines(t)[found]).take(at) == piece(s, lines(s)[found]).take(at),
        continues_value(piece(t, lines(t)[found])) == continues_value(piece(s, lines(s)[found])),
    ensures
        named_at(t, key, row) == Some((found, at)),
    decreases found - row,
{
    let line = piece(s, lines(s)[row]);
    lemma_named_at(s, key, row);
    if row == found {
        lemma_value_end_bounds(t, row + 1);
    } else {
        assert(piece(t, lines(t)[row]) == line);
        match property_separator(line, is_toml(s)) {
            Some(here) => {
                let behind = row_behind(s, row, here);
                if trim(line.skip(here + 1)).len() == 0 {
                    lemma_named_at(s, key, behind);
                    lemma_value_end_bounds(s, row + 1);
                    assert(behind <= found);
                    lemma_value_end_kept(s, t, row + 1, found);
                }
                assert(row_behind(t, row, here) == behind);
                lemma_named_at(s, key, behind);
                lemma_still_named(s, t, key, behind, found, at);
            },
            None => {
                lemma_still_named(s, t, key, row + 1, found, at);
            },
        }
    }
}

/// The lines of a text whose end of one line, from index `i` on, is replaced: that line is what is
/// left of it with what was put there, and the other lines are as they were.
proof fn lemma_replaced_line(s: Seq<char>, row: int, i: int, new: Seq<char>)
    requires
        0 <= row < lines(s).len(),
        lines(s)[row].0 <= i <= lines(s)[row].1,
        forall|k: int| 0 <= k < new.len() ==> #[trigger] new[k] != '\n',
    ensures
        ({
            let bounds = lines(s)[row];
            let t = replaced(s, i, bounds.1, new);
            &&& 0 <= bounds.0 && bounds.1 <= s.len()
            &&& lines(t).len() == lines(s).len()
            &&& lines(t)[row] == (bounds.0, i + new.len())
            &&& piece(t, lines(t)[row]) == piece(s, bounds).take(i - bounds.0) + new
            &&& forall|k: int|
                0 <= k < lines(s).len() && k != row ==> piece(t, #[trigger] lines(t)[k]) == piece(
                    s,
                    lines(s)[k],
                )
        }),
{
    let rows = lines(s);
    lemma_split_from(s, '\n', 0);
    let bounds = rows[row];
    let t = replaced(s, i, bounds.1, new);
    lemma_split_of_replaced(s, i, bounds.1, new, 0, row);
    let news = lines(t);
    assert(piece(t, news[row]) =~= piece(s, bounds).take(i - bounds.0) + new);
    let by = new.len() - (bounds.1 - i);
    assert forall|k: int| 0 <= k < rows.len() && k != row implies piece(t, #[trigger] news[k])
        == piece(s, rows[k]) by {
        assert(rows[k].0 <= rows[k].1);
        if k < row {
            assert(news[k] == rows[k]);
            assert(rows[k].1 < rows[row].0);
        } else {
            assert(news[k] == (rows[k].0 + by, rows[k].1 + by));
            assert(rows[row].1 < rows[k].0);
        }
        assert(piece(t, news[k]) =~= piece(s, rows[k]));
    }
}

/// What is put behind a character other than `+` does not change what the frontmatter opens with.
pub(crate) proof fn lemma_same_language(s: Seq<char>, i: int, j: int, new: Seq<char>)
    requires
        0 < i <= j <= s.len(),
        s[i - 1] != '+',
    ensures
        is_toml(replaced(s, i, j, new)) == is_toml(s),
{
    let t = replaced(s, i, j, new);
    reveal_strlit("+++");
    assert(t[i - 1] == s[i - 1]);
    if i < 3 {
        assert(s.len() >= 3 ==> s.take(3)[i - 1] == s[i - 1]);
        assert(t.len() >= 3 ==> t.take(3)[i - 1] == t[i - 1]);
    } else {
        assert(t.take(3) =~= s.take(3));
    }
}

/// Where a replacement stands in the text, in bytes.
pub(crate) proof fn lemma_replacement_bytes(s: Seq<char>, i: int, j: int, new: Seq<char>)
    requires
        0 <= i <= j <= s.len(),
    ensures
        ({
            let t = replaced(s, i, j, new);
            &&& byte_offset(t, i) == byte_offset(s, i)
            &&& byte_offset(t, i + new.len()) == byte_offset(s, i) + byte_length(new)
            &&& slice_at(t, byte_offset(s, i) as int, byte_offset(t, i + new.len()) as int) == Some(
                new,
            )
        }),
{
    let t = replaced(s, i, j, new);
    lemma_byte_offset_prefix(s, t, i);
    lemma_index_at(t, i);
    lemma_index_at(t, i + new.len());
    lemma_byte_offset_part(t, i, i + new.len(), new.len() as int);
    assert(t.subrange(i, i + new.len()) =~= new);
    lemma_byte_offset_grows(t, i, i + new.len());
}

/// A value that is written behind the separator of a property, in place of what stood there, is
/// what the property is read with next: its range is where the value was written, and its text is
/// the value with the space before it.
pub proof fn law_a_rewritten_value_reads_back(source: Seq<char>, key: Seq<char>, value: Seq<char>)
    requires
        scalar_span(source, key) is Some,
        ({
            let span = scalar_span(source, key)->0;
            is_plain_value(
                value,
                source[index_at(source, span.0) - 1],
                is_toml(source),
            )
        }),
    ensures
        ({
            let span = scalar_span(source, key)->0;
            let written = seq![' '] + value;
            let new = replaced(
                source,
                index_at(source, span.0),
                index_at(source, span.1),
                written,
            );
            &&& scalar_span(new, key) == Some((span.0, span.0 + byte_length(written)))
            &&& slice_at(new, span.0, span.0 + byte_length(written)) == Some(written)
            &&& property_named(properties_from(new, 0), key, 0) matches Some(property)
                && property.value == PropertyValue::Scalar(unquoted(value))
        }),
{
    let span = scalar_span(source, key)->0;
    let written = seq![' '] + value;
    lemma_named_at(source, key, 0);
    let (row, at) = named_at(source, key, 0)->0;
    lemma_split_from(source, '\n', 0);
    let bounds = lines(source)[row];
    let line = piece(source, bounds);
    lemma_separator(line, is_toml(source));
    let i = bounds.0 + at + 1;
    let j = bounds.1;
    assert(span == byte_span(source, (i, j)));
    lemma_index_at(source, i);
    lemma_index_at(source, j);
    assert(source[i - 1] == line[at]);
    lemma_line_with_value(line, at, value, is_toml(source));
    assert forall|k: int| 0 <= k < written.len() implies #[trigger] written[k] != '\n' by {
        if k > 0 {
            assert(written[k] == value[k - 1]);
        }
    }
    let new = replaced(source, i, j, written);
    lemma_same_language(source, i, j, written);
    lemma_replaced_line(source, row, i, written);
    lemma_still_named(source, new, key, 0, row, at);
    lemma_named_at(new, key, 0);
    lemma_replacement_bytes(source, i, j, written);
    assert(property_on(new, row, at).value == inline_value(value));
}

proof fn lemma_rows_below_kept(s: Seq<char>, t: Seq<char>, row: int)
    requires
        0 <= row <= lines(s).len(),
        lines(t).len() == lines(s).len(),
        forall|k: int|
            row <= k < lines(s).len() ==> piece(t, #[trigger] lines(t)[k]) == piece(s, lines(s)[k]),
    ensures
        value_end(t, row) == value_end(s, row),
    decreases lines(s).len() - row,
{
    if row < lines(s).len() {
        assert(piece(t, lines(t)[row]) == piece(s, lines(s)[row]));
        lemma_rows_below_kept(s, t, row + 1);
    }
}

proof fn lemma_items_below_kept(s: Seq<char>, t: Seq<char>, first: int, last: int)
    requires
        0 <= first,
        last <= lines(s).len(),
        lines(t).len() == lines(s).len(),
        forall|k: int|
            first <= k < lines(s).len() ==> piece(t, #[trigger] lines(t)[k]) == piece(
                s,
                lines(s)[k],
            ),
    ensures
        block_items(t, first, last) == block_items(s, first, last),
    decreases last - first,
{
    if first < last {
        assert(piece(t, lines(t)[last - 1]) == piece(s, lines(s)[last - 1]));
        lemma_items_below_kept(s, t, first, last - 1);
    }
}

/// The items of a list that stand below the property with a key.
pub open spec fn items_below(source: Seq<char>, key: Seq<char>) -> Seq<Seq<char>> {
    match named_at(source, key, 0) {
        Some((row, _)) => block_items(source, row + 1, value_end(source, row + 1)),
        None => Seq::empty(),
    }
}

/// A property whose value is taken away is read next with an empty value, unless items of a list
/// stand below it.
pub proof fn law_an_emptied_value_reads_back(source: Seq<char>, key: Seq<char>)
    requires
        scalar_span(source, key) is Some,
        items_below(source, key).len() == 0,
    ensures
        ({
            let span = scalar_span(source, key)->0;
            let new = replaced(
                source,
                index_at(source, span.0),
                index_at(source, span.1),
                Seq::empty(),
            );
            &&& scalar_span(new, key) == Some((span.0, span.0))
            &&& property_named(properties_from(new, 0), key, 0) matches Some(property)
                && property.value == PropertyValue::Scalar(Seq::empty())
        }),
{
    let nothing = Seq::<char>::empty();
    lemma_named_at(source, key, 0);
    let (row, at) = named_at(source, key, 0)->0;
    lemma_split_from(source, '\n', 0);
    let bounds = lines(source)[row];
    let line = piece(source, bounds);
    lemma_separator(line, is_toml(source));
    let i = bounds.0 + at + 1;
    let j = bounds.1;
    lemma_index_at(source, i);
    lemma_index_at(source, j);
    lemma_line_without_value(line, at, is_toml(source));
    let new = replaced(source, i, j, nothing);
    lemma_same_language(source, i, j, nothing);
    lemma_replaced_line(source, row, i, nothing);
    assert(piece(new, lines(new)[row]) =~= line.take(at + 1));
    lemma_still_named(source, new, key, 0, row, at);
    lemma_named_at(new, key, 0);
    lemma_replacement_bytes(source, i, j, nothing);
    assert(byte_length(nothing) == 0);
    lemma_value_end_bounds(source, row + 1);
    lemma_rows_below_kept(source, new, row + 1);
    lemma_items_below_kept(source, new, row + 1, value_end(source, row + 1));
}

} // verus!
