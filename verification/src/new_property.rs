//! A property that is added to frontmatter is there to be edited next.

use crate::delimiter_laws::lemma_trim_reaches_from;
use crate::frontmatter::{
    block_items, continues_value, is_passed_over, is_toml, new_key, properties_from,
    property_named, property_on, property_separator, row_behind, scalar_span, separator_of,
    value_end, PropertyValue,
};
use crate::frontmatter_laws::{
    lemma_named_at, lemma_same_language, lemma_value_end_bounds, named_at, replaced,
};
use crate::line_splits::{lemma_lines_of_spliced, lemma_pieces_from, lemma_split_of_two};
use crate::text::{
    byte_span, find_char, has_char, lemma_find_char, lemma_split_from, lemma_trim_is_tight, lines,
    piece, run_end, trim, trim_end_by, CharClass,
};
use vstd::prelude::*;

verus! {

/// Whether a key can stand on a line of its own: it is on one line, holds no equals sign where that
/// would part it from its value, and starts neither a comment nor an item of a list.
pub open spec fn is_plain_key(key: Seq<char>, toml: bool) -> bool {
    &&& !has_char(key, '\n')
    &&& !(toml && has_char(key, '='))
    &&& key[0] != '#'
    &&& !(key.len() >= 2 && key[0] == '-' && key[1] == ' ')
}

/// The line of a property that was just added.
proof fn lemma_new_line(key: Seq<char>, toml: bool)
    requires
        key.len() > 0,
        trim(key) == key,
        !has_char(key, ':'),
        is_plain_key(key, toml),
    ensures
        ({
            let line = key + ": "@;
            let at = key.len() as int;
            &&& property_separator(line, toml) == Some(at)
            &&& trim(line.take(at)) == key
            &&& trim(line.skip(at + 1)).len() == 0
            &&& !continues_value(line)
            &&& forall|i: int| 0 <= i < line.len() ==> #[trigger] line[i] != '\n'
        }),
{
    reveal_strlit(": ");
    reveal_strlit("---");
    reveal_strlit("+++");
    let line = key + ": "@;
    let at = key.len() as int;
    lemma_trim_is_tight(key);
    assert(line[0] == key[0] && line[at] == ':' && line[at + 1] == ' ');
    lemma_trim_reaches_from(line, 0, at + 1);
    assert(trim(line)[at] == ':');
    assert("---"@[0] == '-' && "---"@[2] == '-');
    assert(trim(line).last() == ':');
    assert("---"@.last() == '-' && "+++"@.last() == '+');
    lemma_find_char(key, ':', 0);
    lemma_find_char(key, '=', 0);
    lemma_find_char(key, '\n', 0);
    lemma_find_char(line, ':', 0);
    lemma_find_char(line, '=', 0);
    assert forall|i: int| 0 <= i < line.len() implies #[trigger] line[i] != '\n' by {
        if i < at {
            assert(line[i] == key[i]);
        }
    }
    assert(find_char(line, ':', 0) == Some(at)) by {
        let found = find_char(line, ':', 0)->0;
        if found < at {
            assert(line[found] == key[found]);
        }
    }
    match find_char(line, '=', 0) {
        Some(found) => {
            if found < at {
                assert(line[found] == key[found]);
            }
        },
        None => {},
    }
    assert(separator_of(line, toml) == Some(at));
    assert(line.take(at) =~= key);
    assert(!is_passed_over(line));
    let behind = line.skip(at + 1);
    assert(behind =~= seq![' ']);
    assert(trim(behind).len() == 0) by {
        reveal_with_fuel(run_end, 2);
        assert(run_end(behind, CharClass::Whitespace, 0) == 1);
    }
    if trim(line).len() >= 2 {
        assert(trim(line)[1] == line[1]);
    }
}

proof fn lemma_value_ends_before(s: Seq<char>, row: int, last: int)
    requires
        0 <= row <= last < lines(s).len(),
        !continues_value(piece(s, lines(s)[last])),
    ensures
        row <= value_end(s, row) <= last,
    decreases last - row,
{
    if row < last {
        lemma_value_ends_before(s, row + 1, last);
    }
}

/// Where no property above a row has a key, the property on that row is the first that has it.
proof fn lemma_named_below(s: Seq<char>, t: Seq<char>, key: Seq<char>, row: int, last: int, at: int)
    requires
        0 <= row <= last < lines(s).len(),
        last < lines(t).len(),
        named_at(s, key, row) is None,
        is_toml(t) == is_toml(s),
        forall|k: int| 0 <= k < last ==> piece(t, #[trigger] lines(t)[k]) == piece(s, lines(s)[k]),
        !continues_value(piece(s, lines(s)[last])),
        !continues_value(piece(t, lines(t)[last])),
        property_separator(piece(t, lines(t)[last]), is_toml(t)) == Some(at),
        trim(piece(t, lines(t)[last]).take(at)) == key,
    ensures
        named_at(t, key, row) == Some((last, at)),
    decreases last - row,
{
    if row == last {
        lemma_value_end_bounds(t, row + 1);
    } else {
        let line = piece(s, lines(s)[row]);
        assert(piece(t, lines(t)[row]) == line);
        match property_separator(line, is_toml(s)) {
            Some(here) => {
                let behind = row_behind(s, row, here);
                lemma_value_ends_before(s, row + 1, last);
                lemma_value_ends_before(t, row + 1, last);
                lemma_value_end_same(s, t, row + 1, last);
                assert(row_behind(t, row, here) == behind);
                lemma_named_below(s, t, key, behind, last, at);
            },
            None => {
                lemma_named_below(s, t, key, row + 1, last, at);
            },
        }
    }
}

proof fn lemma_value_end_same(s: Seq<char>, t: Seq<char>, row: int, last: int)
    requires
        0 <= row <= last < lines(s).len(),
        last < lines(t).len(),
        forall|k: int| 0 <= k < last ==> piece(t, #[trigger] lines(t)[k]) == piece(s, lines(s)[k]),
        !continues_value(piece(s, lines(s)[last])),
        !continues_value(piece(t, lines(t)[last])),
    ensures
        value_end(t, row) == value_end(s, row),
    decreases last - row,
{
    if row < last {
        assert(piece(t, lines(t)[row]) == piece(s, lines(s)[row]));
        lemma_value_end_same(s, t, row + 1, last);
    }
}

/// A property that is added before the last line of frontmatter, where none has its key yet, is read
/// next with an empty value, which can be edited. The last line is the closing delimiter, which goes
/// on with no value.
pub proof fn law_an_added_property_can_be_edited(source: Seq<char>, edited: Seq<char>)
    requires
        new_key(edited) is Some,
        is_plain_key(new_key(edited)->0, is_toml(source)),
        property_named(properties_from(source, 0), new_key(edited)->0, 0) is None,
        lines(source).len() > 1,
        !continues_value(piece(source, lines(source).last())),
    ensures
        ({
            let key = new_key(edited)->0;
            let at = lines(source).last().0;
            let new = replaced(source, at, at, key + ": \n"@);
            &&& property_named(properties_from(new, 0), key, 0) matches Some(property)
                && property.value == PropertyValue::Scalar(Seq::empty())
            &&& scalar_span(new, key) == Some(
                byte_span(new, (at + key.len() + 1, at + key.len() + 2)),
            )
        }),
{
    reveal_strlit(": ");
    reveal_strlit(": \n");
    let key = new_key(edited)->0;
    lemma_trim_is_tight(
        trim_end_by(edited, CharClass::Only(':')),
    );
    let last = lines(source).len() - 1;
    lemma_split_from(source, '\n', 0);
    let at = lines(source)[last].0;
    let end = lines(source)[last].1;
    let line = key + ": "@;
    let closing = piece(source, lines(source)[last]);
    let inner = line + seq!['\n'] + closing;
    let new = replaced(source, at, at, key + ": \n"@);
    assert(new =~= replaced(source, at, end, inner));
    lemma_new_line(key, is_toml(source));
    lemma_split_of_two(line, '\n', closing, 0);
    lemma_split_of_one(line);
    assert forall|i: int| 0 <= i < closing.len() implies #[trigger] closing[i] != '\n' by {
        assert(source[at + i] != '\n');
    }
    lemma_split_of_one(closing);
    assert(lines(inner) =~= seq![
        (0int, line.len() as int),
        (line.len() + 1int, line.len() + 1int + closing.len()),
    ]);
    lemma_lines_of_spliced(source, last, last, inner);
    assert(piece(new, lines(new)[last]) == piece(inner, lines(inner)[0]));
    assert(piece(inner, lines(inner)[0]) =~= line);
    assert(piece(new, lines(new)[last + 1]) == piece(inner, lines(inner)[1]));
    assert(piece(inner, lines(inner)[1]) =~= closing);
    lemma_pieces_from(source, '\n', 0, last);
    lemma_same_language(source, at, at, key + ": \n"@);
    lemma_named_at(source, key, 0);
    lemma_named_below(source, new, key, 0, last, key.len() as int);
    lemma_named_at(new, key, 0);
    let property = property_on(new, last, key.len() as int);
    assert(value_end(new, last + 1) == last + 1);
    assert(block_items(new, last + 1, last + 1).len() == 0);
    assert(lines(new)[last] == (at, at + line.len()));
}

proof fn lemma_split_of_one(s: Seq<char>)
    requires
        forall|i: int| 0 <= i < s.len() ==> #[trigger] s[i] != '\n',
    ensures
        lines(s) == seq![(0int, s.len() as int)],
{
    lemma_find_char(s, '\n', 0);
    assert(lines(s) =~= seq![(0int, s.len() as int)]);
}

} // verus!
