//! What the frontmatter of a note says: which lines hold a property, and what its value is.

use crate::frontmatter::{
    block_items, block_value, committed_property, continues_value, inline_items, inline_value,
    is_passed_over, is_toml, list_item, new_key, on_one_line, properties_from, property_named,
    property_on, property_separator, row_behind, separator_of, unquoted, value_at, value_end, Edit,
    EditTarget, Property, PropertyValue,
};
use crate::delimiter_laws::lemma_trim_bounds;
use crate::document::row_at;
use crate::text::{
    byte_offset, find_char, lemma_find_char, lemma_run_start, lemma_split_from, lines, piece,
    run_start, split, split_from, trim, white_space, CharClass,
};
use crate::text_laws::{is_blank_text, is_tight, law_trimming_takes_the_outer_blanks};
use vstd::prelude::*;

verus! {

// ---------------------------------------------------------------------------------------------
// Values
// ---------------------------------------------------------------------------------------------

/// A value is read without the quotes round it, which are two of a kind; any other value is read as
/// it is.
pub proof fn law_quotes_are_taken_off(text: Seq<char>, first: char, last: char)
    ensures
        unquoted(seq![first] + text + seq![last]) == if first == last && (first == '"' || first
            == '\'') {
            text
        } else {
            seq![first] + text + seq![last]
        },
        text.len() <= 1 ==> unquoted(text) == text,
{
    let whole = seq![first] + text + seq![last];
    assert(whole[0] == first);
    assert(whole.last() == last);
    assert(whole.subrange(1, whole.len() - 1) =~= text);
}

proof fn lemma_split_one_more(s: Seq<char>, t: Seq<char>, start: int)
    requires
        0 <= start <= s.len(),
        !t.contains(','),
    ensures
        ({
            let whole = s + seq![','] + t;
            split_from(whole, ',', start) == split_from(s, ',', start).push(
                (s.len() + 1int, whole.len() as int),
            )
        }),
    decreases s.len() - start,
{
    let whole = s + seq![','] + t;
    lemma_find_char(s, ',', start);
    lemma_find_char(whole, ',', start);
    assert(whole[s.len() as int] == ',');
    assert forall|i: int| s.len() < i < whole.len() implies #[trigger] whole[i] != ',' by {
        assert(whole[i] == t[i - s.len() - 1]);
    }
    match find_char(s, ',', start) {
        Some(at) => {
            assert(whole[at] == s[at]);
            assert(find_char(whole, ',', start) == Some(at)) by {
                let other = find_char(whole, ',', start)->0;
                if other < at {
                    assert(whole[other] == s[other]);
                }
            }
            lemma_split_one_more(s, t, at + 1);
            assert(split_from(whole, ',', start) =~= split_from(s, ',', start).push(
                (s.len() + 1int, whole.len() as int),
            ));
        },
        None => {
            assert(find_char(whole, ',', start) == Some(s.len() as int)) by {
                let other = find_char(whole, ',', start)->0;
                if other < s.len() {
                    assert(whole[other] == s[other]);
                }
            }
            let end = s.len() + 1int;
            lemma_find_char(whole, ',', end);
            assert(find_char(whole, ',', end) is None);
            assert(split_from(whole, ',', end) == seq![(end, whole.len() as int)]);
            assert(split_from(whole, ',', start) =~= split_from(s, ',', start).push(
                (end, whole.len() as int),
            ));
        },
    }
}

proof fn lemma_items_of_front(s: Seq<char>, t: Seq<char>, count: int)
    requires
        !t.contains(','),
        0 <= count <= split(s, ',').len(),
    ensures
        inline_items(s + seq![','] + t, count) == inline_items(s, count),
    decreases count,
{
    let whole = s + seq![','] + t;
    lemma_split_one_more(s, t, 0);
    if count > 0 {
        lemma_items_of_front(s, t, count - 1);
        lemma_split_from(s, ',', 0);
        let part = split(s, ',')[count - 1];
        assert(split(whole, ',')[count - 1] == part);
        assert(0 <= part.0 <= part.1 <= s.len());
        assert(piece(whole, part) =~= piece(s, part));
    }
}

/// A value in brackets is a list. Each item behind a comma is one more of it, without the white space
/// and the quotes round it, and one with nothing in it is none.
pub proof fn law_one_more_item_is_listed(
    front: Seq<char>,
    left: Seq<char>,
    item: Seq<char>,
    right: Seq<char>,
)
    requires
        is_blank_text(left),
        is_blank_text(right),
        item.len() == 0 || is_tight(item),
        !item.contains(','),
    ensures
        inline_value(seq!['['] + front + seq![','] + left + item + right + seq![']']) is List,
        inline_value(seq!['['] + front + seq![']']) is List,
        inline_value(seq!['['] + front + seq![','] + left + item + right + seq![']'])->List_0
            == if unquoted(item).len() > 0 {
            (inline_value(seq!['['] + front + seq![']'])->List_0).push(unquoted(item))
        } else {
            inline_value(seq!['['] + front + seq![']'])->List_0
        },
{
    let t = left + item + right;
    let inner = front + seq![','] + t;
    let whole = seq!['['] + front + seq![','] + left + item + right + seq![']'];
    assert(whole.subrange(1, whole.len() - 1) =~= inner);
    let short = seq!['['] + front + seq![']'];
    assert(short.subrange(1, short.len() - 1) =~= front);
    assert forall|i: int| 0 <= i < t.len() implies #[trigger] t[i] != ',' by {
        if i < left.len() {
            assert(white_space(left[i]));
        } else if i < left.len() + item.len() {
            assert(t[i] == item[i - left.len()]);
        } else {
            assert(white_space(right[i - left.len() - item.len()]));
        }
    }
    lemma_split_one_more(front, t, 0);
    let count = split(front, ',').len() as int;
    lemma_items_of_front(front, t, count);
    assert(piece(inner, split(inner, ',')[count]) =~= t);
    law_trimming_takes_the_outer_blanks(left, item, right);
}

/// The first item of a list in brackets.
pub proof fn law_a_list_has_its_first_item(left: Seq<char>, item: Seq<char>, right: Seq<char>)
    requires
        is_blank_text(left),
        is_blank_text(right),
        item.len() == 0 || is_tight(item),
        !item.contains(','),
    ensures
        inline_value(seq!['['] + left + item + right + seq![']']) == PropertyValue::List(
            if unquoted(item).len() > 0 {
                seq![unquoted(item)]
            } else {
                Seq::empty()
            },
        ),
{
    let t = left + item + right;
    let whole = seq!['['] + left + item + right + seq![']'];
    assert(whole.subrange(1, whole.len() - 1) =~= t);
    assert forall|i: int| 0 <= i < t.len() implies #[trigger] t[i] != ',' by {
        if i < left.len() {
            assert(white_space(left[i]));
        } else if i < left.len() + item.len() {
            assert(t[i] == item[i - left.len()]);
        } else {
            assert(white_space(right[i - left.len() - item.len()]));
        }
    }
    lemma_find_char(t, ',', 0);
    assert(split(t, ',') =~= seq![(0int, t.len() as int)]);
    assert(piece(t, (0, t.len() as int)) =~= t);
    law_trimming_takes_the_outer_blanks(left, item, right);
    reveal_with_fuel(inline_items, 2);
    assert(inline_items(t, 1) =~= if unquoted(item).len() > 0 {
        seq![unquoted(item)]
    } else {
        Seq::empty()
    });
}

/// A value that stands in no brackets is a text, read without its quotes.
pub proof fn law_a_value_without_brackets_is_a_text(value: Seq<char>)
    requires
        value.len() > 0,
        value[0] != '[' || value.last() != ']' || value.len() == 1,
    ensures
        inline_value(value) == PropertyValue::Scalar(unquoted(value)),
{
}

// ---------------------------------------------------------------------------------------------
// Lines
// ---------------------------------------------------------------------------------------------

/// Whether the separator of a line may be this character: a colon, or an equals sign where no colon
/// stands behind it, or where the frontmatter is TOML.
pub open spec fn is_separator(separator: char, behind: Seq<char>, toml: bool) -> bool {
    separator == ':' || (separator == '=' && (toml || !behind.contains(':')))
}

/// Whether a text can be the key of a property at the start of a line.
pub open spec fn is_key(key: Seq<char>) -> bool {
    is_tight(key) && !key.contains(':') && !key.contains('=') && key[0] != '#'
}

proof fn lemma_separator_at(
    key: Seq<char>,
    gap: Seq<char>,
    separator: char,
    behind: Seq<char>,
    toml: bool,
)
    requires
        is_key(key),
        is_blank_text(gap),
        is_separator(separator, behind, toml),
    ensures
        separator_of(key + gap + seq![separator] + behind, toml) == Some(
            (key.len() + gap.len()) as int,
        ),
{
    let line = key + gap + seq![separator] + behind;
    let at = (key.len() + gap.len()) as int;
    lemma_find_char(line, ':', 0);
    lemma_find_char(line, '=', 0);
    assert(line[at] == separator);
    assert forall|i: int| 0 <= i < at implies #[trigger] line[i] != ':' && line[i] != '=' by {
        if i < key.len() {
            assert(line[i] == key[i]);
            assert(key.contains(key[i]));
        } else {
            assert(white_space(gap[i - key.len()]));
        }
    }
    if separator == '=' && !toml {
        assert forall|i: int| at < i < line.len() implies #[trigger] line[i] != ':' by {
            assert(line[i] == behind[i - at - 1]);
        }
    }
}

proof fn lemma_not_passed_over(
    key: Seq<char>,
    gap: Seq<char>,
    separator: char,
    left: Seq<char>,
    value: Seq<char>,
    right: Seq<char>,
)
    requires
        is_key(key),
        is_blank_text(gap),
        separator == ':' || separator == '=',
        is_blank_text(left),
        is_blank_text(right),
        value.len() == 0 || is_tight(value),
        value.len() == 0 ==> left.len() == 0,
    ensures
        !is_passed_over(key + gap + seq![separator] + (left + value + right)),
{
    let line = key + gap + seq![separator] + (left + value + right);
    let core = key + gap + seq![separator] + (left + value);
    let none = Seq::<char>::empty();
    assert(line =~= none + core + right);
    assert(core[0] == key[0]);
    let at = (key.len() + gap.len()) as int;
    assert(core[core.len() - 1] == if value.len() > 0 {
        value[value.len() - 1]
    } else {
        separator
    });
    law_trimming_takes_the_outer_blanks(none, core, right);
    assert(core[at] == separator);
    reveal_strlit("---");
    reveal_strlit("+++");
    assert(line[0] == key[0]);
}

/// A line with a key, a separator and a value is a property with that value, and the next line is the
/// next to be read.
pub proof fn law_a_line_holds_its_property(
    s: Seq<char>,
    row: int,
    key: Seq<char>,
    gap: Seq<char>,
    separator: char,
    left: Seq<char>,
    value: Seq<char>,
    right: Seq<char>,
)
    requires
        0 <= row < lines(s).len(),
        s.subrange(lines(s)[row].0, lines(s)[row].1) == key + gap + seq![separator] + (left + value
            + right),
        is_key(key),
        is_blank_text(gap),
        is_blank_text(left),
        is_blank_text(right),
        is_tight(value),
        is_separator(separator, left + value + right, is_toml(s)),
    ensures
        properties_from(s, row) == seq![
            Property {
                key,
                value_span: (
                    byte_offset(s, lines(s)[row].0 + key.len() + gap.len() + 1) as int,
                    byte_offset(s, lines(s)[row].1) as int,
                ),
                value: inline_value(value),
            },
        ] + properties_from(s, row + 1),
{
    let behind = left + value + right;
    let line = piece(s, lines(s)[row]);
    let at = (key.len() + gap.len()) as int;
    lemma_separator_at(key, gap, separator, behind, is_toml(s));
    lemma_not_passed_over(key, gap, separator, left, value, right);
    let none = Seq::<char>::empty();
    assert(line.take(at) =~= none + key + gap);
    law_trimming_takes_the_outer_blanks(none, key, gap);
    assert(line.skip(at + 1) =~= behind);
    law_trimming_takes_the_outer_blanks(left, value, right);
    assert(property_separator(line, is_toml(s)) == Some(at));
}

/// A key with nothing behind its separator has the list that stands below it, or nothing where none
/// does. What goes on with it is no property of its own.
pub proof fn law_a_key_alone_has_the_list_below_it(
    s: Seq<char>,
    row: int,
    last: int,
    key: Seq<char>,
    gap: Seq<char>,
    separator: char,
    right: Seq<char>,
)
    requires
        0 <= row < last <= lines(s).len(),
        s.subrange(lines(s)[row].0, lines(s)[row].1) == key + gap + seq![separator] + right,
        is_key(key),
        is_blank_text(gap),
        is_blank_text(right),
        is_separator(separator, right, is_toml(s)),
        forall|k: int|
            row < k < last ==> goes_on_with_value(
                s.subrange((#[trigger] lines(s)[k]).0, lines(s)[k].1),
            ),
        last == lines(s).len() || !goes_on_with_value(
            s.subrange(lines(s)[last].0, lines(s)[last].1),
        ),
    ensures
        properties_from(s, row).len() > 0,
        properties_from(s, row)[0].key == key,
        properties_from(s, row)[0].value == block_value(s, row + 1, last),
        properties_from(s, row).skip(1) == properties_from(s, last),
{
    let line = piece(s, lines(s)[row]);
    let at = (key.len() + gap.len()) as int;
    let none = Seq::<char>::empty();
    assert(none + none + right =~= right);
    lemma_separator_at(key, gap, separator, right, is_toml(s));
    lemma_not_passed_over(key, gap, separator, none, none, right);
    assert(line.take(at) =~= none + key + gap);
    law_trimming_takes_the_outer_blanks(none, key, gap);
    assert(line.skip(at + 1) =~= right);
    law_trimming_takes_the_outer_blanks(none, none, right);
    assert(property_separator(line, is_toml(s)) == Some(at));
    lemma_value_end_is(s, row + 1, last);
    assert(row_behind(s, row, at) == last);
    let all = properties_from(s, row);
    assert(all == seq![property_on(s, row, at)] + properties_from(s, last));
    assert(all.skip(1) =~= properties_from(s, last));
}

/// Whether a line goes on with the value above it: it has something on it, and either starts with
/// white space or is a dash and a blank.
pub open spec fn goes_on_with_value(line: Seq<char>) -> bool {
    &&& !is_blank_text(line)
    &&& white_space(line[0]) || (line.len() > 1 && line[0] == '-' && line[1] == ' '
        && !is_blank_text(line.skip(1)))
}

proof fn lemma_goes_on(line: Seq<char>)
    ensures
        continues_value(line) == goes_on_with_value(line),
{
    if is_blank_text(line) {
        let none = Seq::<char>::empty();
        assert(line =~= line + none + none);
        law_trimming_takes_the_outer_blanks(line, none, none);
    } else {
        let bounds = lemma_trim_bounds(line);
        let (i, j) = bounds;
        let text = trim(line);
        if i >= j {
            assert forall|k: int| 0 <= k < line.len() implies white_space(#[trigger] line[k]) by {}
        }
        if !white_space(line[0]) {
            assert(i == 0);
            let rest = line.skip(1);
            if line.len() > 1 && line[0] == '-' && line[1] == ' ' && !is_blank_text(rest) {
                let k = choose|k: int| 0 <= k < rest.len() && !white_space(#[trigger] rest[k]);
                assert(rest[k] == line[k + 1]);
                assert(rest[0] == ' ');
                assert(j > 2);
            }
            if text.len() >= 2 && text[0] == '-' && text[1] == ' ' {
                assert(text[text.len() - 1] == line[j - 1]);
                assert(!white_space(line[j - 1]));
                assert(rest[j - 2] == line[j - 1]);
                assert(!is_blank_text(rest));
            }
        }
    }
}

proof fn lemma_value_end_is(s: Seq<char>, row: int, last: int)
    requires
        0 <= row <= last <= lines(s).len(),
        forall|k: int|
            row <= k < last ==> goes_on_with_value(
                s.subrange((#[trigger] lines(s)[k]).0, lines(s)[k].1),
            ),
        last == lines(s).len() || !goes_on_with_value(
            s.subrange(lines(s)[last].0, lines(s)[last].1),
        ),
    ensures
        value_end(s, row) == last,
    decreases last - row,
{
    if row < last {
        lemma_goes_on(piece(s, lines(s)[row]));
        assert(goes_on_with_value(s.subrange(lines(s)[row].0, lines(s)[row].1)));
        lemma_value_end_is(s, row + 1, last);
    } else if last < lines(s).len() {
        lemma_goes_on(piece(s, lines(s)[last]));
    }
}

/// A line with a dash in front of it is one more item of a list, without the white space and the
/// quotes round it.
pub proof fn law_a_dash_makes_an_item(
    s: Seq<char>,
    first: int,
    row: int,
    lead: Seq<char>,
    left: Seq<char>,
    item: Seq<char>,
    right: Seq<char>,
)
    requires
        0 <= first <= row < lines(s).len(),
        s.subrange(lines(s)[row].0, lines(s)[row].1) == lead + seq!['-'] + left + item + right,
        is_blank_text(lead),
        is_blank_text(left),
        is_blank_text(right),
        is_tight(item),
        unquoted(item).len() > 0,
    ensures
        block_items(s, first, row + 1) == block_items(s, first, row).push(unquoted(item)),
        block_value(s, first, row + 1) == PropertyValue::List(
            block_items(s, first, row).push(unquoted(item)),
        ),
{
    let line = piece(s, lines(s)[row]);
    let core = seq!['-'] + left + item;
    assert(line =~= lead + core + right);
    assert(core[core.len() - 1] == item[item.len() - 1]);
    law_trimming_takes_the_outer_blanks(lead, core, right);
    let none = Seq::<char>::empty();
    assert(core.skip(1) =~= left + item + none);
    law_trimming_takes_the_outer_blanks(left, item, none);
    assert(list_item(line) == Some(unquoted(item)));
}

/// A blank line, a comment, a delimiter and an indented line hold no property.
pub proof fn law_other_lines_hold_no_property(s: Seq<char>, row: int)
    requires
        0 <= row < lines(s).len(),
        ({
            let line = s.subrange(lines(s)[row].0, lines(s)[row].1);
            ||| is_blank_text(line)
            ||| white_space(line[0])
            ||| line[0] == '#'
            ||| line == seq!['-', '-', '-']
            ||| line == seq!['+', '+', '+']
            ||| forall|i: int| 0 <= i < line.len() ==> #[trigger] line[i] != ':' && line[i] != '='
        }),
    ensures
        properties_from(s, row) == properties_from(s, row + 1),
{
    let line = piece(s, lines(s)[row]);
    let none = Seq::<char>::empty();
    if is_blank_text(line) {
        assert(line =~= line + none + none);
        law_trimming_takes_the_outer_blanks(line, none, none);
    } else if white_space(line[0]) {
    } else if line[0] == '#' {
        let (i, j) = lemma_trim_bounds(line);
        assert(i == 0);
    } else if line == seq!['-', '-', '-'] || line == seq!['+', '+', '+'] {
        reveal_strlit("---");
        reveal_strlit("+++");
        assert("---"@ =~= seq!['-', '-', '-']);
        assert("+++"@ =~= seq!['+', '+', '+']);
        assert(line =~= none + line + none);
        law_trimming_takes_the_outer_blanks(none, line, none);
    } else {
        lemma_find_char(line, ':', 0);
        lemma_find_char(line, '=', 0);
    }
}

/// Frontmatter that opens with three plus signs is TOML, and no other is.
pub proof fn law_plus_signs_open_toml(s: Seq<char>)
    ensures
        is_toml(s) <==> s.len() >= 3 && s[0] == '+' && s[1] == '+' && s[2] == '+',
{
    reveal_strlit("+++");
    if s.len() >= 3 {
        assert(s.take(3)[0] == s[0] && s.take(3)[1] == s[1] && s.take(3)[2] == s[2]);
        if s[0] == '+' && s[1] == '+' && s[2] == '+' {
            assert(s.take(3) =~= "+++"@);
        }
    }
}

/// A key names the first property that has it.
pub proof fn law_a_key_names_its_first_property(
    properties: Seq<Property>,
    key: Seq<char>,
    from: int,
    k: int,
)
    requires
        0 <= from <= k < properties.len(),
        properties[k].key == key,
        forall|m: int| from <= m < k ==> (#[trigger] properties[m]).key != key,
    ensures
        property_named(properties, key, from) == Some(properties[k]),
    decreases k - from,
{
    if from < k {
        assert(properties[from].key != key);
        law_a_key_names_its_first_property(properties, key, from + 1, k);
    }
}

// ---------------------------------------------------------------------------------------------
// Edits
// ---------------------------------------------------------------------------------------------

/// A new key is what was typed without the colons behind it. There is none where nothing is left or
/// where a colon is left inside.
pub proof fn law_a_new_key_has_no_colon(left: Seq<char>, key: Seq<char>, right: Seq<char>, colons: nat)
    requires
        is_blank_text(left),
        is_blank_text(right),
        key.len() == 0 || is_tight(key),
        key.len() == 0 ==> left.len() == 0 && right.len() == 0,
        right.len() == 0 ==> key.len() == 0 || key[key.len() - 1] != ':',
    ensures
        new_key(left + key + right + Seq::new(colons, |i: int| ':')) == if key.len() == 0
            || key.contains(':') {
            None
        } else {
            Some(key)
        },
{
    let front = left + key + right;
    let tail = Seq::new(colons, |i: int| ':');
    let s = front + tail;
    let class = CharClass::Only(':');
    lemma_run_start(s, class, s.len() as int);
    let cut = run_start(s, class, s.len() as int);
    if cut > front.len() {
        assert(s[cut - 1] == ':');
    }
    if cut < front.len() {
        assert(class.holds(s[front.len() - 1]));
        assert(s[front.len() - 1] == front[front.len() - 1]);
        if right.len() > 0 {
            assert(white_space(right[right.len() - 1]));
            assert(front[front.len() - 1] == right[right.len() - 1]);
        } else {
            assert(front[front.len() - 1] == key[key.len() - 1]);
        }
    }
    assert(s.take(cut) =~= front);
    law_trimming_takes_the_outer_blanks(left, key, right);
    lemma_find_char(key, ':', 0);
    if key.contains(':') {
        let i = choose|i: int| 0 <= i < key.len() && key[i] == ':';
        assert(key[i] == ':');
    }
}

/// What is typed over two lines is written on one, with a blank for each newline.
pub proof fn law_a_newline_is_written_as_a_blank(edited: Seq<char>, i: int)
    requires
        0 <= i < edited.len(),
    ensures
        on_one_line(edited).len() == edited.len(),
        edited[i] == '\n' ==> on_one_line(edited)[i] == ' ',
        edited[i] != '\n' ==> on_one_line(edited)[i] == edited[i],
{
}

/// Committing a value replaces what stands behind its key by one blank and the new value, by nothing
/// where the new value is empty, and does nothing where it is the old one.
pub proof fn law_a_committed_value_is_written(
    s: Seq<char>,
    start: int,
    end: int,
    key: Seq<char>,
    span: (int, int),
    old_left: Seq<char>,
    old_value: Seq<char>,
    old_right: Seq<char>,
    left: Seq<char>,
    value: Seq<char>,
    right: Seq<char>,
)
    requires
        is_blank_text(old_left),
        is_blank_text(old_right),
        old_value.len() == 0 || is_tight(old_value),
        value_at(s, start, end, key) == Some((span, old_left + old_value + old_right)),
        is_blank_text(left),
        is_blank_text(right),
        value.len() == 0 || is_tight(value),
        !(left + value + right).contains('\n'),
    ensures
        ({
            let edit = committed_property(
                s,
                start,
                end,
                EditTarget::Value { key },
                left + value + right,
            );
            &&& edit is None <==> value == old_value
            &&& edit is Some ==> edit->0.range == span && edit->0.created is None
            &&& edit is Some && value.len() > 0 ==> edit->0.text == seq![' '] + value
            &&& edit is Some && value.len() == 0 ==> edit->0.text == Seq::<char>::empty()
        }),
{
    let edited = left + value + right;
    assert forall|i: int| 0 <= i < edited.len() implies #[trigger] edited[i] != '\n' by {
        assert(edited.contains(edited[i]));
    }
    assert(on_one_line(edited) =~= edited);
    law_trimming_takes_the_outer_blanks(left, value, right);
    law_trimming_takes_the_outer_blanks(old_left, old_value, old_right);
}

/// Committing a new key writes it with a colon on a line of its own, at the start of the row on which
/// the frontmatter ends.
pub proof fn law_a_committed_key_is_written(
    s: Seq<char>,
    start: int,
    end: int,
    key: Seq<char>,
)
    requires
        is_tight(key),
        !key.contains(':'),
        !key.contains('\n'),
    ensures
        ({
            let at = byte_offset(s, lines(s)[row_at(s, end)].0) as int;
            committed_property(s, start, end, EditTarget::NewKey, key) == Some(
                Edit { range: (at, at), text: key + seq![':', ' ', '\n'], created: Some(key) },
            )
        }),
{
    let none = Seq::<char>::empty();
    let no_colons = Seq::new(0, |i: int| ':');
    assert forall|i: int| 0 <= i < key.len() implies #[trigger] key[i] != '\n' by {
        assert(key.contains(key[i]));
    }
    assert(on_one_line(key) =~= key);
    assert(none + key + none =~= key);
    law_trimming_takes_the_outer_blanks(none, key, none);
    assert(key[key.len() - 1] != ':') by {
        assert(key.contains(key[key.len() - 1]));
    }
    law_a_new_key_has_no_colon(none, key, none, 0);
    assert(none + key + none + no_colons =~= key);
    reveal_strlit(": \n");
    assert(": \n"@ =~= seq![':', ' ', '\n']);
}

} // verus!
