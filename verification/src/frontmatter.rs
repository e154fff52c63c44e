//! Frontmatter as a card of properties: reading the properties out of its source, and editing them
//! in place.

use crate::document::{countable, row_at, Document};
use crate::text::{
    byte_length, byte_offset, byte_span, contains_char, find_char, has_char, has_prefix, index_at,
    index_of_char, is_whitespace, lemma_byte_offset_grows, lemma_byte_offset_part, lines,
    option_view, pairs, piece, push_chars, push_text, same_chars, same_text, slice_at, spells,
    split, split_ranges, starts_with, string_of, to_chars, trim, trim_end_by, trimmed, trimmed_end, views,
    white_space, CharClass, Text,
};
use std::ops::Range;
use vstd::prelude::*;

verus! {

/// The value of a property: a text, or a list of texts, each without the quotes round it.
#[derive(Debug)]
pub enum FrontmatterValue {
    Scalar(String),
    List(Vec<String>),
}

/// One property of a frontmatter. `value_span` is the byte range of the raw value in the source,
/// from right behind the separator to the end of the line, so that rewriting it replaces the
/// padding too.
#[derive(Debug)]
pub struct FrontmatterProperty {
    pub key: String,
    pub value_span: Range<usize>,
    pub value: FrontmatterValue,
}

/// What a [`FrontmatterValue`] holds.
pub enum PropertyValue {
    Scalar(Seq<char>),
    List(Seq<Seq<char>>),
}

/// What a [`FrontmatterProperty`] holds.
pub struct Property {
    pub key: Seq<char>,
    pub value_span: (int, int),
    pub value: PropertyValue,
}

impl View for FrontmatterValue {
    type V = PropertyValue;

    open spec fn view(&self) -> PropertyValue {
        match self {
            FrontmatterValue::Scalar(text) => PropertyValue::Scalar(text@),
            FrontmatterValue::List(items) => PropertyValue::List(views(items@)),
        }
    }
}

impl View for FrontmatterProperty {
    type V = Property;

    open spec fn view(&self) -> Property {
        Property {
            key: self.key@,
            value_span: (self.value_span.start as int, self.value_span.end as int),
            value: self.value@,
        }
    }
}

/// What several properties hold.
pub open spec fn property_views(list: Seq<FrontmatterProperty>) -> Seq<Property> {
    Seq::new(list.len(), |i: int| list[i]@)
}

// ---------------------------------------------------------------------------------------------
// Reading
// ---------------------------------------------------------------------------------------------

/// Whether a text stands between two of these quotes.
pub open spec fn quoted_by(value: Seq<char>, quote: char) -> bool {
    value.len() >= 2 && value[0] == quote && value.last() == quote
}

/// A value without the double or single quotes round it.
pub open spec fn unquoted(value: Seq<char>) -> Seq<char> {
    if quoted_by(value, '"') || quoted_by(value, '\'') {
        value.subrange(1, value.len() - 1)
    } else {
        value
    }
}

fn unquote_chars(value: &[char]) -> (result: &[char])
    ensures
        result@ == unquoted(value@),
{
    if value.len() >= 2 {
        let first = value[0];
        let last = value[value.len() - 1];
        if (first == '"' && last == '"') || (first == '\'' && last == '\'') {
            return &value[1..value.len() - 1];
        }
    }
    value
}

/// A value without the double or single quotes round it.
pub fn unquote(value: &str) -> (result: String)
    ensures
        result@ == unquoted(value@),
{
    string_of(unquote_chars(to_chars(value).as_slice()))
}

/// Whether a line holds no property: it is blank, a delimiter, a comment, or indented.
pub open spec fn is_passed_over(line: Seq<char>) -> bool {
    let text = trim(line);
    text.len() == 0 || text == "---"@ || text == "+++"@ || text[0] == '#' || white_space(line[0])
}

/// Whether frontmatter is TOML: it opens with `+++`. Any other is YAML.
pub open spec fn is_toml(s: Seq<char>) -> bool {
    starts_with(s, "+++"@)
}

/// Where the separator of a line stands. In YAML it is the first colon, else the first equals sign;
/// in TOML it is whichever of the two comes first, so that a value may hold a colon.
pub open spec fn separator_of(line: Seq<char>, toml: bool) -> Option<int> {
    match (find_char(line, ':', 0), find_char(line, '=', 0)) {
        (Some(colon), Some(equals)) => if toml && equals < colon {
            Some(equals)
        } else {
            Some(colon)
        },
        (Some(colon), None) => Some(colon),
        (None, equals) => equals,
    }
}

/// Where the separator of a line's property stands, if the line holds one.
pub open spec fn property_separator(line: Seq<char>, toml: bool) -> Option<int> {
    if is_passed_over(line) {
        None
    } else {
        match separator_of(line, toml) {
            Some(at) => if trim(line.take(at)).len() == 0 {
                None
            } else {
                Some(at)
            },
            None => None,
        }
    }
}

/// Whether a line goes on with the value of the property above it: an indented line, or an item of
/// a list.
pub open spec fn continues_value(line: Seq<char>) -> bool {
    let text = trim(line);
    text.len() > 0 && (white_space(line[0]) || (text.len() >= 2 && text[0] == '-' && text[1]
        == ' '))
}

/// The first row, from `row` on, that does not go on with a value.
pub open spec fn value_end(s: Seq<char>, row: int) -> int
    decreases lines(s).len() - row,
{
    if 0 <= row < lines(s).len() && continues_value(piece(s, lines(s)[row])) {
        value_end(s, row + 1)
    } else {
        row
    }
}

/// The item of a list that a line holds: what stands behind its dash, if anything.
pub open spec fn list_item(line: Seq<char>) -> Option<Seq<char>> {
    let text = trim(line);
    if text.len() > 0 && text[0] == '-' && unquoted(trim(text.skip(1))).len() > 0 {
        Some(unquoted(trim(text.skip(1))))
    } else {
        None
    }
}

/// The items of a list that stand on the rows from `first` up to `last`.
pub open spec fn block_items(s: Seq<char>, first: int, last: int) -> Seq<Seq<char>>
    decreases last - first,
{
    if last <= first {
        Seq::empty()
    } else {
        match list_item(piece(s, lines(s)[last - 1])) {
            Some(item) => block_items(s, first, last - 1).push(item),
            None => block_items(s, first, last - 1),
        }
    }
}

/// The items among the first `count` pieces of an inline list.
pub open spec fn inline_items(inner: Seq<char>, count: int) -> Seq<Seq<char>>
    decreases count,
{
    if count <= 0 {
        Seq::empty()
    } else {
        let item = unquoted(trim(piece(inner, split(inner, ',')[count - 1])));
        if item.len() > 0 {
            inline_items(inner, count - 1).push(item)
        } else {
            inline_items(inner, count - 1)
        }
    }
}

/// A value that stands on the line of its key.
pub open spec fn inline_value(raw: Seq<char>) -> PropertyValue {
    if raw.len() >= 2 && raw[0] == '[' && raw.last() == ']' {
        let inner = raw.subrange(1, raw.len() - 1);
        PropertyValue::List(inline_items(inner, split(inner, ',').len() as int))
    } else {
        PropertyValue::Scalar(unquoted(raw))
    }
}

/// A value that stands on the rows below its key.
pub open spec fn block_value(s: Seq<char>, first: int, last: int) -> PropertyValue {
    let items = block_items(s, first, last);
    if items.len() == 0 {
        PropertyValue::Scalar(Seq::empty())
    } else {
        PropertyValue::List(items)
    }
}

/// The property whose key stands on a row, with its separator at index `at` of the line.
pub open spec fn property_on(s: Seq<char>, row: int, at: int) -> Property {
    let bounds = lines(s)[row];
    let line = piece(s, bounds);
    let raw = trim(line.skip(at + 1));
    Property {
        key: trim(line.take(at)),
        value_span: byte_span(s, (bounds.0 + at + 1, bounds.1)),
        value: if raw.len() == 0 {
            block_value(s, row + 1, value_end(s, row + 1))
        } else {
            inline_value(raw)
        },
    }
}

/// The row behind a property: behind the rows its value goes on over.
pub open spec fn row_behind(s: Seq<char>, row: int, at: int) -> int {
    if trim(piece(s, lines(s)[row]).skip(at + 1)).len() == 0 {
        value_end(s, row + 1)
    } else {
        row + 1
    }
}

/// The properties from a row on.
pub open spec fn properties_from(s: Seq<char>, row: int) -> Seq<Property>
    decreases lines(s).len() - row,
{
    if row < 0 || row >= lines(s).len() {
        Seq::empty()
    } else {
        match property_separator(piece(s, lines(s)[row]), is_toml(s)) {
            Some(at) => if row < row_behind(s, row, at) <= lines(s).len() {
                seq![property_on(s, row, at)] + properties_from(s, row_behind(s, row, at))
            } else {
                Seq::empty()
            },
            None => properties_from(s, row + 1),
        }
    }
}

proof fn lemma_value_end(s: Seq<char>, row: int)
    requires
        0 <= row <= lines(s).len(),
    ensures
        row <= value_end(s, row) <= lines(s).len(),
    decreases lines(s).len() - row,
{
    if row < lines(s).len() && continues_value(piece(s, lines(s)[row])) {
        lemma_value_end(s, row + 1);
    }
}

fn passed_over(line: &[char]) -> (result: bool)
    ensures
        result == is_passed_over(line@),
{
    let text = trimmed(line);
    if text.len() == 0 {
        return true;
    }
    proof {
        if line@.len() == 0 {
            assert(trim(line@) =~= Seq::empty());
        }
    }
    spells(text, "---") || spells(text, "+++") || text[0] == '#' || is_whitespace(line[0])
}

fn find_separator(line: &[char], toml: bool) -> (result: Option<usize>)
    ensures
        match result {
            Some(at) => property_separator(line@, toml) == Some(at as int) && at < line@.len()
                <= usize::MAX,
            None => property_separator(line@, toml) is None,
        },
{
    if passed_over(line) {
        return None;
    }
    let at = match (index_of_char(line, ':', 0), index_of_char(line, '=', 0)) {
        (Some(colon), Some(equals)) => if toml && equals < colon {
            equals
        } else {
            colon
        },
        (Some(colon), None) => colon,
        (None, Some(equals)) => equals,
        (None, None) => {
            return None;
        },
    };
    let key = &line[0..at];
    assert(key@ =~= line@.take(at as int));
    if trimmed(key).len() == 0 {
        None
    } else {
        Some(at)
    }
}

fn check_continues(line: &[char]) -> (result: bool)
    ensures
        result == continues_value(line@),
{
    let text = trimmed(line);
    if text.len() == 0 {
        return false;
    }
    proof {
        if line@.len() == 0 {
            assert(trim(line@) =~= Seq::empty());
        }
    }
    is_whitespace(line[0]) || (text.len() >= 2 && text[0] == '-' && text[1] == ' ')
}

fn read_item(line: &[char]) -> (result: Option<String>)
    ensures
        option_view(result) == list_item(line@),
{
    let text = trimmed(line);
    if text.len() == 0 || text[0] != '-' {
        return None;
    }
    let rest = &text[1..text.len()];
    assert(rest@ =~= text@.skip(1));
    let item = unquote_chars(trimmed(rest));
    if item.len() == 0 {
        None
    } else {
        Some(string_of(item))
    }
}

fn read_inline(raw: &[char]) -> (result: FrontmatterValue)
    ensures
        result@ == inline_value(raw@),
{
    if raw.len() < 2 || raw[0] != '[' || raw[raw.len() - 1] != ']' {
        return FrontmatterValue::Scalar(string_of(unquote_chars(raw)));
    }
    let inner = &raw[1..raw.len() - 1];
    let parts = split_ranges(inner, ',');
    assert(pairs(parts@).len() == split(inner@, ',').len());
    let mut items: Vec<String> = Vec::new();
    let mut k: usize = 0;
    while k < parts.len()
        invariant
            k <= parts@.len(),
            pairs(parts@) == split(inner@, ','),
            forall|m: int|
                0 <= m < parts@.len() ==> (#[trigger] parts@[m]).0 <= parts@[m].1 <= inner@.len(),
            views(items@) == inline_items(inner@, k as int),
        decreases parts@.len() - k,
    {
        assert(pairs(parts@)[k as int] == split(inner@, ',')[k as int]);
        assert(parts@[k as int].0 <= parts@[k as int].1 <= inner@.len());
        let item = unquote_chars(trimmed(&inner[parts[k].0..parts[k].1]));
        let ghost before = views(items@);
        if item.len() > 0 {
            items.push(string_of(item));
            assert(views(items@) =~= before.push(item@));
        }
        k += 1;
    }
    FrontmatterValue::List(items)
}

/// Whether `rows` holds the bounds of the lines of `s`.
spec fn bounds_of_lines(s: Seq<char>, rows: Seq<(usize, usize)>) -> bool {
    &&& rows.len() == lines(s).len()
    &&& forall|k: int|
        0 <= k < rows.len() ==> {
            &&& (#[trigger] rows[k]).0 <= rows[k].1 <= s.len()
            &&& lines(s)[k] == (rows[k].0 as int, rows[k].1 as int)
        }
}

fn read_block(text: &Text, rows: &Vec<(usize, usize)>, first: usize) -> (result: (
    FrontmatterValue,
    usize,
))
    requires
        text.wf(),
        bounds_of_lines(text@, rows@),
        first <= rows@.len(),
    ensures
        result.1 == value_end(text@, first as int),
        first <= result.1 <= rows@.len(),
        result.0@ == block_value(text@, first as int, result.1 as int),
{
    let mut items: Vec<String> = Vec::new();
    let mut row: usize = first;
    assert(views(items@) =~= block_items(text@, first as int, first as int));
    while row < rows.len()
        invariant_except_break
            value_end(text@, first as int) == value_end(text@, row as int),
        invariant
            text.wf(),
            bounds_of_lines(text@, rows@),
            first <= row <= rows@.len(),
            views(items@) == block_items(text@, first as int, row as int),
        ensures
            row == value_end(text@, first as int),
        decreases rows@.len() - row,
    {
        assert(rows@[row as int].0 <= rows@[row as int].1 <= text@.len());
        let line = text.part(rows[row].0, rows[row].1);
        if !check_continues(line) {
            break;
        }
        let ghost before = views(items@);
        match read_item(line) {
            Some(item) => {
                let ghost view = item@;
                items.push(item);
                assert(views(items@) =~= before.push(view));
            },
            None => {},
        }
        row += 1;
    }
    assert(views(items@).len() == items@.len());
    if items.len() == 0 {
        (FrontmatterValue::Scalar(String::new()), row)
    } else {
        (FrontmatterValue::List(items), row)
    }
}

/// Parses frontmatter, YAML between `---` or TOML between `+++`, into properties: `key: value` and
/// `key = value` lines at the top level, inline `[a, b]` lists, and lists below their key.
pub fn parse_frontmatter_properties(source: &str) -> (result: Vec<FrontmatterProperty>)
    ensures
        property_views(result@) == properties_from(source@, 0),
{
    let text = Text::new(source);
    let ghost s = text@;
    let rows = split_ranges(text.all(), '\n');
    assert(pairs(rows@).len() == lines(s).len());
    assert forall|k: int| 0 <= k < rows@.len() implies lines(s)[k] == (
        (#[trigger] rows@[k]).0 as int,
        rows@[k].1 as int,
    ) by {
        assert(pairs(rows@)[k] == lines(s)[k]);
    }
    let delimiter = to_chars("+++");
    let toml = has_prefix(text.all(), delimiter.as_slice());
    let mut properties: Vec<FrontmatterProperty> = Vec::new();
    let mut row: usize = 0;
    while row < rows.len()
        invariant
            text.wf(),
            s == text@,
            bounds_of_lines(s, rows@),
            row <= rows@.len(),
            toml == is_toml(s),
            properties_from(s, 0) == property_views(properties@) + properties_from(s, row as int),
        decreases rows@.len() - row,
    {
        assert(rows@[row as int].0 <= rows@[row as int].1 <= s.len());
        let (start, end) = rows[row];
        let line = text.part(start, end);
        let at = match find_separator(line, toml) {
            Some(at) => at,
            None => {
                row += 1;
                continue;
            },
        };
        let ghost before = property_views(properties@);
        let ghost from = row as int;
        let key = &line[0..at];
        assert(key@ =~= line@.take(at as int));
        let rest = &line[at + 1..line.len()];
        assert(rest@ =~= line@.skip(at + 1));
        let raw = trimmed(rest);
        let value_span = text.offset(start + at + 1)..text.offset(end);
        let (value, next) = if raw.len() == 0 {
            read_block(&text, &rows, row + 1)
        } else {
            (read_inline(raw), row + 1)
        };
        let property = FrontmatterProperty { key: string_of(trimmed(key)), value_span, value };
        let ghost view = property@;
        assert(view == property_on(s, from, at as int));
        properties.push(property);
        assert(property_views(properties@) =~= before.push(view));
        assert(property_views(properties@) + properties_from(s, next as int) =~= before
            + properties_from(s, from));
        row = next;
    }
    assert(property_views(properties@) =~= properties_from(s, 0));
    properties
}

// ---------------------------------------------------------------------------------------------
// Editing
// ---------------------------------------------------------------------------------------------

/// The first property with a key, from index `k` on.
pub open spec fn property_named(properties: Seq<Property>, key: Seq<char>, k: int) -> Option<Property>
    decreases properties.len() - k,
{
    if k < 0 || k >= properties.len() {
        None
    } else if properties[k].key == key {
        Some(properties[k])
    } else {
        property_named(properties, key, k + 1)
    }
}

/// The byte range, in the frontmatter's source, of the value of the first property with a key,
/// where that is no list.
pub open spec fn scalar_span(source: Seq<char>, key: Seq<char>) -> Option<(int, int)> {
    match property_named(properties_from(source, 0), key, 0) {
        Some(property) => match property.value {
            PropertyValue::Scalar(_) => Some(property.value_span),
            PropertyValue::List(_) => None,
        },
        None => None,
    }
}

/// The byte range of a property's value in the text whose frontmatter is at `start..end`, with what
/// stands there.
pub open spec fn value_at(s: Seq<char>, start: int, end: int, key: Seq<char>) -> Option<
    ((int, int), Seq<char>),
> {
    match slice_at(s, start, end) {
        Some(source) => match scalar_span(source, key) {
            Some(span) => match slice_at(source, span.0, span.1) {
                Some(text) => Some(((start + span.0, start + span.1), text)),
                None => None,
            },
            None => None,
        },
        None => None,
    }
}

fn slice_of(text: &Text, start: usize, end: usize) -> (result: Option<&[char]>)
    requires
        text.wf(),
    ensures
        match result {
            Some(part) => slice_at(text@, start as int, end as int) == Some(part@),
            None => slice_at(text@, start as int, end as int) is None,
        },
{
    if start > end {
        return None;
    }
    match (text.index_of(start), text.index_of(end)) {
        (Some(first), Some(last)) => {
            proof {
                if last < first {
                    lemma_byte_offset_grows(text@, last as int, first as int);
                }
            }
            Some(text.part(first, last))
        },
        _ => None,
    }
}

proof fn lemma_slice_length(s: Seq<char>, start: int, end: int)
    requires
        slice_at(s, start, end) is Some,
    ensures
        start + byte_length(slice_at(s, start, end)->0) == end,
{
    let first = index_at(s, start);
    let last = index_at(s, end);
    if last < first {
        lemma_byte_offset_grows(s, last, first);
    }
    lemma_byte_offset_part(s, first, last, last - first);
}

fn find_scalar(source: &str, key: &str) -> (result: Option<Range<usize>>)
    ensures
        match result {
            Some(range) => scalar_span(source@, key@) == Some(
                (range.start as int, range.end as int),
            ),
            None => scalar_span(source@, key@) is None,
        },
{
    let properties = parse_frontmatter_properties(source);
    let ghost all = properties_from(source@, 0);
    let mut k: usize = 0;
    while k < properties.len()
        invariant
            k <= properties@.len(),
            property_views(properties@) == all,
            all == properties_from(source@, 0),
            property_named(all, key@, 0) == property_named(all, key@, k as int),
        decreases properties@.len() - k,
    {
        let property = &properties[k];
        assert(property_views(properties@)[k as int] == property@);
        if same_text(property.key.as_str(), key) {
            return match &property.value {
                FrontmatterValue::Scalar(_) => Some(
                    property.value_span.start..property.value_span.end,
                ),
                FrontmatterValue::List(_) => None,
            };
        }
        k += 1;
    }
    assert(property_views(properties@).len() == all.len());
    None
}

/// Finds the value of the property with a key in the frontmatter at `start..end`, read from the
/// text as it is now. Returns the byte range from right behind the separator, and its text. `None`
/// where the property is not there or is a list.
pub fn resolve_property_value_span(text: &str, start: usize, end: usize, key: &str) -> (result:
    Option<(Range<usize>, String)>)
    ensures
        match value_at(text@, start as int, end as int, key@) {
            Some((span, value)) => result is Some && {
                let (range, current) = result->0;
                &&& (range.start as int, range.end as int) == span
                &&& current@ == value
            },
            None => result is None,
        },
{
    let whole = Text::new(text);
    let source = match slice_of(&whole, start, end) {
        Some(part) => string_of(part),
        None => {
            return None;
        },
    };
    let span = match find_scalar(source.as_str(), key) {
        Some(span) => span,
        None => {
            return None;
        },
    };
    let part = Text::new(source.as_str());
    match slice_of(&part, span.start, span.end) {
        Some(value) => {
            proof {
                lemma_slice_length(whole@, start as int, end as int);
                let last = index_at(part@, span.end as int);
                lemma_byte_offset_grows(part@, last, part@.len() as int);
            }
            Some((start + span.start..start + span.end, string_of(value)))
        },
        None => None,
    }
}

/// Rewrites the value of the property with a key: returns the byte range to replace and what to put
/// there. `None` where there is no such value.
pub fn set_property_value(text: &str, start: usize, end: usize, key: &str, new_value: &str) -> (
    result: Option<(Range<usize>, String)>)
    ensures
        match value_at(text@, start as int, end as int, key@) {
            Some((span, _)) => result is Some && {
                let (range, replacement) = result->0;
                &&& (range.start as int, range.end as int) == span
                &&& replacement@ == seq![' '] + new_value@
            },
            None => result is None,
        },
{
    match resolve_property_value_span(text, start, end, key) {
        Some((range, _)) => {
            let mut replacement = String::new();
            replacement.push(' ');
            push_text(&mut replacement, new_value);
            assert(replacement@ =~= seq![' '] + new_value@);
            Some((range, replacement))
        },
        None => None,
    }
}

/// The text that a property's value is edited as: its raw value, trimmed. `None` where there is no
/// value to edit.
pub fn start_property_edit(text: &str, start: usize, end: usize, key: &str) -> (result: Option<
    String,
>)
    ensures
        option_view(result) == match value_at(text@, start as int, end as int, key@) {
            Some((_, value)) => Some(trim(value)),
            None => None,
        },
{
    match resolve_property_value_span(text, start, end, key) {
        Some((_, value)) => {
            let chars = to_chars(value.as_str());
            Some(string_of(trimmed(chars.as_slice())))
        },
        None => None,
    }
}

/// What an editor in a properties card edits: the value of a property, or the key of a new one.
#[derive(Clone, Debug)]
pub enum PropertyEditTarget {
    Value { key: String },
    NewKey,
}

/// What a [`PropertyEditTarget`] holds.
pub enum EditTarget {
    Value { key: Seq<char> },
    NewKey,
}

impl View for PropertyEditTarget {
    type V = EditTarget;

    open spec fn view(&self) -> EditTarget {
        match self {
            PropertyEditTarget::Value { key } => EditTarget::Value { key: key@ },
            PropertyEditTarget::NewKey => EditTarget::NewKey,
        }
    }
}

/// A text with its newlines turned into spaces.
pub open spec fn on_one_line(s: Seq<char>) -> Seq<char> {
    Seq::new(
        s.len(),
        |i: int|
            if s[i] == '\n' {
                ' '
            } else {
                s[i]
            },
    )
}

/// An edit of the text: the byte range to replace and what to put there, with the key of the
/// property that it makes, if it makes one.
pub struct Edit {
    pub range: (int, int),
    pub text: Seq<char>,
    pub created: Option<Seq<char>>,
}

/// The key that an edited text names: without the colon one may type behind it. There is none where
/// nothing is left, or where a colon is left inside.
pub open spec fn new_key(edited: Seq<char>) -> Option<Seq<char>> {
    let key = trim(trim_end_by(edited, CharClass::Only(':')));
    if key.len() == 0 || has_char(key, ':') {
        None
    } else {
        Some(key)
    }
}

/// The edit that committing an edited text makes, if it makes one. A new property goes before the
/// closing delimiter, which is the last row of the frontmatter.
pub open spec fn committed_property(
    s: Seq<char>,
    start: int,
    end: int,
    target: EditTarget,
    edited: Seq<char>,
) -> Option<Edit> {
    let new = trim(on_one_line(edited));
    match target {
        EditTarget::Value { key } => match value_at(s, start, end, key) {
            Some((span, current)) => if trim(current) == new {
                None
            } else {
                Some(
                    Edit {
                        range: span,
                        text: if new.len() == 0 {
                            Seq::empty()
                        } else {
                            seq![' '] + new
                        },
                        created: None,
                    },
                )
            },
            None => None,
        },
        EditTarget::NewKey => match new_key(new) {
            Some(key) => {
                let at = byte_offset(s, lines(s)[row_at(s, end)].0) as int;
                Some(Edit { range: (at, at), text: key + ": \n"@, created: Some(key) })
            },
            None => None,
        },
    }
}

/// An edit of the text, with the key of the property that it makes, if it makes one.
#[derive(Debug)]
pub struct PropertyEdit {
    pub range: Range<usize>,
    pub text: String,
    pub created_key: Option<String>,
}

fn flatten_lines(edited: &str) -> (result: Vec<char>)
    ensures
        result@ == on_one_line(edited@),
{
    let chars = to_chars(edited);
    let mut result: Vec<char> = Vec::new();
    let mut i: usize = 0;
    while i < chars.len()
        invariant
            i <= chars@.len(),
            result@ == on_one_line(chars@).take(i as int),
        decreases chars@.len() - i,
    {
        result.push(
            if chars[i] == '\n' {
                ' '
            } else {
                chars[i]
            },
        );
        i += 1;
        assert(result@ =~= on_one_line(chars@).take(i as int));
    }
    assert(result@ =~= on_one_line(chars@));
    result
}

/// Writes a property editor's text back into the frontmatter at `start..end`. Returns the edit to
/// make; `None` where there is nothing to write. An edit that makes a property names its key, so
/// that its value can be edited next.
pub fn commit_active_property(
    text: &str,
    start: usize,
    end: usize,
    target: &PropertyEditTarget,
    edited: &str,
) -> (result: Option<PropertyEdit>)
    requires
        countable(text@),
    ensures
        match committed_property(text@, start as int, end as int, target@, edited@) {
            Some(edit) => result is Some && {
                let made = result->0;
                &&& (made.range.start as int, made.range.end as int) == edit.range
                &&& made.text@ == edit.text
                &&& option_view(made.created_key) == edit.created
            },
            None => result is None,
        },
{
    let flat = flatten_lines(edited);
    let new = trimmed(flat.as_slice());
    match target {
        PropertyEditTarget::Value { key } => {
            let (range, current) = match resolve_property_value_span(
                text,
                start,
                end,
                key.as_str(),
            ) {
                Some(value) => value,
                None => {
                    return None;
                },
            };
            let current = to_chars(current.as_str());
            if same_chars(trimmed(current.as_slice()), new) {
                return None;
            }
            let mut replacement = String::new();
            if new.len() > 0 {
                replacement.push(' ');
                push_chars(&mut replacement, new);
                assert(replacement@ =~= seq![' '] + new@);
            }
            Some(PropertyEdit { range, text: replacement, created_key: None })
        },
        PropertyEditTarget::NewKey => {
            let key = trimmed(trimmed_end(new, CharClass::Only(':')));
            if key.len() == 0 || contains_char(key, ':') {
                return None;
            }
            let document = Document::new(text);
            let at = document.row_start(document.row_of(end));
            let mut line = string_of(key);
            push_text(&mut line, ": \n");
            Some(PropertyEdit { range: at..at, text: line, created_key: Some(string_of(key)) })
        },
    }
}

// ---------------------------------------------------------------------------------------------
// The card
// ---------------------------------------------------------------------------------------------

/// What the value of a property shows as in the card.
#[derive(Debug)]
pub enum PropertyRow {
    /// The editor that is mounted in it.
    Editor,
    /// One pill for each item; a click shows the source.
    Pills,
    /// A checkbox, with what it is set to and what a click sets it to.
    Checkbox { checked: bool, toggled: &'static str },
    /// Its text; a click edits it.
    Text,
    /// A muted "Empty"; a click edits it.
    Empty,
}

/// What the value of a property shows as, where `target` is what is being edited in this card.
pub open spec fn row_shows(property: Property, target: Option<EditTarget>, row: PropertyRow) -> bool {
    let edited = target matches Some(EditTarget::Value { key }) && key == property.key;
    match row {
        PropertyRow::Editor => edited,
        PropertyRow::Pills => !edited && property.value is List,
        PropertyRow::Checkbox { checked, toggled } => !edited && match property.value {
            PropertyValue::Scalar(text) => {
                &&& text == (if checked {
                    "true"@
                } else {
                    "false"@
                })
                &&& toggled@ == (if checked {
                    "false"@
                } else {
                    "true"@
                })
            },
            PropertyValue::List(_) => false,
        },
        PropertyRow::Text => !edited && match property.value {
            PropertyValue::Scalar(text) => text.len() > 0 && text != "true"@ && text != "false"@,
            PropertyValue::List(_) => false,
        },
        PropertyRow::Empty => !edited && match property.value {
            PropertyValue::Scalar(text) => text.len() == 0,
            PropertyValue::List(_) => false,
        },
    }
}

/// What the value of a property shows as in the card, where `target` is what is being edited in
/// this card.
pub fn property_row(property: &FrontmatterProperty, target: &Option<PropertyEditTarget>) -> (result:
    PropertyRow)
    ensures
        row_shows(
            property@,
            match *target {
                Some(target) => Some(target@),
                None => None,
            },
            result,
        ),
{
    let edited = match target {
        Some(PropertyEditTarget::Value { key }) => same_text(key.as_str(), property.key.as_str()),
        _ => false,
    };
    if edited {
        return PropertyRow::Editor;
    }
    match &property.value {
        FrontmatterValue::List(_) => PropertyRow::Pills,
        FrontmatterValue::Scalar(text) => {
            if same_text(text.as_str(), "true") {
                PropertyRow::Checkbox { checked: true, toggled: "false" }
            } else if same_text(text.as_str(), "false") {
                PropertyRow::Checkbox { checked: false, toggled: "true" }
            } else if to_chars(text.as_str()).len() == 0 {
                PropertyRow::Empty
            } else {
                PropertyRow::Text
            }
        },
    }
}

/// Whether the card's last row shows the editor of a new property's key.
pub fn adds_property(target: &Option<PropertyEditTarget>) -> (result: bool)
    ensures
        result == (target matches Some(target) && target@ is NewKey),
{
    matches!(target, Some(PropertyEditTarget::NewKey))
}

} // verus!
