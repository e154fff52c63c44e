//! The ranges that a preview restyles, and how.

use crate::markers::{
    block_marks, copy_ranges, BlockLook, BlockMark, BlockMarker, BlockRenderKind, MarkerSet,
};
use crate::text::spans;
use std::ops::Range;
use vstd::prelude::*;

verus! {

/// The key of the highlights of struck text.
pub const STRIKE: usize = 0;

/// The key of the highlights of emphasized text.
pub const ITALIC: usize = 1;

/// The key of the highlights of strongly emphasized text.
pub const BOLD: usize = 2;

/// The key of the highlights of link texts.
pub const LINK: usize = 3;

/// The key of the highlights of definitions.
pub const DEFINITION: usize = 4;

/// The key of the highlights of ordered list markers.
pub const ORDERED_MARKER: usize = 5;

/// The key of the highlights of citation keys.
pub const CITATION: usize = 6;

/// The key of the highlights of highlighted text.
pub const HIGHLIGHT: usize = 7;

/// The key of the highlights of tags.
pub const TAG: usize = 8;

/// The key of the highlights of citation keys that no entry of the bibliography has.
pub const UNRESOLVED: usize = 9;

/// Behind this key, the key of the highlights of headings of each level.
pub const HEADING_STYLE_BASE: usize = 100;

/// A text color, as a role of the theme's palette.
#[derive(Clone, Copy, Debug, PartialEq, Eq, Structural)]
pub enum TextColor {
    Text,
    Accent,
    Muted,
    Error,
}

/// A background, as a role of the theme's palette.
#[derive(Clone, Copy, Debug, PartialEq, Eq, Structural)]
pub enum Background {
    Reference,
    Highlighter,
    Tag,
}

/// How highlighted text looks. What is not given stays as the theme has it.
#[derive(Clone, Copy, Debug, PartialEq, Eq, Structural)]
pub struct HighlightLook {
    pub color: Option<TextColor>,
    pub background: Option<Background>,
    /// Slanted where `true`, upright where `false`.
    pub slanted: Option<bool>,
    pub bold: bool,
    pub struck: bool,
}

/// How the text of a key's highlights looks.
pub open spec fn look_of(key: int) -> HighlightLook {
    let plain = HighlightLook {
        color: None,
        background: None,
        slanted: None,
        bold: false,
        struck: false,
    };
    if key == STRIKE {
        HighlightLook { struck: true, ..plain }
    } else if key == ITALIC {
        HighlightLook { color: Some(TextColor::Text), slanted: Some(true), ..plain }
    } else if key == BOLD {
        HighlightLook { color: Some(TextColor::Text), bold: true, ..plain }
    } else if key == LINK {
        HighlightLook { color: Some(TextColor::Accent), slanted: Some(false), ..plain }
    } else if key == DEFINITION {
        HighlightLook { color: Some(TextColor::Muted), slanted: Some(false), ..plain }
    } else if key == ORDERED_MARKER {
        HighlightLook { color: Some(TextColor::Text), ..plain }
    } else if key == CITATION {
        HighlightLook {
            color: Some(TextColor::Accent),
            background: Some(Background::Reference),
            slanted: Some(false),
            ..plain
        }
    } else if key == HIGHLIGHT {
        HighlightLook {
            color: Some(TextColor::Text),
            background: Some(Background::Highlighter),
            ..plain
        }
    } else if key == TAG {
        HighlightLook {
            color: Some(TextColor::Accent),
            background: Some(Background::Tag),
            slanted: Some(false),
            ..plain
        }
    } else if key == UNRESOLVED {
        HighlightLook {
            color: Some(TextColor::Error),
            background: Some(Background::Reference),
            slanted: Some(false),
            ..plain
        }
    } else {
        plain
    }
}

/// Of the first `count` ranges, those that are not among the ones to leave out.
pub open spec fn apart_from(
    ranges: Seq<(int, int)>,
    left_out: Seq<(int, int)>,
    count: int,
) -> Seq<(int, int)>
    decreases count,
{
    if count <= 0 {
        Seq::empty()
    } else if left_out.contains(ranges[count - 1]) {
        apart_from(ranges, left_out, count - 1)
    } else {
        apart_from(ranges, left_out, count - 1).push(ranges[count - 1])
    }
}

/// The ranges of a key's highlights, where `unresolved` are the citations with a key that no entry
/// of the bibliography has.
pub open spec fn ranges_of(
    markers: MarkerSet,
    unresolved: Seq<(int, int)>,
    key: int,
) -> Seq<(int, int)> {
    if key == STRIKE {
        spans(markers.strikethrough@)
    } else if key == ITALIC {
        spans(markers.italic@)
    } else if key == BOLD {
        spans(markers.bold@)
    } else if key == LINK {
        spans(markers.link_text@)
    } else if key == DEFINITION {
        spans(markers.definition_ranges@)
    } else if key == ORDERED_MARKER {
        spans(markers.ordered_markers@)
    } else if key == CITATION {
        apart_from(spans(markers.citations@), unresolved, markers.citations@.len() as int)
    } else if key == HIGHLIGHT {
        spans(markers.highlights@)
    } else if key == TAG {
        spans(markers.tags@)
    } else if key == UNRESOLVED {
        unresolved
    } else {
        Seq::empty()
    }
}

/// The highlights of one key. Where there are no ranges, the key's highlights are cleared.
#[derive(Debug)]
pub struct HighlightSet {
    pub key: usize,
    pub ranges: Vec<Range<usize>>,
    pub look: HighlightLook,
}

/// How the text of a key's highlights looks.
pub fn highlight_look(key: usize) -> (result: HighlightLook)
    ensures
        result == look_of(key as int),
{
    let (color, background, slanted): (Option<TextColor>, Option<Background>, Option<bool>) =
        if key == ITALIC {
        (Some(TextColor::Text), None, Some(true))
    } else if key == BOLD || key == ORDERED_MARKER {
        (Some(TextColor::Text), None, None)
    } else if key == LINK {
        (Some(TextColor::Accent), None, Some(false))
    } else if key == DEFINITION {
        (Some(TextColor::Muted), None, Some(false))
    } else if key == CITATION {
        (Some(TextColor::Accent), Some(Background::Reference), Some(false))
    } else if key == HIGHLIGHT {
        (Some(TextColor::Text), Some(Background::Highlighter), None)
    } else if key == TAG {
        (Some(TextColor::Accent), Some(Background::Tag), Some(false))
    } else if key == UNRESOLVED {
        (Some(TextColor::Error), Some(Background::Reference), Some(false))
    } else {
        (None, None, None)
    };
    HighlightLook { color, background, slanted, bold: key == BOLD, struck: key == STRIKE }
}

fn is_among(ranges: &Vec<Range<usize>>, start: usize, end: usize) -> (result: bool)
    ensures
        result == spans(ranges@).contains((start as int, end as int)),
{
    let mut i: usize = 0;
    while i < ranges.len()
        invariant
            i <= ranges@.len(),
            forall|k: int| 0 <= k < i ==> #[trigger] spans(ranges@)[k] != (start as int, end as int),
        decreases ranges@.len() - i,
    {
        if ranges[i].start == start && ranges[i].end == end {
            assert(spans(ranges@)[i as int] == (start as int, end as int));
            return true;
        }
        i += 1;
    }
    false
}

fn copy_others(ranges: &Vec<Range<usize>>, left_out: &Vec<Range<usize>>) -> (result: Vec<
    Range<usize>,
>)
    ensures
        spans(result@) == apart_from(spans(ranges@), spans(left_out@), ranges@.len() as int),
{
    let mut result: Vec<Range<usize>> = Vec::new();
    let ghost all = spans(ranges@);
    let mut i: usize = 0;
    assert(spans(result@) =~= Seq::empty());
    while i < ranges.len()
        invariant
            i <= ranges@.len(),
            all == spans(ranges@),
            spans(result@) == apart_from(all, spans(left_out@), i as int),
        decreases ranges@.len() - i,
    {
        let start: usize = ranges[i].start;
        let end: usize = ranges[i].end;
        assert(all[i as int] == (start as int, end as int));
        if !is_among(left_out, start, end) {
            let ghost before = spans(result@);
            result.push(start..end);
            assert(spans(result@) =~= before.push(all[i as int]));
        }
        i += 1;
    }
    result
}

fn ranges_for(markers: &MarkerSet, unresolved: &Vec<Range<usize>>, key: usize) -> (result: Vec<
    Range<usize>,
>)
    ensures
        spans(result@) == ranges_of(*markers, spans(unresolved@), key as int),
{
    if key == STRIKE {
        copy_ranges(&markers.strikethrough)
    } else if key == ITALIC {
        copy_ranges(&markers.italic)
    } else if key == BOLD {
        copy_ranges(&markers.bold)
    } else if key == LINK {
        copy_ranges(&markers.link_text)
    } else if key == DEFINITION {
        copy_ranges(&markers.definition_ranges)
    } else if key == ORDERED_MARKER {
        copy_ranges(&markers.ordered_markers)
    } else if key == CITATION {
        copy_others(&markers.citations, unresolved)
    } else if key == HIGHLIGHT {
        copy_ranges(&markers.highlights)
    } else if key == TAG {
        copy_ranges(&markers.tags)
    } else if key == UNRESOLVED {
        copy_ranges(unresolved)
    } else {
        let result: Vec<Range<usize>> = Vec::new();
        assert(spans(result@) =~= Seq::empty());
        result
    }
}

/// The highlights of every key, in the order of the keys, where `unresolved` are the citations with a
/// key that no entry of the bibliography has. Without markers there are none.
pub fn emphasis_highlights(markers: Option<&MarkerSet>, unresolved: &Vec<Range<usize>>) -> (result:
    Vec<HighlightSet>)
    ensures
        result@.len() == UNRESOLVED + 1,
        forall|key: int|
            0 <= key <= UNRESOLVED ==> {
                &&& (#[trigger] result@[key]).key == key
                &&& result@[key].look == look_of(key)
                &&& spans(result@[key].ranges@) == match markers {
                    Some(markers) => ranges_of(*markers, spans(unresolved@), key),
                    None => Seq::empty(),
                }
            },
{
    let mut result: Vec<HighlightSet> = Vec::new();
    let mut key: usize = 0;
    while key <= UNRESOLVED
        invariant
            key <= UNRESOLVED + 1,
            result@.len() == key,
            forall|k: int|
                0 <= k < key ==> {
                    &&& (#[trigger] result@[k]).key == k
                    &&& result@[k].look == look_of(k)
                    &&& spans(result@[k].ranges@) == match markers {
                        Some(markers) => ranges_of(*markers, spans(unresolved@), k),
                        None => Seq::empty(),
                    }
                },
        decreases UNRESOLVED + 1 - key,
    {
        let ranges = match markers {
            Some(markers) => ranges_for(markers, unresolved, key),
            None => {
                let none: Vec<Range<usize>> = Vec::new();
                assert(spans(none@) =~= Seq::empty());
                none
            },
        };
        result.push(HighlightSet { key, ranges, look: highlight_look(key) });
        key += 1;
    }
    result
}

/// The ranges of the headings of a level among the first `count` blocks.
pub open spec fn heading_ranges(blocks: Seq<BlockMark>, level: u8, count: int) -> Seq<(int, int)>
    decreases count,
{
    if count <= 0 {
        Seq::empty()
    } else {
        let before = heading_ranges(blocks, level, count - 1);
        if blocks[count - 1].look == (BlockLook::Heading { level }) {
            before.push(blocks[count - 1].range)
        } else {
            before
        }
    }
}

/// The byte ranges of the headings of a level, whose lines are styled.
pub fn heading_line_ranges(blocks: &Vec<BlockMarker>, level: u8) -> (result: Vec<Range<usize>>)
    ensures
        spans(result@) == heading_ranges(block_marks(blocks@), level, blocks@.len() as int),
{
    let ghost marks = block_marks(blocks@);
    let mut result: Vec<Range<usize>> = Vec::new();
    let mut i: usize = 0;
    while i < blocks.len()
        invariant
            i <= blocks@.len(),
            marks == block_marks(blocks@),
            spans(result@) == heading_ranges(marks, level, i as int),
        decreases blocks@.len() - i,
    {
        let block = &blocks[i];
        assert(marks[i as int] == block@);
        let ghost before = spans(result@);
        let is_heading = match &block.kind {
            BlockRenderKind::Heading { level: of } => *of == level,
            _ => false,
        };
        if is_heading {
            result.push(block.range.start..block.range.end);
            assert(spans(result@) =~= before.push(block@.range));
        }
        i += 1;
    }
    result
}

/// The key of the highlights of headings of a level.
pub fn heading_key(level: u8) -> (result: usize)
    ensures
        result == HEADING_STYLE_BASE + level,
{
    HEADING_STYLE_BASE + level as usize
}

} // verus!
