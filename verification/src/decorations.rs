//! Planning a live preview's decorations: which syntax is concealed, which blocks are drawn as
//! widgets where, and which widgets of the last pass can stay.

use crate::callout::{choices, collapsed_at, is_callout_collapsed};
use crate::document::{row_at, Document};
use crate::embed::{reuse_key_of, EmbedState};
use crate::markers::{
    block_marks, inline_marks, BlockLook, BlockMark, BlockMarker, BlockRenderKind, InlineKind,
    InlineLook, InlineMark, InlineMarker,
};
use crate::text::{
    byte_length, byte_offset, find_run_end, index_at, is_boundary, lemma_byte_offset_grows,
    option_view, push_text, run_end, slice_at, spans, string_of, to_chars, trim, trimmed, CharClass,
    Text,
};
use std::ops::Range;
use vstd::prelude::*;

verus! {

// ---------------------------------------------------------------------------------------------
// Selections
// ---------------------------------------------------------------------------------------------

/// Whether two closed ranges have something in common.
pub open spec fn meet(a: (int, int), b: (int, int)) -> bool {
    a.0 <= b.1 && b.0 <= a.1
}

/// Whether a closed range has something in common with one of several.
pub open spec fn meets_any(ranges: Seq<(int, int)>, range: (int, int)) -> bool {
    exists|i: int| 0 <= i < ranges.len() && meet(#[trigger] ranges[i], range)
}

/// Row ranges as specification values.
pub open spec fn row_spans(rows: Seq<Range<u32>>) -> Seq<(int, int)> {
    Seq::new(rows.len(), |i: int| (rows[i].start as int, rows[i].end as int))
}

/// The rows that byte ranges of a text reach over.
pub open spec fn rows_of(s: Seq<char>, ranges: Seq<(int, int)>) -> Seq<(int, int)> {
    Seq::new(ranges.len(), |i: int| (row_at(s, ranges[i].0), row_at(s, ranges[i].1)))
}

/// The selections, with the one that is being made behind the others.
pub open spec fn with_pending(disjoint: Seq<(int, int)>, pending: Option<(int, int)>) -> Seq<
    (int, int),
> {
    match pending {
        Some(range) => disjoint.push(range),
        None => disjoint,
    }
}

/// The byte ranges of the selections, with the one that is being made.
pub fn selection_offset_ranges(disjoint: &Vec<Range<usize>>, pending: &Option<Range<usize>>) -> (
    result: Vec<Range<usize>>)
    ensures
        spans(result@) == with_pending(
            spans(disjoint@),
            match *pending {
                Some(range) => Some((range.start as int, range.end as int)),
                None => None,
            },
        ),
{
    let mut result: Vec<Range<usize>> = Vec::new();
    let ghost all = spans(disjoint@);
    let mut i: usize = 0;
    while i < disjoint.len()
        invariant
            i <= disjoint@.len(),
            all == spans(disjoint@),
            spans(result@) == all.take(i as int),
        decreases disjoint@.len() - i,
    {
        let ghost before = spans(result@);
        result.push(disjoint[i].start..disjoint[i].end);
        assert(spans(result@) =~= before.push(all[i as int]));
        i += 1;
        assert(all.take(i as int) =~= all.take(i - 1).push(all[i - 1]));
    }
    assert(all.take(i as int) =~= all);
    match pending {
        Some(range) => {
            result.push(range.start..range.end);
            assert(spans(result@) =~= all.push((range.start as int, range.end as int)));
        },
        None => {},
    }
    result
}

/// The rows that the selections reach over.
pub fn selection_row_ranges(document: &Document, selections: &Vec<Range<usize>>) -> (result: Vec<
    Range<u32>,
>)
    requires
        document.wf(),
    ensures
        row_spans(result@) == rows_of(document@, spans(selections@)),
{
    let mut result: Vec<Range<u32>> = Vec::new();
    let mut i: usize = 0;
    while i < selections.len()
        invariant
            document.wf(),
            i <= selections@.len(),
            result@.len() == i,
            forall|k: int|
                0 <= k < i ==> (#[trigger] result@[k]).start == row_at(
                    document@,
                    selections@[k].start as int,
                ) && result@[k].end == row_at(document@, selections@[k].end as int),
        decreases selections@.len() - i,
    {
        result.push(document.row_of(selections[i].start)..document.row_of(selections[i].end));
        i += 1;
    }
    assert(row_spans(result@) =~= rows_of(document@, spans(selections@)));
    result
}

/// Whether a run of rows has one in common with a selection.
pub fn rows_intersect(selection_rows: &Vec<Range<u32>>, start_row: u32, end_row: u32) -> (result:
    bool)
    ensures
        result == meets_any(row_spans(selection_rows@), (start_row as int, end_row as int)),
{
    let mut i: usize = 0;
    while i < selection_rows.len()
        invariant
            i <= selection_rows@.len(),
            forall|k: int|
                0 <= k < i ==> !meet(
                    #[trigger] row_spans(selection_rows@)[k],
                    (start_row as int, end_row as int),
                ),
        decreases selection_rows@.len() - i,
    {
        if selection_rows[i].start <= end_row && start_row <= selection_rows[i].end {
            assert(meet(
                row_spans(selection_rows@)[i as int],
                (start_row as int, end_row as int),
            ));
            return true;
        }
        i += 1;
    }
    false
}

/// Whether a byte range touches a selection.
pub fn is_touched(selections: &Vec<Range<usize>>, start: usize, end: usize) -> (result: bool)
    ensures
        result == meets_any(spans(selections@), (start as int, end as int)),
{
    let mut i: usize = 0;
    while i < selections.len()
        invariant
            i <= selections@.len(),
            forall|k: int|
                0 <= k < i ==> !meet(
                    #[trigger] spans(selections@)[k],
                    (start as int, end as int),
                ),
        decreases selections@.len() - i,
    {
        if selections[i].start <= end && start <= selections[i].end {
            assert(meet(spans(selections@)[i as int], (start as int, end as int)));
            return true;
        }
        i += 1;
    }
    false
}

// ---------------------------------------------------------------------------------------------
// Concealments
// ---------------------------------------------------------------------------------------------

/// Where the content of a heading starts, and where its marker ends, both in bytes: behind the
/// indent come as many bytes of marker as the heading has levels, then blanks.
pub open spec fn heading_offsets(source: Seq<char>, level: int) -> (int, int) {
    let length = byte_length(source) as int;
    let indent = byte_offset(source, run_end(source, CharClass::Blank, 0));
    let marker_end = if indent + level < length {
        indent + level
    } else {
        length
    };
    let content_start = if is_boundary(source, marker_end) {
        byte_offset(source, run_end(source, CharClass::Blank, index_at(source, marker_end))) as int
    } else {
        length
    };
    (marker_end, content_start)
}

fn heading_offsets_of(source: &Text, level: u8) -> (result: (usize, usize))
    requires
        source.wf(),
    ensures
        (result.0 as int, result.1 as int) == heading_offsets(source@, level as int),
        result.1 <= byte_length(source@),
{
    let length: usize = source.offset(source.len());
    let blank = find_run_end(source.all(), CharClass::Blank, 0);
    let indent = source.offset(blank);
    proof {
        lemma_byte_offset_grows(source@, blank as int, source@.len() as int);
    }
    let marker_end: usize = if (level as usize) < length - indent {
        indent + level as usize
    } else {
        length
    };
    let content_start = match source.index_of(marker_end) {
        Some(index) => {
            let run = find_run_end(source.all(), CharClass::Blank, index);
            proof {
                lemma_byte_offset_grows(source@, run as int, source@.len() as int);
            }
            source.offset(run)
        },
        None => length,
    };
    (marker_end, content_start)
}

/// Where the marker of a heading ends and where its content starts, in bytes of its source.
pub fn atx_heading_marker_offsets(source: &str, level: u8) -> (result: (usize, usize))
    ensures
        (result.0 as int, result.1 as int) == heading_offsets(source@, level as int),
{
    let source = Text::new(source);
    heading_offsets_of(&source, level)
}

/// The construct that shows again when the selection touches it.
pub open spec fn reveal_span_of(mark: InlineMark) -> (int, int) {
    match mark.look {
        InlineLook::Hide { reveal_span } => reveal_span,
        _ => mark.range,
    }
}

/// Whether an inline marker is concealed: it has a range, and no selection touches its construct.
pub open spec fn is_concealed(mark: InlineMark, selections: Seq<(int, int)>) -> bool {
    mark.range.0 < mark.range.1 && !meets_any(selections, reveal_span_of(mark))
}

/// The indices of the markers, among the first `count`, that are concealed.
pub open spec fn concealed_inline(
    marks: Seq<InlineMark>,
    selections: Seq<(int, int)>,
    count: int,
) -> Seq<int>
    decreases count,
{
    if count <= 0 {
        Seq::empty()
    } else {
        let before = concealed_inline(marks, selections, count - 1);
        if is_concealed(marks[count - 1], selections) {
            before.push(count - 1)
        } else {
            before
        }
    }
}

/// The byte range of a heading's marker, where it is concealed: unless the selection touches the
/// heading. A selection that comes from a search leaves it concealed.
pub open spec fn concealed_marker(
    s: Seq<char>,
    block: BlockMark,
    selections: Seq<(int, int)>,
    from_search: bool,
) -> Option<(int, int)> {
    match (block.look, slice_at(s, block.range.0, block.range.1)) {
        (BlockLook::Heading { level }, Some(source)) => {
            let content_start = heading_offsets(source, level as int).1;
            if content_start == 0 || (!from_search && meets_any(selections, block.range)) {
                None
            } else {
                Some((block.range.0, block.range.0 + content_start))
            }
        },
        _ => None,
    }
}

/// The concealed markers of the headings among the first `count` blocks: each block's index, with
/// the marker's byte range.
pub open spec fn concealed_headings(
    s: Seq<char>,
    blocks: Seq<BlockMark>,
    selections: Seq<(int, int)>,
    from_search: bool,
    count: int,
) -> Seq<(int, (int, int))>
    decreases count,
{
    if count <= 0 {
        Seq::empty()
    } else {
        let before = concealed_headings(s, blocks, selections, from_search, count - 1);
        match concealed_marker(s, blocks[count - 1], selections, from_search) {
            Some(range) => before.push((count - 1, range)),
            None => before,
        }
    }
}

/// The indices as specification values.
pub open spec fn indices(list: Seq<usize>) -> Seq<int> {
    Seq::new(list.len(), |i: int| list[i] as int)
}

/// The indices of the inline markers that are concealed.
pub fn conceal_inline(markers: &Vec<InlineMarker>, selections: &Vec<Range<usize>>) -> (result: Vec<
    usize,
>)
    ensures
        indices(result@) == concealed_inline(
            inline_marks(markers@),
            spans(selections@),
            markers@.len() as int,
        ),
{
    let ghost marks = inline_marks(markers@);
    let mut result: Vec<usize> = Vec::new();
    let mut i: usize = 0;
    while i < markers.len()
        invariant
            i <= markers@.len(),
            marks == inline_marks(markers@),
            indices(result@) == concealed_inline(marks, spans(selections@), i as int),
        decreases markers@.len() - i,
    {
        let marker = &markers[i];
        assert(marks[i as int] == marker@);
        let (start, end) = match &marker.kind {
            InlineKind::Hide { reveal_span } => (reveal_span.start, reveal_span.end),
            _ => (marker.range.start, marker.range.end),
        };
        let ghost before = indices(result@);
        if marker.range.start < marker.range.end && !is_touched(selections, start, end) {
            result.push(i);
            assert(indices(result@) =~= before.push(i as int));
        }
        i += 1;
    }
    result
}

/// The concealed heading markers as specification values.
pub open spec fn heading_marks(list: Seq<(usize, Range<usize>)>) -> Seq<(int, (int, int))> {
    Seq::new(
        list.len(),
        |i: int| (list[i].0 as int, (list[i].1.start as int, list[i].1.end as int)),
    )
}

/// The markers of headings that are concealed: each heading's index among the blocks, with the
/// marker's byte range.
pub fn conceal_headings(
    document: &Document,
    blocks: &Vec<BlockMarker>,
    selections: &Vec<Range<usize>>,
    from_search: bool,
) -> (result: Vec<(usize, Range<usize>)>)
    requires
        document.wf(),
    ensures
        heading_marks(result@) == concealed_headings(
            document@,
            block_marks(blocks@),
            spans(selections@),
            from_search,
            blocks@.len() as int,
        ),
{
    let ghost marks = block_marks(blocks@);
    let ghost s = document@;
    let mut result: Vec<(usize, Range<usize>)> = Vec::new();
    let mut i: usize = 0;
    while i < blocks.len()
        invariant
            document.wf(),
            s == document@,
            i <= blocks@.len(),
            marks == block_marks(blocks@),
            heading_marks(result@) == concealed_headings(
                s,
                marks,
                spans(selections@),
                from_search,
                i as int,
            ),
        decreases blocks@.len() - i,
    {
        let block = &blocks[i];
        assert(marks[i as int] == block@);
        let ghost before = heading_marks(result@);
        match conceal_heading(document, block, selections, from_search) {
            Some(range) => {
                let ghost pair = (i as int, (range.start as int, range.end as int));
                result.push((i, range));
                assert(heading_marks(result@) =~= before.push(pair));
            },
            None => {},
        }
        i += 1;
    }
    result
}

fn conceal_heading(
    document: &Document,
    block: &BlockMarker,
    selections: &Vec<Range<usize>>,
    from_search: bool,
) -> (result: Option<Range<usize>>)
    requires
        document.wf(),
    ensures
        match result {
            Some(range) => concealed_marker(document@, block@, spans(selections@), from_search)
                == Some((range.start as int, range.end as int)),
            None => concealed_marker(document@, block@, spans(selections@), from_search) is None,
        },
{
    let level = match &block.kind {
        BlockRenderKind::Heading { level } => *level,
        _ => {
            return None;
        },
    };
    let (start, end) = (block.range.start, block.range.end);
    let source = match document.slice(start, end) {
        Some(source) => source,
        None => {
            return None;
        },
    };
    let source = string_of(source);
    let text = Text::new(source.as_str());
    let (_, content_start) = heading_offsets_of(&text, level);
    proof {
        document.lemma_slice_length(start, end);
    }
    if content_start == 0 || (!from_search && is_touched(selections, start, end)) {
        return None;
    }
    Some(start..start + content_start)
}

// ---------------------------------------------------------------------------------------------
// Blocks
// ---------------------------------------------------------------------------------------------

/// Whether a block keeps its widget while the selection is in it: a heading, whose widget then shows
/// its source, and a block with controls of its own.
pub open spec fn keeps_widget(look: BlockLook) -> bool {
    look is Heading || look is Table || look is Image || look is Frontmatter
}

/// Whether a block is drawn as a widget, and then whether below its source rather than in its
/// place. A heading always is. The selection brings back the source of most other blocks; a formula
/// then stays below it, and a block with controls of its own stays unless its source was asked for.
pub open spec fn widget_place(
    s: Seq<char>,
    block: BlockMark,
    selection_rows: Seq<(int, int)>,
    revealed: Option<(int, int)>,
) -> Option<bool> {
    let rows = (row_at(s, block.range.0), row_at(s, block.range.1));
    if block.range.0 > block.range.1 {
        None
    } else if block.look is Heading || !meets_any(selection_rows, rows) {
        Some(false)
    } else if block.look is Math {
        Some(true)
    } else if !keeps_widget(block.look) || (revealed matches Some(range) && meet(
        (row_at(s, range.0), row_at(s, range.1)),
        rows,
    )) {
        None
    } else {
        Some(false)
    }
}

/// Whether a widget renders its source as markdown, so that it needs the definitions of the whole
/// text behind it.
pub open spec fn needs_definitions(look: BlockLook) -> bool {
    look is Markdown || look is Image || look is Callout
}

/// What a widget is drawn from: the block's text, with the text's definitions behind it where it
/// needs them. There is none where the block is blank.
pub open spec fn widget_source(s: Seq<char>, block: BlockMark, definitions: Seq<char>) -> Option<
    Seq<char>,
> {
    match slice_at(s, block.range.0, block.range.1) {
        Some(source) => if trim(source).len() == 0 {
            None
        } else if needs_definitions(block.look) && definitions.len() > 0 {
            Some(source + "\n\n"@ + definitions)
        } else {
            Some(source)
        },
        None => None,
    }
}

/// Whether a block is a callout that shows collapsed.
pub open spec fn shows_collapsed(block: BlockMark, chosen: Seq<((int, int), bool)>) -> bool {
    match block.look {
        BlockLook::Callout { collapse, .. } => collapsed_at(
            chosen,
            block.range.0,
            0,
            collapse == Some(true),
        ),
        _ => false,
    }
}

/// Whether a widget shows its block's source as it is written: that of a heading does while the
/// selection is in the heading's rows.
pub open spec fn shows_source_of(
    s: Seq<char>,
    block: BlockMark,
    selection_rows: Seq<(int, int)>,
) -> bool {
    block.look is Heading && meets_any(
        selection_rows,
        (row_at(s, block.range.0), row_at(s, block.range.1)),
    )
}

/// A widget that is wanted on screen: the index of its marker among the blocks, and how it is
/// drawn.
#[derive(Debug)]
pub struct DesiredBlock {
    pub marker: usize,
    pub source: String,
    pub below: bool,
    pub collapsed: bool,
    /// Whether it shows its block's source as it is written.
    pub shows_source: bool,
}

/// What a [`DesiredBlock`] holds.
pub struct Desired {
    pub marker: int,
    pub source: Seq<char>,
    pub below: bool,
    pub collapsed: bool,
    pub shows_source: bool,
}

impl View for DesiredBlock {
    type V = Desired;

    open spec fn view(&self) -> Desired {
        Desired {
            marker: self.marker as int,
            source: self.source@,
            below: self.below,
            collapsed: self.collapsed,
            shows_source: self.shows_source,
        }
    }
}

/// What several wanted widgets hold.
pub open spec fn desired_views(list: Seq<DesiredBlock>) -> Seq<Desired> {
    Seq::new(list.len(), |i: int| list[i]@)
}

/// What the widgets of a pass are planned from.
pub struct Pass {
    pub text: Seq<char>,
    pub blocks: Seq<BlockMark>,
    pub definitions: Seq<char>,
    pub selection_rows: Seq<(int, int)>,
    pub revealed: Option<(int, int)>,
    pub chosen: Seq<((int, int), bool)>,
}

/// The widget that is wanted for the block at an index, if any.
pub open spec fn wanted(pass: Pass, index: int) -> Option<Desired> {
    let block = pass.blocks[index];
    match (
        widget_place(pass.text, block, pass.selection_rows, pass.revealed),
        widget_source(pass.text, block, pass.definitions),
    ) {
        (Some(below), Some(source)) => Some(
            Desired {
                marker: index,
                source,
                below,
                collapsed: shows_collapsed(block, pass.chosen),
                shows_source: shows_source_of(pass.text, block, pass.selection_rows),
            },
        ),
        _ => None,
    }
}

/// The widgets that are wanted for the first `count` blocks.
pub open spec fn all_wanted(pass: Pass, count: int) -> Seq<Desired>
    decreases count,
{
    if count <= 0 {
        Seq::empty()
    } else {
        match wanted(pass, count - 1) {
            Some(desired) => all_wanted(pass, count - 1).push(desired),
            None => all_wanted(pass, count - 1),
        }
    }
}

/// A byte range as a specification value.
pub open spec fn span_of(range: Option<Range<usize>>) -> Option<(int, int)> {
    match range {
        Some(range) => Some((range.start as int, range.end as int)),
        None => None,
    }
}

/// The block whose source was asked for, as long as the selection stays in its rows.
pub open spec fn still_revealed(
    s: Seq<char>,
    revealed: Option<(int, int)>,
    selection_rows: Seq<(int, int)>,
) -> Option<(int, int)> {
    match revealed {
        Some(range) => if meets_any(selection_rows, (row_at(s, range.0), row_at(s, range.1))) {
            Some(range)
        } else {
            None
        },
        None => None,
    }
}

/// The block whose source was asked for, as long as the selection stays in its rows.
pub fn keep_revealed(
    document: &Document,
    revealed: &Option<Range<usize>>,
    selection_rows: &Vec<Range<u32>>,
) -> (result: Option<Range<usize>>)
    requires
        document.wf(),
    ensures
        span_of(result) == still_revealed(
            document@,
            span_of(*revealed),
            row_spans(selection_rows@),
        ),
{
    match revealed {
        Some(range) => {
            let start = document.row_of(range.start);
            let end = document.row_of(range.end);
            if rows_intersect(selection_rows, start, end) {
                Some(range.start..range.end)
            } else {
                None
            }
        },
        None => None,
    }
}

fn place_widget(
    document: &Document,
    block: &BlockMarker,
    selection_rows: &Vec<Range<u32>>,
    revealed: &Option<Range<usize>>,
) -> (result: Option<bool>)
    requires
        document.wf(),
    ensures
        result == widget_place(
            document@,
            block@,
            row_spans(selection_rows@),
            span_of(*revealed),
        ),
{
    if block.range.start > block.range.end {
        return None;
    }
    if let BlockRenderKind::Heading { .. } = &block.kind {
        return Some(false);
    }
    let start = document.row_of(block.range.start);
    let end = document.row_of(block.range.end);
    if !rows_intersect(selection_rows, start, end) {
        return Some(false);
    }
    let explicitly_revealed = match revealed {
        Some(range) => document.row_of(range.start) <= end && start <= document.row_of(range.end),
        None => false,
    };
    match &block.kind {
        BlockRenderKind::Math { .. } => Some(true),
        BlockRenderKind::Table(_)
        | BlockRenderKind::Image { .. }
        | BlockRenderKind::Frontmatter => if explicitly_revealed {
            None
        } else {
            Some(false)
        },
        _ => None,
    }
}

fn source_of_widget(document: &Document, block: &BlockMarker, definitions: &str) -> (result: Option<
    String,
>)
    requires
        document.wf(),
    ensures
        option_view(result) == widget_source(document@, block@, definitions@),
{
    let part = match document.slice(block.range.start, block.range.end) {
        Some(part) => part,
        None => {
            return None;
        },
    };
    if trimmed(part).len() == 0 {
        return None;
    }
    let mut source = string_of(part);
    let with_definitions = match &block.kind {
        BlockRenderKind::Markdown
        | BlockRenderKind::Image { .. }
        | BlockRenderKind::Callout { .. } => to_chars(definitions).len() > 0,
        _ => false,
    };
    if with_definitions {
        push_text(&mut source, "\n\n");
        push_text(&mut source, definitions);
    }
    Some(source)
}

fn source_is_shown(
    document: &Document,
    block: &BlockMarker,
    selection_rows: &Vec<Range<u32>>,
) -> (result: bool)
    requires
        document.wf(),
    ensures
        result == shows_source_of(document@, block@, row_spans(selection_rows@)),
{
    match &block.kind {
        BlockRenderKind::Heading { .. } => {
            let start = document.row_of(block.range.start);
            let end = document.row_of(block.range.end);
            rows_intersect(selection_rows, start, end)
        },
        _ => false,
    }
}

fn collapsed_of(block: &BlockMarker, chosen: &Vec<(Range<usize>, bool)>) -> (result: bool)
    ensures
        result == shows_collapsed(block@, choices(chosen@)),
{
    match &block.kind {
        BlockRenderKind::Callout { collapse, .. } => is_callout_collapsed(
            chosen,
            block.range.start,
            *collapse,
        ),
        _ => false,
    }
}

/// The widgets that are wanted on screen. The widget of an embed is drawn from the note it points
/// at: see [`DesiredBlock::show_embed`].
pub fn desired_blocks(
    document: &Document,
    blocks: &Vec<BlockMarker>,
    definitions: &str,
    selection_rows: &Vec<Range<u32>>,
    revealed: &Option<Range<usize>>,
    chosen: &Vec<(Range<usize>, bool)>,
) -> (result: Vec<DesiredBlock>)
    requires
        document.wf(),
    ensures
        desired_views(result@) == all_wanted(
            (Pass {
                text: document@,
                blocks: block_marks(blocks@),
                definitions: definitions@,
                selection_rows: row_spans(selection_rows@),
                revealed: span_of(*revealed),
                chosen: choices(chosen@),
            }),
            blocks@.len() as int,
        ),
        forall|k: int| 0 <= k < result@.len() ==> (#[trigger] result@[k]).marker < blocks@.len(),
{
    let ghost pass = Pass {
        text: document@,
        blocks: block_marks(blocks@),
        definitions: definitions@,
        selection_rows: row_spans(selection_rows@),
        revealed: span_of(*revealed),
        chosen: choices(chosen@),
    };
    let mut result: Vec<DesiredBlock> = Vec::new();
    let mut i: usize = 0;
    while i < blocks.len()
        invariant
            document.wf(),
            i <= blocks@.len(),
            pass == (Pass {
                text: document@,
                blocks: block_marks(blocks@),
                definitions: definitions@,
                selection_rows: row_spans(selection_rows@),
                revealed: span_of(*revealed),
                chosen: choices(chosen@),
            }),
            desired_views(result@) == all_wanted(pass, i as int),
            forall|k: int| 0 <= k < result@.len() ==> (#[trigger] result@[k]).marker < i,
        decreases blocks@.len() - i,
    {
        let block = &blocks[i];
        assert(pass.blocks[i as int] == block@);
        let ghost before = desired_views(result@);
        match (
            place_widget(document, block, selection_rows, revealed),
            source_of_widget(document, block, definitions),
        ) {
            (Some(below), Some(source)) => {
                let desired = DesiredBlock {
                    marker: i,
                    source,
                    below,
                    collapsed: collapsed_of(block, chosen),
                    shows_source: source_is_shown(document, block, selection_rows),
                };
                let ghost view = desired@;
                result.push(desired);
                assert(desired_views(result@) =~= before.push(view));
            },
            _ => {},
        }
        i += 1;
    }
    result
}

impl DesiredBlock {
    /// Has an embed's widget drawn from what the embed shows, in place of its source.
    pub fn show_embed(&mut self, state: &EmbedState)
        ensures
            final(self)@ == (Desired { source: reuse_key_of(state@), ..old(self)@ }),
    {
        self.source = state.reuse_key();
    }
}

/// Where a widget goes: below its source, or in its place.
#[derive(Clone, Copy, Debug, PartialEq, Eq, Structural)]
pub enum BlockPlacement {
    Below(usize),
    Replace(usize, usize),
}

/// Where a widget goes for a block at a byte range.
pub fn placement(range: &Range<usize>, below: bool) -> (result: BlockPlacement)
    ensures
        result == (if below {
            BlockPlacement::Below(range.end)
        } else {
            BlockPlacement::Replace(range.start, range.end)
        }),
{
    if below {
        BlockPlacement::Below(range.end)
    } else {
        BlockPlacement::Replace(range.start, range.end)
    }
}

} // verus!
