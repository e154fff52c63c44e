//! What a live preview decorates: syntax to hide or replace inline, blocks to draw as widgets, and
//! ranges to restyle. Every range is a byte range of the text.

use crate::callout::CalloutKind;
use crate::table::{TableShape, TableStructure};
use crate::text::{clone_option, option_view, spans};
use std::ops::Range;
use vstd::prelude::*;

verus! {

/// Whether a formula is set within a line or on lines of its own.
#[derive(Clone, Copy, Debug, PartialEq, Eq, Hash, Structural)]
pub enum MathStyle {
    Inline,
    Display,
}

/// How an inline marker shows when its source does not.
#[derive(Debug)]
pub enum InlineKind {
    /// Syntax to hide: it shows again when the selection touches `reveal_span`, the whole
    /// construct.
    Hide { reveal_span: Range<usize> },
    /// An unordered list marker, shown as a bullet.
    Bullet,
    /// A task list marker, shown as a checkbox. `marker_range` is the `[ ]` itself.
    Checkbox { checked: bool, marker_range: Range<usize> },
    /// A footnote reference, shown as a raised label.
    Footnote { label: String },
    /// A formula, shown typeset.
    Math { source: String, style: MathStyle },
}

/// A stretch of a line that shows in another way than its source.
#[derive(Debug)]
pub struct InlineMarker {
    pub range: Range<usize>,
    pub kind: InlineKind,
}

/// How a block shows.
#[derive(Debug)]
pub enum BlockRenderKind {
    /// As rendered markdown.
    Markdown,
    /// A heading, which stays styled while it is edited.
    Heading { level: u8 },
    /// A divider.
    Rule,
    /// A properties card.
    Frontmatter,
    /// An editable grid.
    Table(TableStructure),
    /// An image. `display_width` is the width its size syntax asks for, in decimal digits that are
    /// not all zero.
    Image { display_width: Option<String>, destination: Option<String>, alt: String },
    /// A card that holds another note, or one section of it.
    Embed { target: String, section: Option<String> },
    /// A callout card. `collapse` is `None` where the callout cannot be collapsed.
    Callout { kind: CalloutKind, title: String, collapse: Option<bool> },
    /// A centered formula.
    Math { source: String },
}

/// A run of whole lines, or an image, that shows as a widget.
#[derive(Debug)]
pub struct BlockMarker {
    pub range: Range<usize>,
    pub height_estimate: u32,
    pub kind: BlockRenderKind,
    /// The columns of white space before the block's first line.
    pub indent_columns: u32,
}

/// What an [`InlineKind`] holds.
pub enum InlineLook {
    Hide { reveal_span: (int, int) },
    Bullet,
    Checkbox { checked: bool, marker_range: (int, int) },
    Footnote { label: Seq<char> },
    Math { source: Seq<char>, style: MathStyle },
}

/// What an [`InlineMarker`] holds.
pub struct InlineMark {
    pub range: (int, int),
    pub look: InlineLook,
}

/// What a [`BlockRenderKind`] holds.
pub enum BlockLook {
    Markdown,
    Heading { level: u8 },
    Rule,
    Frontmatter,
    Table(TableShape),
    Image {
        display_width: Option<Seq<char>>,
        destination: Option<Seq<char>>,
        alt: Seq<char>,
    },
    Embed { target: Seq<char>, section: Option<Seq<char>> },
    Callout { kind: CalloutKind, title: Seq<char>, collapse: Option<bool> },
    Math { source: Seq<char> },
}

/// What a [`BlockMarker`] holds.
pub struct BlockMark {
    pub range: (int, int),
    pub height_estimate: int,
    pub look: BlockLook,
    pub indent_columns: int,
}

impl View for InlineKind {
    type V = InlineLook;

    open spec fn view(&self) -> InlineLook {
        match self {
            InlineKind::Hide { reveal_span } => InlineLook::Hide {
                reveal_span: (reveal_span.start as int, reveal_span.end as int),
            },
            InlineKind::Bullet => InlineLook::Bullet,
            InlineKind::Checkbox { checked, marker_range } => InlineLook::Checkbox {
                checked: *checked,
                marker_range: (marker_range.start as int, marker_range.end as int),
            },
            InlineKind::Footnote { label } => InlineLook::Footnote { label: label@ },
            InlineKind::Math { source, style } => InlineLook::Math {
                source: source@,
                style: *style,
            },
        }
    }
}

impl View for InlineMarker {
    type V = InlineMark;

    open spec fn view(&self) -> InlineMark {
        InlineMark {
            range: (self.range.start as int, self.range.end as int),
            look: self.kind@,
        }
    }
}

impl View for BlockRenderKind {
    type V = BlockLook;

    open spec fn view(&self) -> BlockLook {
        match self {
            BlockRenderKind::Markdown => BlockLook::Markdown,
            BlockRenderKind::Heading { level } => BlockLook::Heading { level: *level },
            BlockRenderKind::Rule => BlockLook::Rule,
            BlockRenderKind::Frontmatter => BlockLook::Frontmatter,
            BlockRenderKind::Table(structure) => BlockLook::Table(structure@),
            BlockRenderKind::Image { display_width, destination, alt } => BlockLook::Image {
                display_width: option_view(*display_width),
                destination: option_view(*destination),
                alt: alt@,
            },
            BlockRenderKind::Embed { target, section } => BlockLook::Embed {
                target: target@,
                section: option_view(*section),
            },
            BlockRenderKind::Callout { kind, title, collapse } => BlockLook::Callout {
                kind: *kind,
                title: title@,
                collapse: *collapse,
            },
            BlockRenderKind::Math { source } => BlockLook::Math { source: source@ },
        }
    }
}

impl View for BlockMarker {
    type V = BlockMark;

    open spec fn view(&self) -> BlockMark {
        BlockMark {
            range: (self.range.start as int, self.range.end as int),
            height_estimate: self.height_estimate as int,
            look: self.kind@,
            indent_columns: self.indent_columns as int,
        }
    }
}

impl Clone for InlineKind {
    fn clone(&self) -> (result: Self)
        ensures
            result@ == self@,
    {
        match self {
            InlineKind::Hide { reveal_span } => InlineKind::Hide {
                reveal_span: reveal_span.start..reveal_span.end,
            },
            InlineKind::Bullet => InlineKind::Bullet,
            InlineKind::Checkbox { checked, marker_range } => InlineKind::Checkbox {
                checked: *checked,
                marker_range: marker_range.start..marker_range.end,
            },
            InlineKind::Footnote { label } => InlineKind::Footnote { label: label.clone() },
            InlineKind::Math { source, style } => InlineKind::Math {
                source: source.clone(),
                style: *style,
            },
        }
    }
}

impl Clone for InlineMarker {
    fn clone(&self) -> (result: Self)
        ensures
            result@ == self@,
    {
        InlineMarker { range: self.range.start..self.range.end, kind: self.kind.clone() }
    }
}

impl Clone for BlockRenderKind {
    fn clone(&self) -> (result: Self)
        ensures
            result@ == self@,
    {
        match self {
            BlockRenderKind::Markdown => BlockRenderKind::Markdown,
            BlockRenderKind::Heading { level } => BlockRenderKind::Heading { level: *level },
            BlockRenderKind::Rule => BlockRenderKind::Rule,
            BlockRenderKind::Frontmatter => BlockRenderKind::Frontmatter,
            BlockRenderKind::Table(structure) => BlockRenderKind::Table(structure.clone()),
            BlockRenderKind::Image { display_width, destination, alt } => BlockRenderKind::Image {
                display_width: clone_option(display_width),
                destination: clone_option(destination),
                alt: alt.clone(),
            },
            BlockRenderKind::Embed { target, section } => BlockRenderKind::Embed {
                target: target.clone(),
                section: clone_option(section),
            },
            BlockRenderKind::Callout { kind, title, collapse } => BlockRenderKind::Callout {
                kind: *kind,
                title: title.clone(),
                collapse: *collapse,
            },
            BlockRenderKind::Math { source } => BlockRenderKind::Math { source: source.clone() },
        }
    }
}

impl Clone for BlockMarker {
    fn clone(&self) -> (result: Self)
        ensures
            result@ == self@,
    {
        BlockMarker {
            range: self.range.start..self.range.end,
            height_estimate: self.height_estimate,
            kind: self.kind.clone(),
            indent_columns: self.indent_columns,
        }
    }
}

/// What several inline markers hold.
pub open spec fn inline_marks(markers: Seq<InlineMarker>) -> Seq<InlineMark> {
    Seq::new(markers.len(), |i: int| markers[i]@)
}

/// What several block markers hold.
pub open spec fn block_marks(markers: Seq<BlockMarker>) -> Seq<BlockMark> {
    Seq::new(markers.len(), |i: int| markers[i]@)
}

/// Everything in one text that a live preview decorates.
#[derive(Debug)]
pub struct MarkerSet {
    pub inline: Vec<InlineMarker>,
    /// In order, and without overlaps.
    pub blocks: Vec<BlockMarker>,
    /// Struck text.
    pub strikethrough: Vec<Range<usize>>,
    /// Emphasized text.
    pub italic: Vec<Range<usize>>,
    /// Strongly emphasized text.
    pub bold: Vec<Range<usize>>,
    /// The visible text of links.
    pub link_text: Vec<Range<usize>>,
    /// The reference definitions of the text, one on each line.
    pub definitions: String,
    /// Where the definitions stand.
    pub definition_ranges: Vec<Range<usize>>,
    /// The markers of ordered lists.
    pub ordered_markers: Vec<Range<usize>>,
    /// Citation keys with their `@`.
    pub citations: Vec<Range<usize>>,
    /// The bodies of highlight marks.
    pub highlights: Vec<Range<usize>>,
    /// Tags with their `#`.
    pub tags: Vec<Range<usize>>,
}

/// A copy of byte ranges.
pub fn copy_ranges(ranges: &Vec<Range<usize>>) -> (result: Vec<Range<usize>>)
    ensures
        spans(result@) == spans(ranges@),
{
    let mut result: Vec<Range<usize>> = Vec::new();
    let ghost all = spans(ranges@);
    let mut i: usize = 0;
    while i < ranges.len()
        invariant
            i <= ranges@.len(),
            all == spans(ranges@),
            spans(result@) == all.take(i as int),
        decreases ranges@.len() - i,
    {
        let ghost before = spans(result@);
        result.push(ranges[i].start..ranges[i].end);
        assert(spans(result@) =~= before.push(all[i as int]));
        i += 1;
        assert(all.take(i as int) =~= all.take(i - 1).push(all[i - 1]));
    }
    assert(all.take(i as int) =~= all);
    result
}

fn clone_inline(markers: &Vec<InlineMarker>) -> (result: Vec<InlineMarker>)
    ensures
        inline_marks(result@) == inline_marks(markers@),
{
    let mut result: Vec<InlineMarker> = Vec::new();
    let mut i: usize = 0;
    while i < markers.len()
        invariant
            i <= markers@.len(),
            result@.len() == i,
            forall|k: int| 0 <= k < i ==> (#[trigger] result@[k])@ == markers@[k]@,
        decreases markers@.len() - i,
    {
        result.push(markers[i].clone());
        i += 1;
    }
    assert(inline_marks(result@) =~= inline_marks(markers@));
    result
}

fn clone_blocks(markers: &Vec<BlockMarker>) -> (result: Vec<BlockMarker>)
    ensures
        block_marks(result@) == block_marks(markers@),
{
    let mut result: Vec<BlockMarker> = Vec::new();
    let mut i: usize = 0;
    while i < markers.len()
        invariant
            i <= markers@.len(),
            result@.len() == i,
            forall|k: int| 0 <= k < i ==> (#[trigger] result@[k])@ == markers@[k]@,
        decreases markers@.len() - i,
    {
        result.push(markers[i].clone());
        i += 1;
    }
    assert(block_marks(result@) =~= block_marks(markers@));
    result
}

impl Clone for MarkerSet {
    fn clone(&self) -> (result: Self)
        ensures
            inline_marks(result.inline@) == inline_marks(self.inline@),
            block_marks(result.blocks@) == block_marks(self.blocks@),
            spans(result.strikethrough@) == spans(self.strikethrough@),
            spans(result.italic@) == spans(self.italic@),
            spans(result.bold@) == spans(self.bold@),
            spans(result.link_text@) == spans(self.link_text@),
            result.definitions@ == self.definitions@,
            spans(result.definition_ranges@) == spans(self.definition_ranges@),
            spans(result.ordered_markers@) == spans(self.ordered_markers@),
            spans(result.citations@) == spans(self.citations@),
            spans(result.highlights@) == spans(self.highlights@),
            spans(result.tags@) == spans(self.tags@),
    {
        MarkerSet {
            inline: clone_inline(&self.inline),
            blocks: clone_blocks(&self.blocks),
            strikethrough: copy_ranges(&self.strikethrough),
            italic: copy_ranges(&self.italic),
            bold: copy_ranges(&self.bold),
            link_text: copy_ranges(&self.link_text),
            definitions: self.definitions.clone(),
            definition_ranges: copy_ranges(&self.definition_ranges),
            ordered_markers: copy_ranges(&self.ordered_markers),
            citations: copy_ranges(&self.citations),
            highlights: copy_ranges(&self.highlights),
            tags: copy_ranges(&self.tags),
        }
    }
}

} // verus!
