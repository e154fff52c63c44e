//! Finding what to decorate in the syntax trees of a text.

use crate::callout::{callout_header, parse_header};
use crate::document::{indent_of, node_rows, node_text, row_at, rows_span, Document};
use crate::markers::{
    block_marks, inline_marks, BlockLook, BlockMark, BlockMarker, BlockRenderKind, InlineKind,
    InlineLook, InlineMark, InlineMarker,
};
use crate::syntax::{
    heading_level, level_from, nodes_of, push_children, sizes, NodeKind, SyntaxNode,
};
use crate::table::table_near;
use crate::text::{
    byte_offset, found, lemma_run_start, lines, pairs, piece, spans, string_of, text_line_ranges,
    text_lines, trim_end_by, trimmed_end, views, CharClass,
};
use std::ops::Range;
use vstd::prelude::*;

verus! {

/// What has been found so far. All ranges are byte ranges of the text.
pub struct Extraction {
    /// Where prose stands, and the code spans in it.
    pub prose_regions: Vec<Range<usize>>,
    pub code_spans: Vec<Range<usize>>,
    /// The last row of the table that was found last.
    pub last_table_end_row: Option<u32>,
    pub inline: Vec<InlineMarker>,
    pub blocks: Vec<BlockMarker>,
    pub strikethrough: Vec<Range<usize>>,
    pub italic: Vec<Range<usize>>,
    pub bold: Vec<Range<usize>>,
    pub link_text: Vec<Range<usize>>,
    pub definitions: Vec<String>,
    pub definition_ranges: Vec<Range<usize>>,
    pub ordered_markers: Vec<Range<usize>>,
    pub citations: Vec<Range<usize>>,
    pub highlights: Vec<Range<usize>>,
    pub tags: Vec<Range<usize>>,
}

/// What an [`Extraction`] holds.
#[verifier::ext_equal]
pub struct Marks {
    pub prose_regions: Seq<(int, int)>,
    pub code_spans: Seq<(int, int)>,
    pub last_table_end_row: Option<int>,
    pub inline: Seq<InlineMark>,
    pub blocks: Seq<BlockMark>,
    pub strikethrough: Seq<(int, int)>,
    pub italic: Seq<(int, int)>,
    pub bold: Seq<(int, int)>,
    pub link_text: Seq<(int, int)>,
    pub definitions: Seq<Seq<char>>,
    pub definition_ranges: Seq<(int, int)>,
    pub ordered_markers: Seq<(int, int)>,
    pub citations: Seq<(int, int)>,
    pub highlights: Seq<(int, int)>,
    pub tags: Seq<(int, int)>,
}

impl View for Extraction {
    type V = Marks;

    open spec fn view(&self) -> Marks {
        Marks {
            prose_regions: spans(self.prose_regions@),
            code_spans: spans(self.code_spans@),
            last_table_end_row: match self.last_table_end_row {
                Some(row) => Some(row as int),
                None => None,
            },
            inline: inline_marks(self.inline@),
            blocks: block_marks(self.blocks@),
            strikethrough: spans(self.strikethrough@),
            italic: spans(self.italic@),
            bold: spans(self.bold@),
            link_text: spans(self.link_text@),
            definitions: views(self.definitions@),
            definition_ranges: spans(self.definition_ranges@),
            ordered_markers: spans(self.ordered_markers@),
            citations: spans(self.citations@),
            highlights: spans(self.highlights@),
            tags: spans(self.tags@),
        }
    }
}

/// Nothing found yet.
pub open spec fn no_marks() -> Marks {
    Marks {
        prose_regions: Seq::empty(),
        code_spans: Seq::empty(),
        last_table_end_row: None,
        inline: Seq::empty(),
        blocks: Seq::empty(),
        strikethrough: Seq::empty(),
        italic: Seq::empty(),
        bold: Seq::empty(),
        link_text: Seq::empty(),
        definitions: Seq::empty(),
        definition_ranges: Seq::empty(),
        ordered_markers: Seq::empty(),
        citations: Seq::empty(),
        highlights: Seq::empty(),
        tags: Seq::empty(),
    }
}

// ---------------------------------------------------------------------------------------------
// Steps
// ---------------------------------------------------------------------------------------------

/// One more inline marker.
pub open spec fn with_inline(m: Marks, range: (int, int), look: InlineLook) -> Marks {
    Marks { inline: m.inline.push(InlineMark { range, look }), ..m }
}

/// A stretch of syntax to hide, where it is not empty.
pub open spec fn with_hidden(m: Marks, range: (int, int), reveal_span: (int, int)) -> Marks {
    if range.0 < range.1 {
        with_inline(m, range, InlineLook::Hide { reveal_span })
    } else {
        m
    }
}

/// One more block, of whole rows.
pub open spec fn with_block(
    s: Seq<char>,
    m: Marks,
    rows: (int, int),
    height_estimate: int,
    look: BlockLook,
) -> Marks {
    Marks {
        blocks: m.blocks.push(
            BlockMark {
                range: rows_span(s, rows.0, rows.1),
                height_estimate,
                look,
                indent_columns: indent_of(s, rows.0, rows.1) as int,
            },
        ),
        ..m
    }
}

/// One more range at the end of a list.
pub fn push_range(list: &mut Vec<Range<usize>>, start: usize, end: usize)
    ensures
        spans(final(list)@) == spans(old(list)@).push((start as int, end as int)),
{
    list.push(start..end);
    assert(spans(list@) =~= spans(old(list)@).push((start as int, end as int)));
}

impl Extraction {
    /// Nothing found yet.
    pub fn new() -> (result: Extraction)
        ensures
            result@ == no_marks(),
    {
        let result = Extraction {
            prose_regions: Vec::new(),
            code_spans: Vec::new(),
            last_table_end_row: None,
            inline: Vec::new(),
            blocks: Vec::new(),
            strikethrough: Vec::new(),
            italic: Vec::new(),
            bold: Vec::new(),
            link_text: Vec::new(),
            definitions: Vec::new(),
            definition_ranges: Vec::new(),
            ordered_markers: Vec::new(),
            citations: Vec::new(),
            highlights: Vec::new(),
            tags: Vec::new(),
        };
        assert(result@ =~= no_marks());
        result
    }

    pub(crate) fn push_inline(&mut self, range: Range<usize>, kind: InlineKind)
        ensures
            final(self)@ == with_inline(
                old(self)@,
                (range.start as int, range.end as int),
                kind@,
            ),
    {
        let marker = InlineMarker { range, kind };
        let ghost mark = marker@;
        self.inline.push(marker);
        assert(inline_marks(self.inline@) =~= inline_marks(old(self).inline@).push(mark));
        assert(self@ =~= with_inline(
            old(self)@,
            (range.start as int, range.end as int),
            kind@,
        ));
    }

    /// Hides a stretch of syntax, where it is not empty, until the selection touches
    /// `reveal_span`.
    pub fn conceal(&mut self, range: Range<usize>, reveal_span: Range<usize>)
        ensures
            final(self)@ == with_hidden(
                old(self)@,
                (range.start as int, range.end as int),
                (reveal_span.start as int, reveal_span.end as int),
            ),
    {
        if range.start < range.end {
            self.push_inline(range, InlineKind::Hide { reveal_span });
        }
    }

    pub(crate) fn push_block(&mut self, marker: BlockMarker)
        ensures
            final(self)@ == (Marks { blocks: old(self)@.blocks.push(marker@), ..old(self)@ }),
    {
        let ghost mark = marker@;
        self.blocks.push(marker);
        assert(block_marks(self.blocks@) =~= block_marks(old(self).blocks@).push(mark));
        assert(self@ =~= (Marks { blocks: old(self)@.blocks.push(mark), ..old(self)@ }));
    }

    /// Adds a block of whole rows.
    pub fn push_block_rows(
        &mut self,
        document: &Document,
        start_row: u32,
        end_row: u32,
        height_estimate: u32,
        kind: BlockRenderKind,
    )
        requires
            document.wf(),
            start_row <= end_row < lines(document@).len(),
        ensures
            final(self)@ == with_block(
                document@,
                old(self)@,
                (start_row as int, end_row as int),
                height_estimate as int,
                kind@,
            ),
    {
        let range = document.row_start(start_row)..document.row_end(end_row);
        let indent_columns = document.indent(start_row, end_row);
        self.push_block(BlockMarker { range, height_estimate, kind, indent_columns });
    }
}

// ---------------------------------------------------------------------------------------------
// Blocks
// ---------------------------------------------------------------------------------------------

/// The index range of the text of a node without the white space at its end.
pub open spec fn trimmed_span(s: Seq<char>, node: SyntaxNode) -> (int, int) {
    let (start, _) = node.span(s);
    (start, start + trim_end_by(node_text(s, node), CharClass::Whitespace).len())
}

/// The byte range of the text of a node without the white space at its end.
pub open spec fn trimmed_bytes(s: Seq<char>, node: SyntaxNode) -> (int, int) {
    (node.start as int, byte_offset(s, trimmed_span(s, node).1) as int)
}

/// Whether a node's text is more than white space.
pub open spec fn has_text(s: Seq<char>, node: SyntaxNode) -> bool {
    trim_end_by(node_text(s, node), CharClass::Whitespace).len() > 0
}

fn trimmed_end_of(document: &Document, node: &SyntaxNode) -> (result: Option<usize>)
    requires
        document.wf(),
        node.fits(document@),
    ensures
        match result {
            Some(end) => has_text(document@, *node) && end == trimmed_bytes(document@, *node).1,
            None => !has_text(document@, *node),
        },
{
    let (start, end) = document.span_of(node);
    let part = document.text().part(start, end);
    let length: usize = trimmed_end(part, CharClass::Whitespace).len();
    proof {
        lemma_run_start(part@, CharClass::Whitespace, part@.len() as int);
    }
    if length == 0 {
        None
    } else {
        Some(document.text().offset(start + length))
    }
}

/// The header of the callout that a block quote is, if it is one.
pub open spec fn quote_look(s: Seq<char>, node: SyntaxNode) -> BlockLook {
    let text = node_text(s, node);
    if text_lines(text).len() > 0 {
        match callout_header(piece(text, text_lines(text)[0])) {
            Some(header) => BlockLook::Callout {
                kind: header.kind,
                title: header.title,
                collapse: header.collapse,
            },
            None => BlockLook::Markdown,
        }
    } else {
        BlockLook::Markdown
    }
}

fn quote_kind(document: &Document, node: &SyntaxNode) -> (result: BlockRenderKind)
    requires
        document.wf(),
        node.fits(document@),
    ensures
        result@ == quote_look(document@, *node),
{
    let text = document.chars_of(node);
    let lines = text_line_ranges(text);
    assert(pairs(lines@).len() == text_lines(text@).len());
    if lines.len() == 0 {
        return BlockRenderKind::Markdown;
    }
    assert(pairs(lines@)[0] == text_lines(text@)[0]);
    assert(lines@[0].0 <= lines@[0].1 <= text@.len());
    match parse_header(&text[lines[0].0..lines[0].1]) {
        Some((kind, title, collapse)) => BlockRenderKind::Callout { kind, title, collapse },
        None => BlockRenderKind::Markdown,
    }
}

/// A marker of an unordered list.
pub open spec fn is_bullet(kind: NodeKind) -> bool {
    kind == NodeKind::ListMarkerMinus || kind == NodeKind::ListMarkerPlus || kind
        == NodeKind::ListMarkerStar
}

/// A marker of an ordered list.
pub open spec fn is_ordinal(kind: NodeKind) -> bool {
    kind == NodeKind::ListMarkerDot || kind == NodeKind::ListMarkerParenthesis
}

/// A marker of a task.
pub open spec fn is_task(kind: NodeKind) -> bool {
    kind == NodeKind::TaskListMarkerChecked || kind == NodeKind::TaskListMarkerUnchecked
}

/// The last unordered list marker among the first `count` nodes.
pub open spec fn last_bullet(nodes: Seq<SyntaxNode>, count: int) -> Option<int>
    decreases count,
{
    if count <= 0 {
        None
    } else if is_bullet(nodes[count - 1].kind) {
        Some(count - 1)
    } else {
        last_bullet(nodes, count - 1)
    }
}

/// The last task marker among the first `count` nodes.
pub open spec fn last_task(nodes: Seq<SyntaxNode>, count: int) -> Option<int>
    decreases count,
{
    if count <= 0 {
        None
    } else if is_task(nodes[count - 1].kind) {
        Some(count - 1)
    } else {
        last_task(nodes, count - 1)
    }
}

/// The ordered list markers among the first `count` nodes.
pub open spec fn with_ordinals(s: Seq<char>, m: Marks, nodes: Seq<SyntaxNode>, count: int) -> Marks
    decreases count,
{
    if count <= 0 {
        m
    } else {
        let before = with_ordinals(s, m, nodes, count - 1);
        let node = nodes[count - 1];
        if is_ordinal(node.kind) && has_text(s, node) {
            Marks { ordered_markers: before.ordered_markers.push(trimmed_bytes(s, node)), ..before }
        } else {
            before
        }
    }
}

/// The markers of a list item: its ordinals restyled, its task marker a checkbox that reaches from
/// the list marker on, else its list marker a bullet.
pub open spec fn with_list_item(s: Seq<char>, m: Marks, nodes: Seq<SyntaxNode>) -> Marks {
    let count = nodes.len() as int;
    let with = with_ordinals(s, m, nodes, count);
    match (last_bullet(nodes, count), last_task(nodes, count)) {
        (Some(bullet), Some(task)) => with_inline(
            with,
            (nodes[bullet].start as int, nodes[task].end as int),
            InlineLook::Checkbox {
                checked: nodes[task].kind == NodeKind::TaskListMarkerChecked,
                marker_range: nodes[task].bytes(),
            },
        ),
        (Some(bullet), None) => if has_text(s, nodes[bullet]) {
            with_inline(with, trimmed_bytes(s, nodes[bullet]), InlineLook::Bullet)
        } else {
            with
        },
        _ => with,
    }
}

/// What one node of the block grammar's tree adds.
pub open spec fn visit_block(s: Seq<char>, node: SyntaxNode, m: Marks) -> Marks {
    let rows = node_rows(s, node);
    let height = rows.1 - rows.0;
    match node.kind {
        NodeKind::AtxHeading => with_block(
            s,
            m,
            rows,
            1,
            BlockLook::Heading { level: level_from(node.children@, 0) },
        ),
        NodeKind::SetextHeading => with_block(s, m, rows, 2, BlockLook::Markdown),
        NodeKind::ThematicBreak => with_block(s, m, rows, 1, BlockLook::Rule),
        NodeKind::PipeTable => match table_near(s, node.start as int) {
            Some((span, shape)) => {
                let rows = (row_at(s, span.0), row_at(s, span.1));
                if m.last_table_end_row matches Some(last) && rows.0 <= last {
                    m
                } else {
                    with_block(
                        s,
                        Marks { last_table_end_row: Some(rows.1), ..m },
                        rows,
                        rows.1 - rows.0 + 2,
                        BlockLook::Table(shape),
                    )
                }
            },
            None => with_block(s, m, rows, height + 2, BlockLook::Markdown),
        },
        NodeKind::FencedCodeBlock => with_block(s, m, rows, height + 2, BlockLook::Markdown),
        NodeKind::MinusMetadata | NodeKind::PlusMetadata => with_block(
            s,
            m,
            rows,
            height + 2,
            BlockLook::Frontmatter,
        ),
        NodeKind::HtmlBlock => with_block(s, m, rows, height + 1, BlockLook::Markdown),
        NodeKind::BlockQuote => with_block(s, m, rows, height + 1, quote_look(s, node)),
        NodeKind::LinkReferenceDefinition => {
            let with = Marks {
                definitions: m.definitions.push(
                    trim_end_by(node_text(s, node), CharClass::Whitespace),
                ),
                ..m
            };
            if has_text(s, node) {
                Marks {
                    definition_ranges: with.definition_ranges.push(trimmed_bytes(s, node)),
                    ..with
                }
            } else {
                with
            }
        },
        NodeKind::ListItem => with_list_item(s, m, node.children@),
        NodeKind::Inline => Marks { prose_regions: m.prose_regions.push(node.bytes()), ..m },
        _ => m,
    }
}

/// Whether the walk of the block grammar's tree goes on below a node of this kind.
pub open spec fn descends_block(kind: NodeKind) -> bool {
    match kind {
        NodeKind::AtxHeading
        | NodeKind::SetextHeading
        | NodeKind::ThematicBreak
        | NodeKind::PipeTable
        | NodeKind::FencedCodeBlock
        | NodeKind::MinusMetadata
        | NodeKind::PlusMetadata
        | NodeKind::HtmlBlock
        | NodeKind::LinkReferenceDefinition
        | NodeKind::Inline => false,
        _ => true,
    }
}

/// What a tree of the block grammar adds: each node before those below it, in order.
pub open spec fn walk_block(s: Seq<char>, node: SyntaxNode, m: Marks) -> Marks
    decreases node,
{
    let visited = visit_block(s, node, m);
    if descends_block(node.kind) {
        walk_blocks(s, node.children@, visited)
    } else {
        visited
    }
}

/// What several trees of the block grammar add, one behind the other.
pub open spec fn walk_blocks(s: Seq<char>, nodes: Seq<SyntaxNode>, m: Marks) -> Marks
    decreases nodes,
{
    if nodes.len() == 0 {
        m
    } else {
        walk_block(s, nodes.last(), walk_blocks(s, nodes.drop_last(), m))
    }
}

/// What a stack of trees of the block grammar adds, its top first.
spec fn walk_block_stack(s: Seq<char>, stack: Seq<SyntaxNode>, m: Marks) -> Marks
    decreases stack.len(),
{
    if stack.len() == 0 {
        m
    } else {
        walk_block_stack(s, stack.drop_last(), walk_block(s, stack.last(), m))
    }
}

proof fn lemma_block_stack(s: Seq<char>, stack: Seq<SyntaxNode>, nodes: Seq<SyntaxNode>, m: Marks)
    ensures
        walk_block_stack(s, stack + nodes.reverse(), m) == walk_block_stack(
            s,
            stack,
            walk_blocks(s, nodes, m),
        ),
    decreases nodes.len(),
{
    if nodes.len() == 0 {
        assert(stack + nodes.reverse() =~= stack);
    } else {
        let front = nodes.drop_last();
        let deeper = stack.push(nodes.last());
        assert(stack + nodes.reverse() =~= deeper + front.reverse());
        lemma_block_stack(s, deeper, front, m);
        assert(deeper.drop_last() =~= stack);
    }
}

proof fn lemma_sizes_of_stack(stack: Seq<SyntaxNode>, nodes: Seq<SyntaxNode>)
    ensures
        sizes(stack + nodes.reverse()) == sizes(stack) + sizes(nodes),
    decreases nodes.len(),
{
    if nodes.len() == 0 {
        assert(stack + nodes.reverse() =~= stack);
    } else {
        let front = nodes.drop_last();
        let deeper = stack.push(nodes.last());
        assert(stack + nodes.reverse() =~= deeper + front.reverse());
        lemma_sizes_of_stack(deeper, front);
        assert(deeper.drop_last() =~= stack);
    }
}

/// Every node of several trees fits the text.
pub open spec fn all_fit(nodes: Seq<SyntaxNode>, s: Seq<char>) -> bool {
    forall|i: int| 0 <= i < nodes.len() ==> (#[trigger] nodes[i]).fits(s)
}

/// Replacing the top of a stack of trees by its children.
pub(crate) proof fn lemma_opened_stack(stack: Seq<SyntaxNode>, s: Seq<char>)
    requires
        stack.len() > 0,
        all_fit(stack, s),
    ensures
        all_fit(stack.drop_last(), s),
        all_fit(stack.drop_last() + stack.last().children@.reverse(), s),
        sizes(stack.drop_last()) < sizes(stack),
        sizes(stack.drop_last() + stack.last().children@.reverse()) < sizes(stack),
{
    let top = stack.last();
    assert(stack[stack.len() - 1].fits(s));
    let opened = stack.drop_last() + top.children@.reverse();
    lemma_sizes_of_stack(stack.drop_last(), top.children@);
    reveal_with_fuel(sizes, 2);
    assert(sizes(stack) == sizes(stack.drop_last()) + top.size());
    assert forall|i: int| 0 <= i < opened.len() implies (#[trigger] opened[i]).fits(s) by {
        if i < stack.len() - 1 {
            assert(opened[i] == stack[i]);
        } else {
            let k = top.children@.len() - 1 - (i - (stack.len() - 1));
            assert(opened[i] == top.children@[k]);
        }
    }
    assert forall|i: int| 0 <= i < stack.drop_last().len() implies (
    #[trigger] stack.drop_last()[i]).fits(s) by {
        assert(stack.drop_last()[i] == stack[i]);
    }
}

impl Extraction {
    /// Adds the markers of a list item.
    pub fn list_item_markers(&mut self, document: &Document, node: &SyntaxNode)
        requires
            document.wf(),
            node.fits(document@),
        ensures
            final(self)@ == with_list_item(document@, old(self)@, node.children@),
    {
        let ghost s = document@;
        let ghost nodes = node.children@;
        let mut bullet: Option<usize> = None;
        let mut task: Option<usize> = None;
        let mut i: usize = 0;
        while i < node.children.len()
            invariant
                document.wf(),
                node.fits(document@),
                s == document@,
                nodes == node.children@,
                i <= nodes.len(),
                found(bullet) == last_bullet(nodes, i as int),
                found(task) == last_task(nodes, i as int),
                bullet matches Some(at) ==> at < i && is_bullet(nodes[at as int].kind),
                task matches Some(at) ==> at < i && is_task(nodes[at as int].kind),
                self@ == with_ordinals(s, old(self)@, nodes, i as int),
            decreases nodes.len() - i,
        {
            let child = &node.children[i];
            assert(nodes[i as int].fits(s));
            match child.kind {
                NodeKind::ListMarkerMinus
                | NodeKind::ListMarkerPlus
                | NodeKind::ListMarkerStar => {
                    bullet = Some(i);
                },
                NodeKind::ListMarkerDot | NodeKind::ListMarkerParenthesis => {
                    match trimmed_end_of(document, child) {
                        Some(end) => {
                            push_range(&mut self.ordered_markers, child.start, end);
                        },
                        None => {},
                    }
                },
                NodeKind::TaskListMarkerChecked | NodeKind::TaskListMarkerUnchecked => {
                    task = Some(i);
                },
                _ => {},
            }
            i += 1;
            assert(self@ =~= with_ordinals(s, old(self)@, nodes, i as int));
        }
        match (bullet, task) {
            (Some(bullet), Some(task)) => {
                let marker = &node.children[bullet];
                let task = &node.children[task];
                let checked = task.kind == NodeKind::TaskListMarkerChecked;
                self.push_inline(
                    marker.start..task.end,
                    InlineKind::Checkbox { checked, marker_range: task.start..task.end },
                );
            },
            (Some(bullet), None) => {
                let marker = &node.children[bullet];
                assert(nodes[bullet as int].fits(s));
                match trimmed_end_of(document, marker) {
                    Some(end) => {
                        self.push_inline(marker.start..end, InlineKind::Bullet);
                    },
                    None => {},
                }
            },
            _ => {},
        }
    }

    fn visit_block(&mut self, document: &Document, node: &SyntaxNode) -> (descend: bool)
        requires
            document.wf(),
            node.fits(document@),
        ensures
            final(self)@ == visit_block(document@, *node, old(self)@),
            descend == descends_block(node.kind),
    {
        let ghost s = document@;
        let (start_row, end_row) = document.node_rows(node);
        let height: u32 = end_row - start_row;
        match node.kind {
            NodeKind::AtxHeading => {
                let level = heading_level(node);
                self.push_block_rows(
                    document,
                    start_row,
                    end_row,
                    1,
                    BlockRenderKind::Heading { level },
                );
                false
            },
            NodeKind::SetextHeading => {
                self.push_block_rows(document, start_row, end_row, 2, BlockRenderKind::Markdown);
                false
            },
            NodeKind::ThematicBreak => {
                self.push_block_rows(document, start_row, end_row, 1, BlockRenderKind::Rule);
                false
            },
            NodeKind::PipeTable => {
                match document.table_at(node.start) {
                    Some((range, structure)) => {
                        let (start_row, end_row) = document.rows_of(range.start, range.end);
                        let claimed = match self.last_table_end_row {
                            Some(last) => start_row <= last,
                            None => false,
                        };
                        if !claimed {
                            self.last_table_end_row = Some(end_row);
                            self.push_block_rows(
                                document,
                                start_row,
                                end_row,
                                end_row - start_row + 2,
                                BlockRenderKind::Table(structure),
                            );
                        }
                    },
                    None => {
                        self.push_block_rows(
                            document,
                            start_row,
                            end_row,
                            height + 2,
                            BlockRenderKind::Markdown,
                        );
                    },
                }
                false
            },
            NodeKind::FencedCodeBlock => {
                self.push_block_rows(
                    document,
                    start_row,
                    end_row,
                    height + 2,
                    BlockRenderKind::Markdown,
                );
                false
            },
            NodeKind::MinusMetadata | NodeKind::PlusMetadata => {
                self.push_block_rows(
                    document,
                    start_row,
                    end_row,
                    height + 2,
                    BlockRenderKind::Frontmatter,
                );
                false
            },
            NodeKind::HtmlBlock => {
                self.push_block_rows(
                    document,
                    start_row,
                    end_row,
                    height + 1,
                    BlockRenderKind::Markdown,
                );
                false
            },
            NodeKind::BlockQuote => {
                let kind = quote_kind(document, node);
                self.push_block_rows(document, start_row, end_row, height + 1, kind);
                true
            },
            NodeKind::LinkReferenceDefinition => {
                let text = document.chars_of(node);
                let definition = string_of(trimmed_end(text, CharClass::Whitespace));
                let ghost view = definition@;
                self.definitions.push(definition);
                assert(views(self.definitions@) =~= views(old(self).definitions@).push(view));
                match trimmed_end_of(document, node) {
                    Some(end) => {
                        push_range(&mut self.definition_ranges, node.start, end);
                    },
                    None => {},
                }
                assert(self@ =~= visit_block(s, *node, old(self)@));
                false
            },
            NodeKind::ListItem => {
                self.list_item_markers(document, node);
                true
            },
            NodeKind::Inline => {
                push_range(&mut self.prose_regions, node.start, node.end);
                assert(self@ =~= visit_block(s, *node, old(self)@));
                false
            },
            _ => true,
        }
    }

    /// Adds what a tree of the block grammar holds.
    pub fn walk_block_layer(&mut self, document: &Document, root: &SyntaxNode)
        requires
            document.wf(),
            root.fits(document@),
        ensures
            final(self)@ == walk_block(document@, *root, old(self)@),
    {
        let ghost s = document@;
        let ghost goal = walk_block(s, *root, self@);
        let mut stack: Vec<&SyntaxNode> = Vec::new();
        stack.push(root);
        proof {
            reveal_with_fuel(walk_block_stack, 2);
            assert(nodes_of(stack@).drop_last() =~= Seq::empty());
        }
        while stack.len() > 0
            invariant
                document.wf(),
                s == document@,
                all_fit(nodes_of(stack@), s),
                walk_block_stack(s, nodes_of(stack@), self@) == goal,
            decreases sizes(nodes_of(stack@)),
        {
            let ghost before = nodes_of(stack@);
            let ghost marks = self@;
            proof {
                lemma_opened_stack(before, s);
                assert(before[before.len() - 1].fits(s));
            }
            let node = match stack.pop() {
                Some(node) => node,
                None => {
                    return;
                },
            };
            assert(nodes_of(stack@) =~= before.drop_last());
            assert(*node == before.last());
            if self.visit_block(document, node) {
                push_children(node, &mut stack);
                proof {
                    lemma_block_stack(s, before.drop_last(), node.children@, self@);
                }
            }
        }
    }
}

} // verus!
