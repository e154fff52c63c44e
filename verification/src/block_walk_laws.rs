//! What the blocks of a text come to, said of each node of the block grammar that the walk reaches.

use crate::callout::callout_header;
use crate::document::{node_rows, node_text, row_at};
use crate::extract::{all_marks, SyntaxLayer};
use crate::extraction::{
    has_text, is_ordinal, last_bullet, last_task, trimmed_bytes, visit_block, with_ordinals, Marks,
};
use crate::markers::{BlockLook, InlineLook, InlineMark};
use crate::syntax::{level_from, marked_level, NodeKind, SyntaxNode};
use crate::table::table_near;
use crate::text::{
    byte_offset, index_at, lemma_byte_offset_grows, lemma_run_start, lemma_split_from, lines,
    run_start, text_lines, trim_end_by, white_space, CharClass,
};
use crate::text_laws::{is_blank_text, pieces_of};
use crate::walk_laws::{
    bytes_of, has_block, is_block_node, lemma_block_node, lemma_has_block, lemma_last_is_there,
    lemma_ordinals_grow, lemma_still_there,
};
use crate::widget_laws::law_a_place_is_on_the_row_of_its_line;
use vstd::prelude::*;

verus! {

/// The rows of a node: from the line that it starts on to the line that it ends on, or the one before
/// where it ends with a newline.
pub proof fn law_a_node_has_the_rows_it_spans(
    s: Seq<char>,
    node: SyntaxNode,
    first: int,
    last: int,
    i: int,
    j: int,
)
    requires
        node.start == byte_offset(s, i),
        node.end == byte_offset(s, j),
        0 <= first <= last < lines(s).len(),
        i <= j,
        lines(s)[first].0 <= i <= lines(s)[first].1,
        (lines(s)[last].0 <= j <= lines(s)[last].1 && (first < last ==> lines(s)[last].0 < j)) || (
        last + 1 < lines(s).len() && j == lines(s)[last + 1].0),
    ensures
        node_rows(s, node) == (first, last),
{
    lemma_split_from(s, '\n', 0);
    law_a_place_is_on_the_row_of_its_line(s, first, i);
    if last + 1 < lines(s).len() && j == lines(s)[last + 1].0 {
        assert(lines(s)[last + 1].0 <= lines(s)[last + 1].1);
        law_a_place_is_on_the_row_of_its_line(s, last + 1, j);
    } else {
        law_a_place_is_on_the_row_of_its_line(s, last, j);
        assert(0 <= lines(s)[last].0 <= lines(s)[last].1 <= s.len());
        if first < last {
            lemma_byte_offset_grows(s, lines(s)[last].0, j);
        }
    }
}

/// Whether a node of this kind marks a heading of this level.
pub open spec fn marks_level(kind: NodeKind, level: u8) -> bool {
    ||| kind == NodeKind::AtxH1Marker && level == 1
    ||| kind == NodeKind::AtxH2Marker && level == 2
    ||| kind == NodeKind::AtxH3Marker && level == 3
    ||| kind == NodeKind::AtxH4Marker && level == 4
    ||| kind == NodeKind::AtxH5Marker && level == 5
    ||| kind == NodeKind::AtxH6Marker && level == 6
}

proof fn lemma_level_is(nodes: Seq<SyntaxNode>, i: int, k: int, level: u8)
    requires
        0 <= i <= k < nodes.len(),
        marks_level(nodes[k].kind, level),
        forall|m: int, l: u8| i <= m < k ==> !#[trigger] marks_level(nodes[m].kind, l),
    ensures
        level_from(nodes, i) == level,
    decreases k - i,
{
    if i < k {
        assert(marked_level(nodes[i].kind) is None) by {
            if let Some(l) = marked_level(nodes[i].kind) {
                assert(marks_level(nodes[i].kind, l));
            }
        }
        lemma_level_is(nodes, i + 1, k, level);
    }
}

/// A heading with hashes is a block of the level that its marker has.
pub proof fn law_a_heading_has_the_level_of_its_marker(
    s: Seq<char>,
    layers: Seq<SyntaxLayer>,
    layer: int,
    path: Seq<int>,
    node: SyntaxNode,
    k: int,
    level: u8,
)
    requires
        is_block_node(layers, layer, path, node),
        node.kind == NodeKind::AtxHeading,
        0 <= k < node.children@.len(),
        marks_level(node.children@[k].kind, level),
        forall|m: int, l: u8| 0 <= m < k ==> !#[trigger] marks_level(node.children@[m].kind, l),
    ensures
        ({
            let rows = node_rows(s, node);
            has_block(s, all_marks(s, layers), rows.0, rows.1, BlockLook::Heading { level }, 1)
        }),
{
    let at = lemma_block_node(s, layers, layer, path, node);
    let rows = node_rows(s, node);
    lemma_level_is(node.children@, 0, k, level);
    lemma_has_block(
        s,
        at,
        visit_block(s, node, at),
        all_marks(s, layers),
        rows.0,
        rows.1,
        BlockLook::Heading { level },
        1,
    );
}

/// A fenced code block, a block of HTML and a heading with an underline show as rendered markdown, a
/// thematic break as a rule, and frontmatter of either kind as a card, each over its whole rows.
pub proof fn law_a_block_shows_by_its_kind(
    s: Seq<char>,
    layers: Seq<SyntaxLayer>,
    layer: int,
    path: Seq<int>,
    node: SyntaxNode,
)
    requires
        is_block_node(layers, layer, path, node),
    ensures
        ({
            let (first, last) = node_rows(s, node);
            let marks = all_marks(s, layers);
            &&& node.kind == NodeKind::SetextHeading ==> has_block(
                s,
                marks,
                first,
                last,
                BlockLook::Markdown,
                2,
            )
            &&& node.kind == NodeKind::ThematicBreak ==> has_block(
                s,
                marks,
                first,
                last,
                BlockLook::Rule,
                1,
            )
            &&& node.kind == NodeKind::FencedCodeBlock ==> has_block(
                s,
                marks,
                first,
                last,
                BlockLook::Markdown,
                last - first + 2,
            )
            &&& node.kind == NodeKind::HtmlBlock ==> has_block(
                s,
                marks,
                first,
                last,
                BlockLook::Markdown,
                last - first + 1,
            )
            &&& node.kind == NodeKind::MinusMetadata || node.kind == NodeKind::PlusMetadata
                ==> has_block(s, marks, first, last, BlockLook::Frontmatter, last - first + 2)
        }),
{
    let at = lemma_block_node(s, layers, layer, path, node);
    let visited = visit_block(s, node, at);
    let marks = all_marks(s, layers);
    let (first, last) = node_rows(s, node);
    let height = last - first;
    match node.kind {
        NodeKind::SetextHeading => {
            lemma_has_block(s, at, visited, marks, first, last, BlockLook::Markdown, 2);
        },
        NodeKind::ThematicBreak => {
            lemma_has_block(s, at, visited, marks, first, last, BlockLook::Rule, 1);
        },
        NodeKind::FencedCodeBlock => {
            lemma_has_block(s, at, visited, marks, first, last, BlockLook::Markdown, height + 2);
        },
        NodeKind::HtmlBlock => {
            lemma_has_block(s, at, visited, marks, first, last, BlockLook::Markdown, height + 1);
        },
        NodeKind::MinusMetadata | NodeKind::PlusMetadata => {
            lemma_has_block(s, at, visited, marks, first, last, BlockLook::Frontmatter, height + 2);
        },
        _ => {},
    }
}

/// A block quote is a callout where its first line is the header of one, with what that header says,
/// and shows as rendered markdown where it is none.
pub proof fn law_a_quote_is_a_callout_by_its_first_line(
    s: Seq<char>,
    layers: Seq<SyntaxLayer>,
    layer: int,
    path: Seq<int>,
    node: SyntaxNode,
    line: Seq<char>,
)
    requires
        is_block_node(layers, layer, path, node),
        node.kind == NodeKind::BlockQuote,
        ({
            let text = node_text(s, node);
            let all = pieces_of(text, text_lines(text));
            all.len() > 0 && all[0] == line
        }),
    ensures
        ({
            let (first, last) = node_rows(s, node);
            let look = match callout_header(line) {
                Some(header) => BlockLook::Callout {
                    kind: header.kind,
                    title: header.title,
                    collapse: header.collapse,
                },
                None => BlockLook::Markdown,
            };
            has_block(s, all_marks(s, layers), first, last, look, last - first + 1)
        }),
{
    let at = lemma_block_node(s, layers, layer, path, node);
    let (first, last) = node_rows(s, node);
    let look = match callout_header(line) {
        Some(header) => BlockLook::Callout {
            kind: header.kind,
            title: header.title,
            collapse: header.collapse,
        },
        None => BlockLook::Markdown,
    };
    lemma_has_block(
        s,
        at,
        visit_block(s, node, at),
        all_marks(s, layers),
        first,
        last,
        look,
        last - first + 1,
    );
}

/// A pipe table is a block over the rows of the table that the text has there, unless a table before
/// it has those rows.
pub proof fn law_a_table_is_a_block_of_its_rows(s: Seq<char>, node: SyntaxNode, m: Marks)
    requires
        node.kind == NodeKind::PipeTable,
        table_near(s, node.start as int) is Some,
    ensures
        ({
            let (span, shape) = table_near(s, node.start as int)->0;
            let (first, last) = (row_at(s, span.0), row_at(s, span.1));
            let after = visit_block(s, node, m);
            let is_claimed = m.last_table_end_row matches Some(end) && first <= end;
            &&& is_claimed ==> after == m
            &&& !is_claimed ==> has_block(
                s,
                after,
                first,
                last,
                BlockLook::Table(shape),
                last - first + 2,
            ) && after.last_table_end_row == Some(last) && after.blocks.len() == m.blocks.len() + 1
        }),
{
    let (span, shape) = table_near(s, node.start as int)->0;
    let (first, last) = (row_at(s, span.0), row_at(s, span.1));
    let after = visit_block(s, node, m);
    let is_claimed = m.last_table_end_row matches Some(end) && first <= end;
    if !is_claimed {
        lemma_has_block(s, m, after, after, first, last, BlockLook::Table(shape), last - first + 2);
    }
}

/// The text of a paragraph is prose, where links, citations, footnotes, highlights and tags are
/// looked for.
pub proof fn law_inline_text_is_prose(
    s: Seq<char>,
    layers: Seq<SyntaxLayer>,
    layer: int,
    path: Seq<int>,
    node: SyntaxNode,
)
    requires
        is_block_node(layers, layer, path, node),
        node.kind == NodeKind::Inline,
    ensures
        all_marks(s, layers).prose_regions.contains(bytes_of(node)),
{
    let at = lemma_block_node(s, layers, layer, path, node);
    let visited = visit_block(s, node, at);
    lemma_last_is_there(at.prose_regions, bytes_of(node));
    lemma_still_there(
        visited.prose_regions,
        all_marks(s, layers).prose_regions,
        bytes_of(node),
    );
}

// ---------------------------------------------------------------------------------------------
// Text without what is behind it
// ---------------------------------------------------------------------------------------------

/// Whether a node's text is a text that does not end in white space, and white space behind it.
pub open spec fn reads(s: Seq<char>, node: SyntaxNode, text: Seq<char>, blank: Seq<char>) -> bool {
    &&& node_text(s, node) == text + blank
    &&& text.len() > 0
    &&& !white_space(text[text.len() - 1])
    &&& is_blank_text(blank)
}

proof fn lemma_reads(s: Seq<char>, node: SyntaxNode, text: Seq<char>, blank: Seq<char>)
    requires
        reads(s, node, text, blank),
    ensures
        trim_end_by(node_text(s, node), CharClass::Whitespace) == text,
        has_text(s, node),
        trimmed_bytes(s, node) == (
            node.start as int,
            byte_offset(s, index_at(s, node.start as int) + text.len()) as int,
        ),
{
    let all = node_text(s, node);
    let ws = CharClass::Whitespace;
    lemma_run_start(all, ws, all.len() as int);
    let end = run_start(all, ws, all.len() as int);
    assert(all[text.len() - 1] == text[text.len() - 1]);
    if end < text.len() {
        assert(ws.holds(all[text.len() - 1]));
    } else if text.len() < end {
        assert(all[end - 1] == blank[end - 1 - text.len()]);
    }
    assert(trim_end_by(all, ws) =~= text);
}

/// The definition of a link's label is kept for the widgets to refer to, and muted, both without the
/// white space behind it.
pub proof fn law_a_definition_is_kept_and_muted(
    s: Seq<char>,
    layers: Seq<SyntaxLayer>,
    layer: int,
    path: Seq<int>,
    node: SyntaxNode,
    text: Seq<char>,
    blank: Seq<char>,
)
    requires
        is_block_node(layers, layer, path, node),
        node.kind == NodeKind::LinkReferenceDefinition,
        reads(s, node, text, blank),
    ensures
        all_marks(s, layers).definitions.contains(text),
        all_marks(s, layers).definition_ranges.contains(
            (
                node.start as int,
                byte_offset(s, index_at(s, node.start as int) + text.len()) as int,
            ),
        ),
{
    let at = lemma_block_node(s, layers, layer, path, node);
    let visited = visit_block(s, node, at);
    let marks = all_marks(s, layers);
    lemma_reads(s, node, text, blank);
    lemma_last_is_there(at.definitions, text);
    lemma_still_there(visited.definitions, marks.definitions, text);
    let range = trimmed_bytes(s, node);
    lemma_last_is_there(at.definition_ranges, range);
    lemma_still_there(visited.definition_ranges, marks.definition_ranges, range);
}

// ---------------------------------------------------------------------------------------------
// Lists
// ---------------------------------------------------------------------------------------------

/// Whether a node marks an item of an unordered list.
pub open spec fn marks_bullet(node: SyntaxNode) -> bool {
    ||| node.kind == NodeKind::ListMarkerMinus
    ||| node.kind == NodeKind::ListMarkerPlus
    ||| node.kind == NodeKind::ListMarkerStar
}

/// Whether a node marks a task, done or not.
pub open spec fn marks_task(node: SyntaxNode) -> bool {
    ||| node.kind == NodeKind::TaskListMarkerChecked
    ||| node.kind == NodeKind::TaskListMarkerUnchecked
}

proof fn lemma_last_bullet_is(nodes: Seq<SyntaxNode>, count: int, k: int)
    requires
        0 <= k < count <= nodes.len(),
        marks_bullet(nodes[k]),
        forall|m: int| k < m < count ==> !marks_bullet(#[trigger] nodes[m]),
    ensures
        last_bullet(nodes, count) == Some(k),
    decreases count,
{
    if k < count - 1 {
        assert(!marks_bullet(nodes[count - 1]));
        lemma_last_bullet_is(nodes, count - 1, k);
    }
}

proof fn lemma_last_task_is(nodes: Seq<SyntaxNode>, count: int, k: int)
    requires
        0 <= k < count <= nodes.len(),
        marks_task(nodes[k]),
        forall|m: int| k < m < count ==> !marks_task(#[trigger] nodes[m]),
    ensures
        last_task(nodes, count) == Some(k),
    decreases count,
{
    if k < count - 1 {
        assert(!marks_task(nodes[count - 1]));
        lemma_last_task_is(nodes, count - 1, k);
    }
}

proof fn lemma_no_task(nodes: Seq<SyntaxNode>, count: int)
    requires
        count <= nodes.len(),
        forall|m: int| 0 <= m < nodes.len() ==> !marks_task(#[trigger] nodes[m]),
    ensures
        last_task(nodes, count) is None,
    decreases count,
{
    if count > 0 {
        assert(!marks_task(nodes[count - 1]));
        lemma_no_task(nodes, count - 1);
    }
}

/// A task shows as a checkbox from its list marker to the end of its task marker, checked where the
/// marker is.
pub proof fn law_a_task_shows_as_a_checkbox(
    s: Seq<char>,
    layers: Seq<SyntaxLayer>,
    layer: int,
    path: Seq<int>,
    node: SyntaxNode,
    bullet: int,
    task: int,
)
    requires
        is_block_node(layers, layer, path, node),
        node.kind == NodeKind::ListItem,
        0 <= bullet < node.children@.len(),
        marks_bullet(node.children@[bullet]),
        forall|m: int|
            bullet < m < node.children@.len() ==> !marks_bullet(#[trigger] node.children@[m]),
        0 <= task < node.children@.len(),
        marks_task(node.children@[task]),
        forall|m: int| task < m < node.children@.len() ==> !marks_task(#[trigger] node.children@[m]),
    ensures
        all_marks(s, layers).inline.contains(
            InlineMark {
                range: (node.children@[bullet].start as int, node.children@[task].end as int),
                look: InlineLook::Checkbox {
                    checked: node.children@[task].kind == NodeKind::TaskListMarkerChecked,
                    marker_range: bytes_of(node.children@[task]),
                },
            },
        ),
{
    let at = lemma_block_node(s, layers, layer, path, node);
    let visited = visit_block(s, node, at);
    let nodes = node.children@;
    let count = nodes.len() as int;
    lemma_last_bullet_is(nodes, count, bullet);
    lemma_last_task_is(nodes, count, task);
    lemma_ordinals_grow(s, at, nodes, count);
    let mark = InlineMark {
        range: (nodes[bullet].start as int, nodes[task].end as int),
        look: InlineLook::Checkbox {
            checked: nodes[task].kind == NodeKind::TaskListMarkerChecked,
            marker_range: bytes_of(nodes[task]),
        },
    };
    lemma_last_is_there(at.inline, mark);
    lemma_still_there(visited.inline, all_marks(s, layers).inline, mark);
}

/// The marker of an item of an unordered list that is no task shows as a bullet, without the white
/// space behind it.
pub proof fn law_an_item_shows_a_bullet(
    s: Seq<char>,
    layers: Seq<SyntaxLayer>,
    layer: int,
    path: Seq<int>,
    node: SyntaxNode,
    bullet: int,
    text: Seq<char>,
    blank: Seq<char>,
)
    requires
        is_block_node(layers, layer, path, node),
        node.kind == NodeKind::ListItem,
        0 <= bullet < node.children@.len(),
        marks_bullet(node.children@[bullet]),
        forall|m: int|
            bullet < m < node.children@.len() ==> !marks_bullet(#[trigger] node.children@[m]),
        forall|m: int| 0 <= m < node.children@.len() ==> !marks_task(#[trigger] node.children@[m]),
        reads(s, node.children@[bullet], text, blank),
    ensures
        ({
            let marker = node.children@[bullet];
            all_marks(s, layers).inline.contains(
                InlineMark {
                    range: (
                        marker.start as int,
                        byte_offset(s, index_at(s, marker.start as int) + text.len()) as int,
                    ),
                    look: InlineLook::Bullet,
                },
            )
        }),
{
    let at = lemma_block_node(s, layers, layer, path, node);
    let visited = visit_block(s, node, at);
    let nodes = node.children@;
    let count = nodes.len() as int;
    lemma_last_bullet_is(nodes, count, bullet);
    lemma_no_task(nodes, count);
    lemma_ordinals_grow(s, at, nodes, count);
    lemma_reads(s, nodes[bullet], text, blank);
    let mark = InlineMark { range: trimmed_bytes(s, nodes[bullet]), look: InlineLook::Bullet };
    lemma_last_is_there(at.inline, mark);
    lemma_still_there(visited.inline, all_marks(s, layers).inline, mark);
}

proof fn lemma_ordinal_is_listed(
    s: Seq<char>,
    m: Marks,
    nodes: Seq<SyntaxNode>,
    count: int,
    k: int,
)
    requires
        0 <= k < count <= nodes.len(),
        is_ordinal(nodes[k].kind),
        has_text(s, nodes[k]),
    ensures
        with_ordinals(s, m, nodes, count).ordered_markers.contains(trimmed_bytes(s, nodes[k])),
    decreases count,
{
    let before = with_ordinals(s, m, nodes, count - 1);
    let after = with_ordinals(s, m, nodes, count);
    let range = trimmed_bytes(s, nodes[k]);
    if k == count - 1 {
        lemma_last_is_there(before.ordered_markers, range);
    } else {
        lemma_ordinal_is_listed(s, m, nodes, count - 1, k);
        lemma_still_there(before.ordered_markers, after.ordered_markers, range);
    }
}

/// The number of an item of an ordered list is restyled, without the white space behind it.
pub proof fn law_an_ordinal_is_restyled(
    s: Seq<char>,
    layers: Seq<SyntaxLayer>,
    layer: int,
    path: Seq<int>,
    node: SyntaxNode,
    k: int,
    text: Seq<char>,
    blank: Seq<char>,
)
    requires
        is_block_node(layers, layer, path, node),
        node.kind == NodeKind::ListItem,
        0 <= k < node.children@.len(),
        node.children@[k].kind == NodeKind::ListMarkerDot || node.children@[k].kind
            == NodeKind::ListMarkerParenthesis,
        reads(s, node.children@[k], text, blank),
    ensures
        ({
            let marker = node.children@[k];
            all_marks(s, layers).ordered_markers.contains(
                (
                    marker.start as int,
                    byte_offset(s, index_at(s, marker.start as int) + text.len()) as int,
                ),
            )
        }),
{
    let at = lemma_block_node(s, layers, layer, path, node);
    let visited = visit_block(s, node, at);
    let nodes = node.children@;
    let count = nodes.len() as int;
    lemma_reads(s, nodes[k], text, blank);
    lemma_ordinal_is_listed(s, at, nodes, count, k);
    assert(visited.ordered_markers == with_ordinals(s, at, nodes, count).ordered_markers);
    lemma_still_there(
        visited.ordered_markers,
        all_marks(s, layers).ordered_markers,
        trimmed_bytes(s, nodes[k]),
    );
}

} // verus!
