//! What the syntax trees of a text come to, said of each node that the walk reaches.

use crate::delimiter_laws::lemma_trim_bounds;
use crate::document::{alone_on_its_lines, alone_on_line, node_rows, node_text, row_at, rows_span};
use crate::extract::{all_marks, walk_layers, SyntaxLayer};
use crate::extraction::{visit_block, walk_block, walk_blocks, with_list_item, with_ordinals, Marks};
use crate::inline_layer::{
    first_index, image_look, last_index, visit_inline, walk_inline, walk_inlines, with_delimiters,
};
use crate::markers::{BlockLook, InlineLook, InlineMark, MathStyle};
use crate::scans::{
    citations_of, footnotes_of, highlights_of, region_span, region_tags, tags_of, wikilinks_of,
    with_citation, with_citations, with_footnote, with_footnotes, with_highlight, with_highlights,
    with_tags, with_wikilink, with_wikilinks,
};
use crate::syntax::{first_child, NodeKind, SyntaxNode};
use crate::text::{
    byte_offset, lines, find_char, find_char_back, find_pair, index_at, lemma_find_char_back, lemma_run_end, piece,
    run_end, starts_with, white_space, CharClass,
};
use vstd::prelude::*;

verus! {

// ---------------------------------------------------------------------------------------------
// Growing
// ---------------------------------------------------------------------------------------------

/// Whether a list starts with another one.
pub open spec fn goes_on<T>(before: Seq<T>, after: Seq<T>) -> bool {
    before.len() <= after.len() && forall|i: int|
        0 <= i < before.len() ==> #[trigger] before[i] == after[i]
}

/// Whether nothing that was found is lost.
pub open spec fn grows(a: Marks, b: Marks) -> bool {
    &&& goes_on(a.prose_regions, b.prose_regions)
    &&& goes_on(a.code_spans, b.code_spans)
    &&& goes_on(a.inline, b.inline)
    &&& goes_on(a.blocks, b.blocks)
    &&& goes_on(a.strikethrough, b.strikethrough)
    &&& goes_on(a.italic, b.italic)
    &&& goes_on(a.bold, b.bold)
    &&& goes_on(a.link_text, b.link_text)
    &&& goes_on(a.definitions, b.definitions)
    &&& goes_on(a.definition_ranges, b.definition_ranges)
    &&& goes_on(a.ordered_markers, b.ordered_markers)
    &&& goes_on(a.citations, b.citations)
    &&& goes_on(a.highlights, b.highlights)
    &&& goes_on(a.tags, b.tags)
}

proof fn lemma_list_goes_on<T>(a: Seq<T>, b: Seq<T>, c: Seq<T>)
    requires
        goes_on(a, b),
        goes_on(b, c),
    ensures
        goes_on(a, c),
{
    assert forall|i: int| 0 <= i < a.len() implies #[trigger] a[i] == c[i] by {
        assert(a[i] == b[i]);
        assert(b[i] == c[i]);
    }
}

pub(crate) proof fn lemma_grows_on(a: Marks, b: Marks, c: Marks)
    requires
        grows(a, b),
        grows(b, c),
    ensures
        grows(a, c),
{
    lemma_list_goes_on(a.prose_regions, b.prose_regions, c.prose_regions);
    lemma_list_goes_on(a.code_spans, b.code_spans, c.code_spans);
    lemma_list_goes_on(a.inline, b.inline, c.inline);
    lemma_list_goes_on(a.blocks, b.blocks, c.blocks);
    lemma_list_goes_on(a.strikethrough, b.strikethrough, c.strikethrough);
    lemma_list_goes_on(a.italic, b.italic, c.italic);
    lemma_list_goes_on(a.bold, b.bold, c.bold);
    lemma_list_goes_on(a.link_text, b.link_text, c.link_text);
    lemma_list_goes_on(a.definitions, b.definitions, c.definitions);
    lemma_list_goes_on(a.definition_ranges, b.definition_ranges, c.definition_ranges);
    lemma_list_goes_on(a.ordered_markers, b.ordered_markers, c.ordered_markers);
    lemma_list_goes_on(a.citations, b.citations, c.citations);
    lemma_list_goes_on(a.highlights, b.highlights, c.highlights);
    lemma_list_goes_on(a.tags, b.tags, c.tags);
}

/// What a list holds, a list that goes on from it holds.
pub(crate) proof fn lemma_still_there<T>(before: Seq<T>, after: Seq<T>, item: T)
    requires
        goes_on(before, after),
        before.contains(item),
    ensures
        after.contains(item),
{
    let i = choose|i: int| 0 <= i < before.len() && before[i] == item;
    assert(before[i] == after[i]);
    assert(after[i] == item);
}

pub(crate) proof fn lemma_last_is_there<T>(before: Seq<T>, item: T)
    ensures
        before.push(item).contains(item),
{
    assert(before.push(item)[before.len() as int] == item);
}

// ---------------------------------------------------------------------------------------------
// The inline grammar
// ---------------------------------------------------------------------------------------------

proof fn lemma_delimiters_grow(
    m: Marks,
    nodes: Seq<SyntaxNode>,
    kind: NodeKind,
    reveal: (int, int),
    count: int,
)
    ensures
        grows(m, with_delimiters(m, nodes, kind, reveal, count)),
    decreases count,
{
    if count > 0 {
        lemma_delimiters_grow(m, nodes, kind, reveal, count - 1);
        lemma_grows_on(
            m,
            with_delimiters(m, nodes, kind, reveal, count - 1),
            with_delimiters(m, nodes, kind, reveal, count),
        );
    }
}

proof fn lemma_visit_inline_grows(s: Seq<char>, node: SyntaxNode, m: Marks)
    ensures
        grows(m, visit_inline(s, node, m)),
{
    let nodes = node.children@;
    let count = nodes.len() as int;
    match node.kind {
        NodeKind::Emphasis | NodeKind::StrongEmphasis | NodeKind::Strikethrough => {
            let listed = match node.kind {
                NodeKind::Strikethrough => Marks {
                    strikethrough: m.strikethrough.push(node.bytes()),
                    ..m
                },
                NodeKind::Emphasis => Marks { italic: m.italic.push(node.bytes()), ..m },
                _ => Marks { bold: m.bold.push(node.bytes()), ..m },
            };
            assert(grows(m, listed));
            lemma_delimiters_grow(
                listed,
                nodes,
                NodeKind::EmphasisDelimiter,
                node.bytes(),
                count,
            );
            lemma_grows_on(m, listed, visit_inline(s, node, m));
        },
        NodeKind::CodeSpan => {
            let listed = Marks { code_spans: m.code_spans.push(node.bytes()), ..m };
            assert(grows(m, listed));
            lemma_delimiters_grow(
                listed,
                nodes,
                NodeKind::CodeSpanDelimiter,
                node.bytes(),
                count,
            );
            lemma_grows_on(m, listed, visit_inline(s, node, m));
        },
        _ => {},
    }
}

proof fn lemma_walk_inline_grows(s: Seq<char>, node: SyntaxNode, m: Marks)
    ensures
        grows(visit_inline(s, node, m), walk_inline(s, node, m)),
        grows(m, walk_inline(s, node, m)),
    decreases node,
{
    lemma_visit_inline_grows(s, node, m);
    let visited = visit_inline(s, node, m);
    lemma_walk_inlines_grow(s, node.children@, visited);
    lemma_grows_on(m, visited, walk_inline(s, node, m));
}

proof fn lemma_walk_inlines_grow(s: Seq<char>, nodes: Seq<SyntaxNode>, m: Marks)
    ensures
        grows(m, walk_inlines(s, nodes, m)),
    decreases nodes,
{
    if nodes.len() > 0 {
        let before = walk_inlines(s, nodes.drop_last(), m);
        lemma_walk_inlines_grow(s, nodes.drop_last(), m);
        lemma_walk_inline_grows(s, nodes.last(), before);
        lemma_grows_on(m, before, walk_inlines(s, nodes, m));
    }
}

/// What one of several trees adds to what those before it added is still there at the end.
proof fn lemma_inline_child(s: Seq<char>, nodes: Seq<SyntaxNode>, m: Marks, k: int)
    requires
        0 <= k < nodes.len(),
    ensures
        grows(walk_inline(s, nodes[k], walk_inlines(s, nodes.take(k), m)), walk_inlines(s, nodes, m)),
    decreases nodes.len(),
{
    if k == nodes.len() - 1 {
        assert(nodes.take(k) =~= nodes.drop_last());
    } else {
        let front = nodes.drop_last();
        lemma_inline_child(s, front, m, k);
        assert(front.take(k) =~= nodes.take(k));
        let before = walk_inlines(s, front, m);
        lemma_walk_inline_grows(s, nodes.last(), before);
        lemma_grows_on(
            walk_inline(s, nodes[k], walk_inlines(s, nodes.take(k), m)),
            before,
            walk_inlines(s, nodes, m),
        );
    }
}

/// The node that a path of child indices leads to.
pub open spec fn node_at(root: SyntaxNode, path: Seq<int>) -> SyntaxNode
    decreases path.len(),
{
    if path.len() == 0 {
        root
    } else {
        node_at(root.children@[path[0]], path.drop_first())
    }
}

/// Whether a path leads down a tree of the inline grammar, and through no formula, code span,
/// autolink or image.
pub open spec fn is_inline_path(root: SyntaxNode, path: Seq<int>) -> bool
    decreases path.len(),
{
    path.len() == 0 || {
        &&& root.kind != NodeKind::LatexBlock
        &&& root.kind != NodeKind::CodeSpan
        &&& root.kind != NodeKind::UriAutolink
        &&& root.kind != NodeKind::EmailAutolink
        &&& root.kind != NodeKind::Image
        &&& 0 <= path[0] < root.children@.len()
        &&& is_inline_path(root.children@[path[0]], path.drop_first())
    }
}

proof fn lemma_inline_visited(s: Seq<char>, root: SyntaxNode, path: Seq<int>, m: Marks) -> (at:
    Marks)
    requires
        is_inline_path(root, path),
    ensures
        grows(m, at),
        grows(visit_inline(s, node_at(root, path), at), walk_inline(s, root, m)),
    decreases path.len(),
{
    lemma_walk_inline_grows(s, root, m);
    if path.len() == 0 {
        m
    } else {
        let visited = visit_inline(s, root, m);
        let child = root.children@[path[0]];
        let before = walk_inlines(s, root.children@.take(path[0]), visited);
        lemma_visit_inline_grows(s, root, m);
        lemma_walk_inlines_grow(s, root.children@.take(path[0]), visited);
        lemma_grows_on(m, visited, before);
        lemma_inline_child(s, root.children@, visited, path[0]);
        let at = lemma_inline_visited(s, child, path.drop_first(), before);
        lemma_grows_on(m, before, at);
        lemma_grows_on(
            visit_inline(s, node_at(root, path), at),
            walk_inline(s, child, before),
            walk_inline(s, root, m),
        );
        at
    }
}

// ---------------------------------------------------------------------------------------------
// The block grammar
// ---------------------------------------------------------------------------------------------

pub(crate) proof fn lemma_ordinals_grow(s: Seq<char>, m: Marks, nodes: Seq<SyntaxNode>, count: int)
    ensures
        grows(m, with_ordinals(s, m, nodes, count)),
        with_ordinals(s, m, nodes, count).inline == m.inline,
    decreases count,
{
    if count > 0 {
        lemma_ordinals_grow(s, m, nodes, count - 1);
        lemma_grows_on(
            m,
            with_ordinals(s, m, nodes, count - 1),
            with_ordinals(s, m, nodes, count),
        );
    }
}

proof fn lemma_visit_block_grows(s: Seq<char>, node: SyntaxNode, m: Marks)
    ensures
        grows(m, visit_block(s, node, m)),
{
    if node.kind == NodeKind::ListItem {
        let nodes = node.children@;
        let with = with_ordinals(s, m, nodes, nodes.len() as int);
        lemma_ordinals_grow(s, m, nodes, nodes.len() as int);
        lemma_grows_on(m, with, with_list_item(s, m, nodes));
    }
}

proof fn lemma_walk_block_grows(s: Seq<char>, node: SyntaxNode, m: Marks)
    ensures
        grows(visit_block(s, node, m), walk_block(s, node, m)),
        grows(m, walk_block(s, node, m)),
    decreases node,
{
    lemma_visit_block_grows(s, node, m);
    let visited = visit_block(s, node, m);
    lemma_walk_blocks_grow(s, node.children@, visited);
    lemma_grows_on(m, visited, walk_block(s, node, m));
}

proof fn lemma_walk_blocks_grow(s: Seq<char>, nodes: Seq<SyntaxNode>, m: Marks)
    ensures
        grows(m, walk_blocks(s, nodes, m)),
    decreases nodes,
{
    if nodes.len() > 0 {
        let before = walk_blocks(s, nodes.drop_last(), m);
        lemma_walk_blocks_grow(s, nodes.drop_last(), m);
        lemma_walk_block_grows(s, nodes.last(), before);
        lemma_grows_on(m, before, walk_blocks(s, nodes, m));
    }
}

proof fn lemma_block_child(s: Seq<char>, nodes: Seq<SyntaxNode>, m: Marks, k: int)
    requires
        0 <= k < nodes.len(),
    ensures
        grows(walk_block(s, nodes[k], walk_blocks(s, nodes.take(k), m)), walk_blocks(s, nodes, m)),
    decreases nodes.len(),
{
    if k == nodes.len() - 1 {
        assert(nodes.take(k) =~= nodes.drop_last());
    } else {
        let front = nodes.drop_last();
        lemma_block_child(s, front, m, k);
        assert(front.take(k) =~= nodes.take(k));
        let before = walk_blocks(s, front, m);
        lemma_walk_block_grows(s, nodes.last(), before);
        lemma_grows_on(
            walk_block(s, nodes[k], walk_blocks(s, nodes.take(k), m)),
            before,
            walk_blocks(s, nodes, m),
        );
    }
}

/// Whether a node of the block grammar has its text in one piece: the walk does not go below it.
pub open spec fn is_whole_block(kind: NodeKind) -> bool {
    ||| kind == NodeKind::AtxHeading
    ||| kind == NodeKind::SetextHeading
    ||| kind == NodeKind::ThematicBreak
    ||| kind == NodeKind::PipeTable
    ||| kind == NodeKind::FencedCodeBlock
    ||| kind == NodeKind::MinusMetadata
    ||| kind == NodeKind::PlusMetadata
    ||| kind == NodeKind::HtmlBlock
    ||| kind == NodeKind::LinkReferenceDefinition
    ||| kind == NodeKind::Inline
}

/// Whether a path leads down a tree of the block grammar, and through no block that has its text in
/// one piece.
pub open spec fn is_block_path(root: SyntaxNode, path: Seq<int>) -> bool
    decreases path.len(),
{
    path.len() == 0 || {
        &&& !is_whole_block(root.kind)
        &&& 0 <= path[0] < root.children@.len()
        &&& is_block_path(root.children@[path[0]], path.drop_first())
    }
}

proof fn lemma_block_visited(s: Seq<char>, root: SyntaxNode, path: Seq<int>, m: Marks) -> (at: Marks)
    requires
        is_block_path(root, path),
    ensures
        grows(m, at),
        grows(visit_block(s, node_at(root, path), at), walk_block(s, root, m)),
    decreases path.len(),
{
    lemma_walk_block_grows(s, root, m);
    if path.len() == 0 {
        m
    } else {
        let visited = visit_block(s, root, m);
        let child = root.children@[path[0]];
        let before = walk_blocks(s, root.children@.take(path[0]), visited);
        lemma_visit_block_grows(s, root, m);
        lemma_walk_blocks_grow(s, root.children@.take(path[0]), visited);
        lemma_grows_on(m, visited, before);
        lemma_block_child(s, root.children@, visited, path[0]);
        let at = lemma_block_visited(s, child, path.drop_first(), before);
        lemma_grows_on(m, before, at);
        lemma_grows_on(
            visit_block(s, node_at(root, path), at),
            walk_block(s, child, before),
            walk_block(s, root, m),
        );
        at
    }
}

// ---------------------------------------------------------------------------------------------
// The scans
// ---------------------------------------------------------------------------------------------

pub(crate) proof fn lemma_wikilinks_grow(s: Seq<char>, m: Marks, region: (int, int), from: int)
    ensures
        grows(m, with_wikilinks(s, m, region, from)),
        with_wikilinks(s, m, region, from).code_spans == m.code_spans,
        with_wikilinks(s, m, region, from).prose_regions == m.prose_regions,
    decreases region.1 - region.0 - from,
{
    let r = piece(s, region);
    match find_pair(r, '[', '[', from) {
        Some(open) => match find_pair(r, ']', ']', open + 2) {
            Some(close) => {
                if from <= open && open + 2 <= close && close + 2 <= region.1 - region.0 {
                    let next = with_wikilink(s, m, region.0, open, close);
                    assert(grows(m, next));
                    lemma_wikilinks_grow(s, next, region, close + 2);
                    lemma_grows_on(m, next, with_wikilinks(s, m, region, from));
                }
            },
            None => {},
        },
        None => {},
    }
}

pub(crate) proof fn lemma_citations_grow(s: Seq<char>, m: Marks, region: (int, int), from: int)
    ensures
        grows(m, with_citations(s, m, region, from)),
        with_citations(s, m, region, from).code_spans == m.code_spans,
        with_citations(s, m, region, from).prose_regions == m.prose_regions,
    decreases region.1 - region.0 - from,
{
    let r = piece(s, region);
    match find_char(r, '[', from) {
        Some(open) => match find_char(r, ']', open + 1) {
            Some(close) => {
                if from <= open < close < region.1 - region.0 {
                    let next = with_citation(s, m, region, open, close);
                    assert(grows(m, next));
                    lemma_citations_grow(s, next, region, close + 1);
                    lemma_citations_grow(s, m, region, open + 1);
                    lemma_grows_on(m, next, with_citations(s, next, region, close + 1));
                }
            },
            None => {},
        },
        None => {},
    }
}

pub(crate) proof fn lemma_footnotes_grow(s: Seq<char>, m: Marks, region: (int, int), from: int)
    ensures
        grows(m, with_footnotes(s, m, region, from)),
        with_footnotes(s, m, region, from).code_spans == m.code_spans,
        with_footnotes(s, m, region, from).prose_regions == m.prose_regions,
    decreases region.1 - region.0 - from,
{
    let r = piece(s, region);
    match find_pair(r, '[', '^', from) {
        Some(open) => match find_char(r, ']', open + 2) {
            Some(close) => {
                if from <= open && open + 2 <= close < region.1 - region.0 {
                    let next = with_footnote(s, m, region.0 + open, region.0 + close + 1);
                    assert(grows(m, next));
                    lemma_footnotes_grow(s, next, region, close + 1);
                    lemma_footnotes_grow(s, m, region, open + 2);
                    lemma_grows_on(m, next, with_footnotes(s, next, region, close + 1));
                }
            },
            None => {},
        },
        None => {},
    }
}

pub(crate) proof fn lemma_highlights_grow(s: Seq<char>, m: Marks, region: (int, int), from: int)
    ensures
        grows(m, with_highlights(s, m, region, from)),
        with_highlights(s, m, region, from).code_spans == m.code_spans,
        with_highlights(s, m, region, from).prose_regions == m.prose_regions,
    decreases region.1 - region.0 - from,
{
    let r = piece(s, region);
    match find_pair(r, '=', '=', from) {
        Some(open) => match find_pair(r, '=', '=', open + 2) {
            Some(close) => {
                if from <= open && open + 2 <= close && close + 2 <= region.1 - region.0 {
                    let next = with_highlight(s, m, region.0 + open, region.0 + close + 2);
                    assert(grows(m, next));
                    lemma_highlights_grow(s, next, region, close + 2);
                    lemma_highlights_grow(s, m, region, open + 2);
                    lemma_grows_on(m, next, with_highlights(s, next, region, close + 2));
                }
            },
            None => {},
        },
        None => {},
    }
}

pub(crate) proof fn lemma_tags_grow(
    s: Seq<char>,
    m: Marks,
    base: int,
    tags: Seq<(int, int)>,
    count: int,
)
    ensures
        grows(m, with_tags(s, m, base, tags, count)),
        with_tags(s, m, base, tags, count).code_spans == m.code_spans,
        with_tags(s, m, base, tags, count).prose_regions == m.prose_regions,
    decreases count,
{
    if count > 0 {
        lemma_tags_grow(s, m, base, tags, count - 1);
        lemma_grows_on(
            m,
            with_tags(s, m, base, tags, count - 1),
            with_tags(s, m, base, tags, count),
        );
    }
}

pub(crate) proof fn lemma_scans_grow(
    s: Seq<char>,
    m: Marks,
    regions: Seq<(int, int)>,
    count: int,
)
    ensures
        grows(m, wikilinks_of(s, m, regions, count)),
        wikilinks_of(s, m, regions, count).code_spans == m.code_spans,
        wikilinks_of(s, m, regions, count).prose_regions == m.prose_regions,
        grows(m, citations_of(s, m, regions, count)),
        citations_of(s, m, regions, count).code_spans == m.code_spans,
        citations_of(s, m, regions, count).prose_regions == m.prose_regions,
        grows(m, footnotes_of(s, m, regions, count)),
        footnotes_of(s, m, regions, count).code_spans == m.code_spans,
        footnotes_of(s, m, regions, count).prose_regions == m.prose_regions,
        grows(m, highlights_of(s, m, regions, count)),
        highlights_of(s, m, regions, count).code_spans == m.code_spans,
        highlights_of(s, m, regions, count).prose_regions == m.prose_regions,
        grows(m, tags_of(s, m, regions, count)),
        tags_of(s, m, regions, count).code_spans == m.code_spans,
        tags_of(s, m, regions, count).prose_regions == m.prose_regions,
    decreases count,
{
    if count > 0 {
        lemma_scans_grow(s, m, regions, count - 1);
        match region_span(s, regions[count - 1]) {
            Some(region) => {
                let a = wikilinks_of(s, m, regions, count - 1);
                lemma_wikilinks_grow(s, a, region, 0);
                lemma_grows_on(m, a, wikilinks_of(s, m, regions, count));
                let b = citations_of(s, m, regions, count - 1);
                lemma_citations_grow(s, b, region, 0);
                lemma_grows_on(m, b, citations_of(s, m, regions, count));
                let c = footnotes_of(s, m, regions, count - 1);
                lemma_footnotes_grow(s, c, region, 0);
                lemma_grows_on(m, c, footnotes_of(s, m, regions, count));
                let d = highlights_of(s, m, regions, count - 1);
                lemma_highlights_grow(s, d, region, 0);
                lemma_grows_on(m, d, highlights_of(s, m, regions, count));
                let e = tags_of(s, m, regions, count - 1);
                let tags = region_tags(s, region);
                lemma_tags_grow(s, e, region.0, tags, tags.len() as int);
                lemma_grows_on(m, e, tags_of(s, m, regions, count));
            },
            None => {},
        }
    }
}

/// What the syntax trees came to is still there once the prose was scanned.
pub(crate) proof fn lemma_all_marks_grow(s: Seq<char>, layers: Seq<SyntaxLayer>)
    ensures
        grows(walk_layers(s, layers, layers.len() as int), all_marks(s, layers)),
{
    let walked = walk_layers(s, layers, layers.len() as int);
    let a = walked.prose_regions;
    lemma_scans_grow(s, walked, a, a.len() as int);
    let linked = wikilinks_of(s, walked, a, a.len() as int);
    let b = linked.prose_regions;
    lemma_scans_grow(s, linked, b, b.len() as int);
    let cited = citations_of(s, linked, b, b.len() as int);
    lemma_grows_on(walked, linked, cited);
    let c = cited.prose_regions;
    lemma_scans_grow(s, cited, c, c.len() as int);
    let noted = footnotes_of(s, cited, c, c.len() as int);
    lemma_grows_on(walked, cited, noted);
    let d = noted.prose_regions;
    lemma_scans_grow(s, noted, d, d.len() as int);
    let marked = highlights_of(s, noted, d, d.len() as int);
    lemma_grows_on(walked, noted, marked);
    let e = marked.prose_regions;
    lemma_scans_grow(s, marked, e, e.len() as int);
    lemma_grows_on(walked, marked, all_marks(s, layers));
}

// ---------------------------------------------------------------------------------------------
// The layers
// ---------------------------------------------------------------------------------------------

proof fn lemma_layers_grow(s: Seq<char>, layers: Seq<SyntaxLayer>, i: int, count: int)
    requires
        0 <= i <= count <= layers.len(),
    ensures
        grows(walk_layers(s, layers, i), walk_layers(s, layers, count)),
    decreases count - i,
{
    if i < count {
        let before = walk_layers(s, layers, count - 1);
        lemma_layers_grow(s, layers, i, count - 1);
        lemma_walk_block_grows(s, layers[count - 1].root, before);
        lemma_walk_inline_grows(s, layers[count - 1].root, before);
        lemma_grows_on(walk_layers(s, layers, i), before, walk_layers(s, layers, count));
    }
}

/// Whether a node stands in a tree of the inline grammar where the walk reaches it.
pub open spec fn is_inline_node(
    layers: Seq<SyntaxLayer>,
    layer: int,
    path: Seq<int>,
    node: SyntaxNode,
) -> bool {
    &&& 0 <= layer < layers.len()
    &&& layers[layer].language@ == "Markdown-Inline"@
    &&& is_inline_path(layers[layer].root, path)
    &&& node == node_at(layers[layer].root, path)
}

/// Whether a node stands in a tree of the block grammar where the walk reaches it.
pub open spec fn is_block_node(
    layers: Seq<SyntaxLayer>,
    layer: int,
    path: Seq<int>,
    node: SyntaxNode,
) -> bool {
    &&& 0 <= layer < layers.len()
    &&& layers[layer].language@ == "Markdown"@
    &&& is_block_path(layers[layer].root, path)
    &&& node == node_at(layers[layer].root, path)
}

pub(crate) proof fn lemma_inline_node(
    s: Seq<char>,
    layers: Seq<SyntaxLayer>,
    layer: int,
    path: Seq<int>,
    node: SyntaxNode,
) -> (at: Marks)
    requires
        is_inline_node(layers, layer, path, node),
    ensures
        grows(visit_inline(s, node, at), walk_layers(s, layers, layers.len() as int)),
        grows(visit_inline(s, node, at), all_marks(s, layers)),
{
    let before = walk_layers(s, layers, layer);
    let root = layers[layer].root;
    reveal_strlit("Markdown");
    reveal_strlit("Markdown-Inline");
    assert("Markdown"@.len() != "Markdown-Inline"@.len());
    let at = lemma_inline_visited(s, root, path, before);
    lemma_layers_grow(s, layers, layer + 1, layers.len() as int);
    let walked = walk_layers(s, layers, layers.len() as int);
    lemma_grows_on(visit_inline(s, node, at), walk_inline(s, root, before), walked);
    lemma_all_marks_grow(s, layers);
    lemma_grows_on(visit_inline(s, node, at), walked, all_marks(s, layers));
    at
}

pub(crate) proof fn lemma_block_node(
    s: Seq<char>,
    layers: Seq<SyntaxLayer>,
    layer: int,
    path: Seq<int>,
    node: SyntaxNode,
) -> (at: Marks)
    requires
        is_block_node(layers, layer, path, node),
    ensures
        grows(visit_block(s, node, at), walk_layers(s, layers, layers.len() as int)),
        grows(visit_block(s, node, at), all_marks(s, layers)),
{
    let before = walk_layers(s, layers, layer);
    let root = layers[layer].root;
    let at = lemma_block_visited(s, root, path, before);
    lemma_layers_grow(s, layers, layer + 1, layers.len() as int);
    let walked = walk_layers(s, layers, layers.len() as int);
    lemma_grows_on(visit_block(s, node, at), walk_block(s, root, before), walked);
    lemma_all_marks_grow(s, layers);
    lemma_grows_on(visit_block(s, node, at), walked, all_marks(s, layers));
    at
}

// ---------------------------------------------------------------------------------------------
// Emphasis, code and links
// ---------------------------------------------------------------------------------------------

/// Whether a text hides a byte range until the selection touches another.
pub open spec fn hides(marks: Marks, range: (int, int), reveal_span: (int, int)) -> bool {
    marks.inline.contains(InlineMark { range, look: InlineLook::Hide { reveal_span } })
}

/// The byte range of a node.
pub open spec fn bytes_of(node: SyntaxNode) -> (int, int) {
    (node.start as int, node.end as int)
}

proof fn lemma_delimiter_is_hidden(
    m: Marks,
    nodes: Seq<SyntaxNode>,
    kind: NodeKind,
    reveal: (int, int),
    count: int,
    k: int,
)
    requires
        0 <= k < count <= nodes.len(),
        nodes[k].kind == kind,
        nodes[k].start < nodes[k].end,
    ensures
        hides(with_delimiters(m, nodes, kind, reveal, count), bytes_of(nodes[k]), reveal),
    decreases count,
{
    let mark = InlineMark {
        range: bytes_of(nodes[k]),
        look: InlineLook::Hide { reveal_span: reveal },
    };
    let before = with_delimiters(m, nodes, kind, reveal, count - 1);
    let after = with_delimiters(m, nodes, kind, reveal, count);
    if k == count - 1 {
        lemma_last_is_there(before.inline, mark);
    } else {
        lemma_delimiter_is_hidden(m, nodes, kind, reveal, count - 1, k);
        lemma_still_there(before.inline, after.inline, mark);
    }
}

/// Text between single, double or tilde delimiters is styled as italic, bold or struck through, and
/// each of its delimiters is hidden until the selection touches the whole.
pub proof fn law_emphasis_hides_its_delimiters(
    s: Seq<char>,
    layers: Seq<SyntaxLayer>,
    layer: int,
    path: Seq<int>,
    node: SyntaxNode,
    k: int,
)
    requires
        is_inline_node(layers, layer, path, node),
        node.kind == NodeKind::Emphasis || node.kind == NodeKind::StrongEmphasis || node.kind
            == NodeKind::Strikethrough,
    ensures
        ({
            let marks = all_marks(s, layers);
            &&& node.kind == NodeKind::Emphasis ==> marks.italic.contains(bytes_of(node))
            &&& node.kind == NodeKind::StrongEmphasis ==> marks.bold.contains(bytes_of(node))
            &&& node.kind == NodeKind::Strikethrough ==> marks.strikethrough.contains(
                bytes_of(node),
            )
            &&& 0 <= k < node.children@.len() && node.children@[k].kind
                == NodeKind::EmphasisDelimiter && node.children@[k].start < node.children@[k].end
                ==> hides(marks, bytes_of(node.children@[k]), bytes_of(node))
        }),
{
    let at = lemma_inline_node(s, layers, layer, path, node);
    let visited = visit_inline(s, node, at);
    let marks = all_marks(s, layers);
    let nodes = node.children@;
    let kind = NodeKind::EmphasisDelimiter;
    let bytes = bytes_of(node);
    let listed = match node.kind {
        NodeKind::Strikethrough => Marks { strikethrough: at.strikethrough.push(bytes), ..at },
        NodeKind::Emphasis => Marks { italic: at.italic.push(bytes), ..at },
        _ => Marks { bold: at.bold.push(bytes), ..at },
    };
    lemma_delimiters_grow(listed, nodes, kind, bytes, nodes.len() as int);
    lemma_grows_on(listed, visited, marks);
    lemma_last_is_there(at.italic, bytes);
    lemma_last_is_there(at.bold, bytes);
    lemma_last_is_there(at.strikethrough, bytes);
    if node.kind == NodeKind::Emphasis {
        lemma_still_there(listed.italic, marks.italic, bytes);
    } else if node.kind == NodeKind::StrongEmphasis {
        lemma_still_there(listed.bold, marks.bold, bytes);
    } else {
        lemma_still_there(listed.strikethrough, marks.strikethrough, bytes);
    }
    if 0 <= k < nodes.len() && nodes[k].kind == kind && nodes[k].start < nodes[k].end {
        lemma_delimiter_is_hidden(listed, nodes, kind, bytes, nodes.len() as int, k);
        let mark = InlineMark {
            range: bytes_of(nodes[k]),
            look: InlineLook::Hide { reveal_span: bytes },
        };
        lemma_still_there(visited.inline, marks.inline, mark);
    }
}

/// A code span is known as code, and each of its delimiters is hidden until the selection touches
/// the whole.
pub proof fn law_code_hides_its_delimiters(
    s: Seq<char>,
    layers: Seq<SyntaxLayer>,
    layer: int,
    path: Seq<int>,
    node: SyntaxNode,
    k: int,
)
    requires
        is_inline_node(layers, layer, path, node),
        node.kind == NodeKind::CodeSpan,
    ensures
        ({
            let marks = all_marks(s, layers);
            &&& marks.code_spans.contains(bytes_of(node))
            &&& 0 <= k < node.children@.len() && node.children@[k].kind
                == NodeKind::CodeSpanDelimiter && node.children@[k].start < node.children@[k].end
                ==> hides(marks, bytes_of(node.children@[k]), bytes_of(node))
        }),
{
    let at = lemma_inline_node(s, layers, layer, path, node);
    let visited = visit_inline(s, node, at);
    let marks = all_marks(s, layers);
    let nodes = node.children@;
    let kind = NodeKind::CodeSpanDelimiter;
    let bytes = bytes_of(node);
    let listed = Marks { code_spans: at.code_spans.push(bytes), ..at };
    lemma_delimiters_grow(listed, nodes, kind, bytes, nodes.len() as int);
    lemma_grows_on(listed, visited, marks);
    lemma_last_is_there(at.code_spans, bytes);
    lemma_still_there(listed.code_spans, marks.code_spans, bytes);
    if 0 <= k < nodes.len() && nodes[k].kind == kind && nodes[k].start < nodes[k].end {
        lemma_delimiter_is_hidden(listed, nodes, kind, bytes, nodes.len() as int, k);
        let mark = InlineMark {
            range: bytes_of(nodes[k]),
            look: InlineLook::Hide { reveal_span: bytes },
        };
        lemma_still_there(visited.inline, marks.inline, mark);
    }
}

proof fn lemma_first_index_is(nodes: Seq<SyntaxNode>, kind: NodeKind, i: int, k: int)
    requires
        0 <= i <= k < nodes.len(),
        nodes[k].kind == kind,
        forall|m: int| i <= m < k ==> (#[trigger] nodes[m]).kind != kind,
    ensures
        first_index(nodes, kind, i) == Some(k),
        first_child(nodes, kind, i) == Some(nodes[k]),
    decreases k - i,
{
    if i < k {
        lemma_first_index_is(nodes, kind, i + 1, k);
    }
}

proof fn lemma_last_index_is(nodes: Seq<SyntaxNode>, kind: NodeKind, count: int, k: int)
    requires
        0 <= k < count <= nodes.len(),
        nodes[k].kind == kind,
        forall|m: int| k < m < count ==> (#[trigger] nodes[m]).kind != kind,
    ensures
        last_index(nodes, kind, count) == Some(k),
    decreases count,
{
    if k < count - 1 {
        lemma_last_index_is(nodes, kind, count - 1, k);
    }
}

/// Whether a child is the first of a kind.
pub open spec fn is_first_of_kind(node: SyntaxNode, kind: NodeKind, k: int) -> bool {
    &&& 0 <= k < node.children@.len()
    &&& node.children@[k].kind == kind
    &&& forall|m: int| 0 <= m < k ==> (#[trigger] node.children@[m]).kind != kind
}

/// Whether a child is the last of a kind.
pub open spec fn is_last_of_kind(node: SyntaxNode, kind: NodeKind, k: int) -> bool {
    &&& 0 <= k < node.children@.len()
    &&& node.children@[k].kind == kind
    &&& forall|m: int| k < m < node.children@.len() ==> (#[trigger] node.children@[m]).kind != kind
}

/// A link hides the bracket that it opens with, and everything from its last closing bracket on, and
/// what stands between the two is its text.
pub proof fn law_a_link_shows_its_text(
    s: Seq<char>,
    layers: Seq<SyntaxLayer>,
    layer: int,
    path: Seq<int>,
    node: SyntaxNode,
    open: int,
    close: int,
)
    requires
        is_inline_node(layers, layer, path, node),
        node.kind == NodeKind::InlineLink || node.kind == NodeKind::FullReferenceLink || node.kind
            == NodeKind::CollapsedReferenceLink,
        is_first_of_kind(node, NodeKind::OpenBracket, open),
        is_last_of_kind(node, NodeKind::CloseBracket, close),
        node.children@[open].start < node.children@[open].end <= node.children@[close].start
            < node.end,
    ensures
        ({
            let marks = all_marks(s, layers);
            let opens = node.children@[open];
            let closes = node.children@[close];
            &&& hides(marks, bytes_of(opens), bytes_of(node))
            &&& hides(marks, (closes.start as int, node.end as int), bytes_of(node))
            &&& opens.end < closes.start ==> marks.link_text.contains(
                (opens.end as int, closes.start as int),
            )
        }),
{
    let at = lemma_inline_node(s, layers, layer, path, node);
    let visited = visit_inline(s, node, at);
    let marks = all_marks(s, layers);
    let nodes = node.children@;
    lemma_first_index_is(nodes, NodeKind::OpenBracket, 0, open);
    lemma_last_index_is(nodes, NodeKind::CloseBracket, nodes.len() as int, close);
    let bytes = bytes_of(node);
    let first = InlineMark {
        range: bytes_of(nodes[open]),
        look: InlineLook::Hide { reveal_span: bytes },
    };
    let second = InlineMark {
        range: (nodes[close].start as int, node.end as int),
        look: InlineLook::Hide { reveal_span: bytes },
    };
    assert(visited.inline == at.inline.push(first).push(second));
    assert(visited.inline[at.inline.len() as int] == first);
    assert(visited.inline[at.inline.len() + 1int] == second);
    lemma_still_there(visited.inline, marks.inline, first);
    lemma_still_there(visited.inline, marks.inline, second);
    if nodes[open].end < nodes[close].start {
        let text = (nodes[open].end as int, nodes[close].start as int);
        assert(visited.link_text == at.link_text.push(text));
        lemma_last_is_there(at.link_text, text);
        lemma_still_there(visited.link_text, marks.link_text, text);
    }
}

/// An autolink hides its angle brackets.
pub proof fn law_an_autolink_hides_its_brackets(
    s: Seq<char>,
    layers: Seq<SyntaxLayer>,
    layer: int,
    path: Seq<int>,
    node: SyntaxNode,
)
    requires
        is_inline_node(layers, layer, path, node),
        node.kind == NodeKind::UriAutolink || node.kind == NodeKind::EmailAutolink,
        node.start + 2 <= node.end,
    ensures
        hides(all_marks(s, layers), (node.start as int, node.start + 1), bytes_of(node)),
        hides(all_marks(s, layers), (node.end - 1, node.end as int), bytes_of(node)),
{
    let at = lemma_inline_node(s, layers, layer, path, node);
    let visited = visit_inline(s, node, at);
    let marks = all_marks(s, layers);
    let bytes = bytes_of(node);
    let first = InlineMark {
        range: (node.start as int, node.start + 1),
        look: InlineLook::Hide { reveal_span: bytes },
    };
    let second = InlineMark {
        range: (node.end - 1, node.end as int),
        look: InlineLook::Hide { reveal_span: bytes },
    };
    assert(visited.inline == at.inline.push(first).push(second));
    assert(visited.inline[at.inline.len() as int] == first);
    assert(visited.inline[at.inline.len() + 1int] == second);
    lemma_still_there(visited.inline, marks.inline, first);
    lemma_still_there(visited.inline, marks.inline, second);
}

// ---------------------------------------------------------------------------------------------
// Images and formulas
// ---------------------------------------------------------------------------------------------

/// An image among other text shows its alt text: what stands before and behind that is hidden.
pub proof fn law_an_image_in_a_line_shows_its_alt_text(
    s: Seq<char>,
    layers: Seq<SyntaxLayer>,
    layer: int,
    path: Seq<int>,
    node: SyntaxNode,
    k: int,
)
    requires
        is_inline_node(layers, layer, path, node),
        node.kind == NodeKind::Image,
        !starts_with(node_text(s, node), "![["@),
        !alone_on_line(s, node),
        is_first_of_kind(node, NodeKind::ImageDescription, k),
        node.start < node.children@[k].start <= node.children@[k].end < node.end,
    ensures
        ({
            let marks = all_marks(s, layers);
            let alt = node.children@[k];
            &&& hides(marks, (node.start as int, alt.start as int), bytes_of(node))
            &&& hides(marks, (alt.end as int, node.end as int), bytes_of(node))
        }),
{
    let at = lemma_inline_node(s, layers, layer, path, node);
    let visited = visit_inline(s, node, at);
    let marks = all_marks(s, layers);
    let bytes = bytes_of(node);
    let alt = node.children@[k];
    lemma_first_index_is(node.children@, NodeKind::ImageDescription, 0, k);
    let first = InlineMark {
        range: (node.start as int, alt.start as int),
        look: InlineLook::Hide { reveal_span: bytes },
    };
    let second = InlineMark {
        range: (alt.end as int, node.end as int),
        look: InlineLook::Hide { reveal_span: bytes },
    };
    assert(visited.inline == at.inline.push(first).push(second));
    assert(visited.inline[at.inline.len() as int] == first);
    assert(visited.inline[at.inline.len() + 1int] == second);
    lemma_still_there(visited.inline, marks.inline, first);
    lemma_still_there(visited.inline, marks.inline, second);
}

/// Whether a block of a text shows in some way over a run of rows, at about this height.
pub open spec fn has_block(
    s: Seq<char>,
    marks: Marks,
    first: int,
    last: int,
    look: BlockLook,
    height: int,
) -> bool {
    exists|i: int|
        0 <= i < marks.blocks.len() && (#[trigger] marks.blocks[i]).range == (
            byte_offset(s, lines(s)[first].0) as int,
            byte_offset(s, lines(s)[last].1) as int,
        ) && marks.blocks[i].look == look && marks.blocks[i].height_estimate == height
}

pub(crate) proof fn lemma_has_block(
    s: Seq<char>,
    before: Marks,
    visited: Marks,
    after: Marks,
    first: int,
    last: int,
    look: BlockLook,
    height: int,
)
    requires
        visited.blocks.len() == before.blocks.len() + 1,
        visited.blocks[before.blocks.len() as int].range == rows_span(s, first, last),
        visited.blocks[before.blocks.len() as int].look == look,
        visited.blocks[before.blocks.len() as int].height_estimate == height,
        grows(visited, after),
    ensures
        has_block(s, after, first, last, look, height),
{
    let i = before.blocks.len() as int;
    assert(visited.blocks[i] == after.blocks[i]);
}

/// An image alone on its line is a block of that row. What stands behind the last pipe of its alt
/// text is its size.
pub proof fn law_an_image_alone_on_its_line_is_a_block(
    s: Seq<char>,
    layers: Seq<SyntaxLayer>,
    layer: int,
    path: Seq<int>,
    node: SyntaxNode,
)
    requires
        is_inline_node(layers, layer, path, node),
        node.kind == NodeKind::Image,
        !starts_with(node_text(s, node), "![["@),
        alone_on_line(s, node),
    ensures
        ({
            let row = row_at(s, node.start as int);
            has_block(s, all_marks(s, layers), row, row, image_look(s, node), 8)
        }),
{
    let at = lemma_inline_node(s, layers, layer, path, node);
    let row = row_at(s, node.start as int);
    let visited = visit_inline(s, node, at);
    lemma_has_block(s, at, visited, all_marks(s, layers), row, row, image_look(s, node), 8);
}

/// What an image is drawn from: the text of its destination, its alt text up to the last pipe, and
/// the digits behind that as its width.
pub proof fn law_an_image_has_its_parts(
    s: Seq<char>,
    node: SyntaxNode,
    alt_at: int,
    to_at: int,
    alt: Seq<char>,
    digits: Seq<char>,
    rest: Seq<char>,
)
    requires
        is_first_of_kind(node, NodeKind::ImageDescription, alt_at),
        is_first_of_kind(node, NodeKind::LinkDestination, to_at),
        node_text(s, node.children@[alt_at]) == alt.push('|') + digits + rest,
        forall|i: int| 0 <= i < digits.len() ==> '0' <= #[trigger] digits[i] <= '9',
        rest.len() > 0 ==> !('0' <= rest[0] <= '9'),
        forall|i: int| 0 <= i < rest.len() ==> #[trigger] rest[i] != '|',
    ensures
        image_look(s, node) == (BlockLook::Image {
            display_width: if exists|i: int| 0 <= i < digits.len() && #[trigger] digits[i] != '0' {
                Some(digits)
            } else {
                None
            },
            destination: Some(node_text(s, node.children@[to_at])),
            alt,
        }),
{
    lemma_first_index_is(node.children@, NodeKind::ImageDescription, 0, alt_at);
    lemma_first_index_is(node.children@, NodeKind::LinkDestination, 0, to_at);
    let text = alt.push('|') + digits + rest;
    let at = alt.len() as int;
    assert(text[at] == '|');
    assert forall|k: int| at < k < text.len() implies #[trigger] text[k] != '|' by {
        if k <= at + digits.len() {
            assert(text[k] == digits[k - at - 1]);
        } else {
            assert(text[k] == rest[k - at - 1 - digits.len()]);
        }
    }
    lemma_find_char_back(text, '|', text.len() as int);
    assert(find_char_back(text, '|', text.len() as int) == Some(at));
    assert(text.take(at) =~= alt);
    let size = text.skip(at + 1);
    assert(size =~= digits + rest);
    let class = CharClass::Digit;
    lemma_run_end(size, class, 0);
    let end = run_end(size, class, 0);
    assert(end == digits.len()) by {
        if end < digits.len() {
            assert(size[end] == digits[end]);
        } else if digits.len() < end {
            assert(class.holds(size[digits.len() as int]));
            assert(size[digits.len() as int] == rest[0]);
        }
    }
    assert(size.take(end) =~= digits);
}

/// Whether a text has a character that is no white space.
pub open spec fn has_ink(text: Seq<char>) -> bool {
    exists|i: int| 0 <= i < text.len() && !white_space(#[trigger] text[i])
}

/// A formula between dollar signs: with two or more of them it is display math, and with one its text
/// must sit tight. Display math that is alone on its lines is a block, any other formula an inline
/// marker over the whole.
pub proof fn law_a_formula_is_typeset(
    s: Seq<char>,
    layers: Seq<SyntaxLayer>,
    layer: int,
    path: Seq<int>,
    node: SyntaxNode,
    open: int,
    close: int,
    source: Seq<char>,
)
    requires
        is_inline_node(layers, layer, path, node),
        node.kind == NodeKind::LatexBlock,
        is_first_of_kind(node, NodeKind::LatexSpanDelimiter, open),
        is_last_of_kind(node, NodeKind::LatexSpanDelimiter, close),
        open < close,
        node.children@[open].end <= node.children@[close].start,
        source == s.subrange(
            index_at(s, node.children@[open].end as int),
            index_at(s, node.children@[close].start as int),
        ),
        has_ink(source),
    ensures
        ({
            let marks = all_marks(s, layers);
            let display = node.children@[open].end - node.children@[open].start >= 2;
            let tight = !white_space(source[0]) && !white_space(source[source.len() - 1]);
            let rows = node_rows(s, node);
            &&& display && alone_on_its_lines(s, node) ==> has_block(
                s,
                marks,
                rows.0,
                rows.1,
                BlockLook::Math { source },
                if rows.1 > rows.0 {
                    rows.1 - rows.0 + 1
                } else {
                    2
                },
            )
            &&& (display && !alone_on_its_lines(s, node)) || (!display && tight)
                ==> marks.inline.contains(
                InlineMark {
                    range: bytes_of(node),
                    look: InlineLook::Math { source, style: MathStyle::Inline },
                },
            )
        }),
{
    let at = lemma_inline_node(s, layers, layer, path, node);
    let visited = visit_inline(s, node, at);
    let marks = all_marks(s, layers);
    let nodes = node.children@;
    lemma_first_index_is(nodes, NodeKind::LatexSpanDelimiter, 0, open);
    lemma_last_index_is(nodes, NodeKind::LatexSpanDelimiter, nodes.len() as int, close);
    let bounds = lemma_trim_bounds(source);
    let display = nodes[open].end - nodes[open].start >= 2;
    let rows = node_rows(s, node);
    let mark = InlineMark {
        range: bytes_of(node),
        look: InlineLook::Math { source, style: MathStyle::Inline },
    };
    if display && alone_on_its_lines(s, node) {
        let height = if rows.1 > rows.0 {
            rows.1 - rows.0 + 1
        } else {
            2
        };
        lemma_has_block(s, at, visited, marks, rows.0, rows.1, BlockLook::Math { source }, height);
    } else if display || (!white_space(source[0]) && !white_space(source[source.len() - 1])) {
        assert(visited.inline == at.inline.push(mark));
        lemma_last_is_there(at.inline, mark);
        lemma_still_there(visited.inline, marks.inline, mark);
    }
}

/// Text between single dollar signs that does not sit tight between them is prose, and so is text
/// that is nothing but white space.
pub proof fn law_loose_dollars_are_prose(
    s: Seq<char>,
    node: SyntaxNode,
    m: Marks,
    open: int,
    close: int,
    source: Seq<char>,
)
    requires
        node.kind == NodeKind::LatexBlock,
        is_first_of_kind(node, NodeKind::LatexSpanDelimiter, open),
        is_last_of_kind(node, NodeKind::LatexSpanDelimiter, close),
        source == s.subrange(
            index_at(s, node.children@[open].end as int),
            index_at(s, node.children@[close].start as int),
        ),
        ({
            let display = node.children@[open].end - node.children@[open].start >= 2;
            let loose = source.len() > 0 && (white_space(source[0]) || white_space(
                source[source.len() - 1],
            ));
            !has_ink(source) || (!display && loose)
        }),
    ensures
        visit_inline(s, node, m) == m,
{
    let nodes = node.children@;
    lemma_first_index_is(nodes, NodeKind::LatexSpanDelimiter, 0, open);
    lemma_last_index_is(nodes, NodeKind::LatexSpanDelimiter, nodes.len() as int, close);
    let bounds = lemma_trim_bounds(source);
}

} // verus!
