//! Every block that is found starts no later than it ends.

use crate::document::{lemma_rows_grow, node_rows, row_at, rows_span};
use crate::extract::{all_marks, layers_fit, walk_layers, SyntaxLayer};
use crate::extraction::{
    all_fit, visit_block, walk_block, walk_blocks, with_list_item, with_ordinals, Marks,
};
use crate::inline_layer::{
    visit_inline, walk_inline, walk_inlines, with_delimiters, with_link, wrapped_image,
};
use crate::markers::BlockMark;
use crate::scans::{
    citations_of, footnotes_of, highlights_of, region_span, region_tags, tags_of, wikilinks_of,
    with_citation, with_citations, with_footnote, with_footnotes, with_highlight, with_highlights,
    with_tags, with_wikilink, with_wikilinks,
};
use crate::syntax::{first_child, NodeKind, SyntaxNode};
use crate::table::{block_bottom, block_top, first_delimiter, row_near, table_near};
use crate::table_round_trip::{lemma_block_bounds, lemma_first_delimiter};
use crate::text::{
    byte_offset, find_char, find_pair, lemma_byte_offset_grows, lemma_split_from, lines, piece,
};
use vstd::prelude::*;

verus! {

/// Whether each of several blocks starts no later than it ends.
pub open spec fn blocks_hold(blocks: Seq<BlockMark>) -> bool {
    forall|k: int|
        0 <= k < blocks.len() ==> 0 <= (#[trigger] blocks[k]).range.0 <= blocks[k].range.1
}

proof fn lemma_rows_span_holds(s: Seq<char>, first: int, last: int)
    requires
        0 <= first <= last < lines(s).len(),
    ensures
        0 <= rows_span(s, first, last).0 <= rows_span(s, first, last).1,
{
    lemma_split_from(s, '\n', 0);
    assert(lines(s)[first].0 <= lines(s)[first].1);
    assert(lines(s)[last].0 <= lines(s)[last].1);
    if first < last {
        assert(lines(s)[first].1 < lines(s)[last].0);
    }
    lemma_byte_offset_grows(s, lines(s)[first].0, lines(s)[last].1);
}

proof fn lemma_node_rows_hold(s: Seq<char>, node: SyntaxNode)
    requires
        node.start <= node.end,
    ensures
        ({
            let rows = node_rows(s, node);
            &&& 0 <= rows.0 <= rows.1 < lines(s).len()
            &&& 0 <= rows_span(s, rows.0, rows.1).0 <= rows_span(s, rows.0, rows.1).1
        }),
{
    lemma_split_from(s, '\n', 0);
    lemma_rows_grow(s, lines(s), node.start as int, node.end as int, 0);
    let rows = node_rows(s, node);
    lemma_rows_span_holds(s, rows.0, rows.1);
}

proof fn lemma_row_holds(s: Seq<char>, offset: int)
    ensures
        ({
            let row = row_at(s, offset);
            0 <= rows_span(s, row, row).0 <= rows_span(s, row, row).1
        }),
{
    lemma_split_from(s, '\n', 0);
    lemma_rows_grow(s, lines(s), offset, offset, 0);
    lemma_rows_span_holds(s, row_at(s, offset), row_at(s, offset));
}

// ---------------------------------------------------------------------------------------------
// Tables
// ---------------------------------------------------------------------------------------------

proof fn lemma_table_span_holds(s: Seq<char>, near: int)
    ensures
        table_near(s, near) matches Some((span, _)) ==> 0 <= span.0 <= span.1,
{
    let rows = lines(s);
    lemma_split_from(s, '\n', 0);
    lemma_rows_grow(s, rows, near, near, 0);
    let row = row_near(s, rows, near, 0);
    lemma_block_bounds(s, rows, row);
    let top = block_top(s, rows, row);
    let last = block_bottom(s, rows, row);
    lemma_first_delimiter(s, rows, top + 1, last);
    match first_delimiter(s, rows, top + 1, last) {
        Some(delimiter) => {
            lemma_rows_span_holds(s, delimiter - 1, last);
        },
        None => {},
    }
}

// ---------------------------------------------------------------------------------------------
// The block grammar
// ---------------------------------------------------------------------------------------------

proof fn lemma_ordinals_keep_blocks(s: Seq<char>, m: Marks, nodes: Seq<SyntaxNode>, count: int)
    ensures
        with_ordinals(s, m, nodes, count).blocks == m.blocks,
    decreases count,
{
    if count > 0 {
        lemma_ordinals_keep_blocks(s, m, nodes, count - 1);
    }
}

proof fn lemma_visit_block_holds(s: Seq<char>, node: SyntaxNode, m: Marks)
    requires
        node.start <= node.end,
        blocks_hold(m.blocks),
    ensures
        blocks_hold(visit_block(s, node, m).blocks),
{
    lemma_node_rows_hold(s, node);
    match node.kind {
        NodeKind::PipeTable => {
            lemma_table_span_holds(s, node.start as int);
            match table_near(s, node.start as int) {
                Some((span, _)) => {
                    lemma_split_from(s, '\n', 0);
                    lemma_rows_grow(s, lines(s), span.0, span.1, 0);
                    lemma_rows_span_holds(s, row_at(s, span.0), row_at(s, span.1));
                },
                None => {},
            }
        },
        NodeKind::ListItem => {
            lemma_ordinals_keep_blocks(s, m, node.children@, node.children@.len() as int);
            assert(with_list_item(s, m, node.children@).blocks == m.blocks);
        },
        _ => {},
    }
}

proof fn lemma_walk_block_holds(s: Seq<char>, node: SyntaxNode, m: Marks)
    requires
        node.fits(s),
        blocks_hold(m.blocks),
    ensures
        blocks_hold(walk_block(s, node, m).blocks),
    decreases node,
{
    lemma_visit_block_holds(s, node, m);
    lemma_walk_blocks_hold(s, node.children@, visit_block(s, node, m));
}

proof fn lemma_walk_blocks_hold(s: Seq<char>, nodes: Seq<SyntaxNode>, m: Marks)
    requires
        all_fit(nodes, s),
        blocks_hold(m.blocks),
    ensures
        blocks_hold(walk_blocks(s, nodes, m).blocks),
    decreases nodes,
{
    if nodes.len() > 0 {
        assert(nodes[nodes.len() - 1].fits(s));
        assert(all_fit(nodes.drop_last(), s)) by {
            assert forall|i: int| 0 <= i < nodes.drop_last().len() implies (
            #[trigger] nodes.drop_last()[i]).fits(s) by {
                assert(nodes[i].fits(s));
            }
        }
        lemma_walk_blocks_hold(s, nodes.drop_last(), m);
        lemma_walk_block_holds(s, nodes.last(), walk_blocks(s, nodes.drop_last(), m));
    }
}

// ---------------------------------------------------------------------------------------------
// The inline grammar
// ---------------------------------------------------------------------------------------------

proof fn lemma_delimiters_keep_blocks(
    m: Marks,
    nodes: Seq<SyntaxNode>,
    kind: NodeKind,
    reveal: (int, int),
    count: int,
)
    ensures
        with_delimiters(m, nodes, kind, reveal, count).blocks == m.blocks,
    decreases count,
{
    if count > 0 {
        lemma_delimiters_keep_blocks(m, nodes, kind, reveal, count - 1);
    }
}

proof fn lemma_first_child_fits(s: Seq<char>, nodes: Seq<SyntaxNode>, kind: NodeKind, i: int)
    requires
        all_fit(nodes, s),
    ensures
        first_child(nodes, kind, i) matches Some(child) ==> child.fits(s),
    decreases nodes.len() - i,
{
    if 0 <= i < nodes.len() {
        assert(nodes[i].fits(s));
        lemma_first_child_fits(s, nodes, kind, i + 1);
    }
}

proof fn lemma_wrapped_image_fits(s: Seq<char>, nodes: Seq<SyntaxNode>, i: int)
    requires
        all_fit(nodes, s),
    ensures
        wrapped_image(nodes, i) matches Some(image) ==> image.fits(s),
    decreases nodes.len() - i,
{
    if 0 <= i < nodes.len() {
        assert(nodes[i].fits(s));
        lemma_first_child_fits(s, nodes[i].children@, NodeKind::Image, 0);
        lemma_wrapped_image_fits(s, nodes, i + 1);
    }
}

proof fn lemma_visit_inline_holds(s: Seq<char>, node: SyntaxNode, m: Marks)
    requires
        node.fits(s),
        blocks_hold(m.blocks),
    ensures
        blocks_hold(visit_inline(s, node, m).blocks),
{
    let nodes = node.children@;
    let count = nodes.len() as int;
    match node.kind {
        NodeKind::Emphasis | NodeKind::StrongEmphasis | NodeKind::Strikethrough => {
            let listed = match node.kind {
                NodeKind::Strikethrough => Marks {
                    strikethrough: m.strikethrough.push(node.bytes()),
                    ..m
                },
                NodeKind::Emphasis => Marks { italic: m.italic.push(node.bytes()), ..m },
                _ => Marks { bold: m.bold.push(node.bytes()), ..m },
            };
            lemma_delimiters_keep_blocks(
                listed,
                nodes,
                NodeKind::EmphasisDelimiter,
                node.bytes(),
                count,
            );
        },
        NodeKind::LatexBlock => {
            lemma_node_rows_hold(s, node);
        },
        NodeKind::CodeSpan => {
            lemma_delimiters_keep_blocks(
                Marks { code_spans: m.code_spans.push(node.bytes()), ..m },
                nodes,
                NodeKind::CodeSpanDelimiter,
                node.bytes(),
                count,
            );
        },
        NodeKind::InlineLink
        | NodeKind::FullReferenceLink
        | NodeKind::CollapsedReferenceLink => {
            lemma_wrapped_image_fits(s, nodes, 0);
            assert(blocks_hold(with_link(s, m, node).blocks));
        },
        NodeKind::Image => {
            lemma_row_holds(s, node.start as int);
        },
        _ => {},
    }
}

proof fn lemma_walk_inline_holds(s: Seq<char>, node: SyntaxNode, m: Marks)
    requires
        node.fits(s),
        blocks_hold(m.blocks),
    ensures
        blocks_hold(walk_inline(s, node, m).blocks),
    decreases node,
{
    lemma_visit_inline_holds(s, node, m);
    lemma_walk_inlines_hold(s, node.children@, visit_inline(s, node, m));
}

proof fn lemma_walk_inlines_hold(s: Seq<char>, nodes: Seq<SyntaxNode>, m: Marks)
    requires
        all_fit(nodes, s),
        blocks_hold(m.blocks),
    ensures
        blocks_hold(walk_inlines(s, nodes, m).blocks),
    decreases nodes,
{
    if nodes.len() > 0 {
        assert(nodes[nodes.len() - 1].fits(s));
        assert(all_fit(nodes.drop_last(), s)) by {
            assert forall|i: int| 0 <= i < nodes.drop_last().len() implies (
            #[trigger] nodes.drop_last()[i]).fits(s) by {
                assert(nodes[i].fits(s));
            }
        }
        lemma_walk_inlines_hold(s, nodes.drop_last(), m);
        lemma_walk_inline_holds(s, nodes.last(), walk_inlines(s, nodes.drop_last(), m));
    }
}

// ---------------------------------------------------------------------------------------------
// The scans
// ---------------------------------------------------------------------------------------------

proof fn lemma_wikilinks_hold(s: Seq<char>, m: Marks, region: (int, int), from: int)
    requires
        blocks_hold(m.blocks),
    ensures
        blocks_hold(with_wikilinks(s, m, region, from).blocks),
    decreases region.1 - region.0 - from,
{
    let r = piece(s, region);
    match find_pair(r, '[', '[', from) {
        Some(open) => match find_pair(r, ']', ']', open + 2) {
            Some(close) => {
                if from <= open && open + 2 <= close && close + 2 <= region.1 - region.0 {
                    let start = region.0 + open - 1;
                    lemma_row_holds(s, byte_offset(s, start) as int);
                    let next = with_wikilink(s, m, region.0, open, close);
                    assert(blocks_hold(next.blocks));
                    lemma_wikilinks_hold(s, next, region, close + 2);
                }
            },
            None => {},
        },
        None => {},
    }
}

proof fn lemma_wikilinks_of_hold(s: Seq<char>, m: Marks, regions: Seq<(int, int)>, count: int)
    requires
        blocks_hold(m.blocks),
    ensures
        blocks_hold(wikilinks_of(s, m, regions, count).blocks),
    decreases count,
{
    if count > 0 {
        let before = wikilinks_of(s, m, regions, count - 1);
        lemma_wikilinks_of_hold(s, m, regions, count - 1);
        match region_span(s, regions[count - 1]) {
            Some(region) => {
                lemma_wikilinks_hold(s, before, region, 0);
            },
            None => {},
        }
    }
}

proof fn lemma_citations_keep_blocks(s: Seq<char>, m: Marks, region: (int, int), from: int)
    ensures
        with_citations(s, m, region, from).blocks == m.blocks,
    decreases region.1 - region.0 - from,
{
    let r = piece(s, region);
    match find_char(r, '[', from) {
        Some(open) => match find_char(r, ']', open + 1) {
            Some(close) => {
                if from <= open < close < region.1 - region.0 {
                    let next = with_citation(s, m, region, open, close);
                    lemma_citations_keep_blocks(s, next, region, close + 1);
                    lemma_citations_keep_blocks(s, m, region, open + 1);
                }
            },
            None => {},
        },
        None => {},
    }
}

proof fn lemma_footnotes_keep_blocks(s: Seq<char>, m: Marks, region: (int, int), from: int)
    ensures
        with_footnotes(s, m, region, from).blocks == m.blocks,
    decreases region.1 - region.0 - from,
{
    let r = piece(s, region);
    match find_pair(r, '[', '^', from) {
        Some(open) => match find_char(r, ']', open + 2) {
            Some(close) => {
                if from <= open && open + 2 <= close < region.1 - region.0 {
                    let next = with_footnote(s, m, region.0 + open, region.0 + close + 1);
                    lemma_footnotes_keep_blocks(s, next, region, close + 1);
                    lemma_footnotes_keep_blocks(s, m, region, open + 2);
                }
            },
            None => {},
        },
        None => {},
    }
}

proof fn lemma_highlights_keep_blocks(s: Seq<char>, m: Marks, region: (int, int), from: int)
    ensures
        with_highlights(s, m, region, from).blocks == m.blocks,
    decreases region.1 - region.0 - from,
{
    let r = piece(s, region);
    match find_pair(r, '=', '=', from) {
        Some(open) => match find_pair(r, '=', '=', open + 2) {
            Some(close) => {
                if from <= open && open + 2 <= close && close + 2 <= region.1 - region.0 {
                    let next = with_highlight(s, m, region.0 + open, region.0 + close + 2);
                    lemma_highlights_keep_blocks(s, next, region, close + 2);
                    lemma_highlights_keep_blocks(s, m, region, open + 2);
                }
            },
            None => {},
        },
        None => {},
    }
}

proof fn lemma_tags_keep_blocks(
    s: Seq<char>,
    m: Marks,
    base: int,
    tags: Seq<(int, int)>,
    count: int,
)
    ensures
        with_tags(s, m, base, tags, count).blocks == m.blocks,
    decreases count,
{
    if count > 0 {
        lemma_tags_keep_blocks(s, m, base, tags, count - 1);
    }
}

proof fn lemma_scans_keep_blocks(s: Seq<char>, m: Marks, regions: Seq<(int, int)>, count: int)
    ensures
        citations_of(s, m, regions, count).blocks == m.blocks,
        footnotes_of(s, m, regions, count).blocks == m.blocks,
        highlights_of(s, m, regions, count).blocks == m.blocks,
        tags_of(s, m, regions, count).blocks == m.blocks,
    decreases count,
{
    if count > 0 {
        lemma_scans_keep_blocks(s, m, regions, count - 1);
        match region_span(s, regions[count - 1]) {
            Some(region) => {
                lemma_citations_keep_blocks(s, citations_of(s, m, regions, count - 1), region, 0);
                lemma_footnotes_keep_blocks(s, footnotes_of(s, m, regions, count - 1), region, 0);
                lemma_highlights_keep_blocks(s, highlights_of(s, m, regions, count - 1), region, 0);
                let tags = region_tags(s, region);
                lemma_tags_keep_blocks(
                    s,
                    tags_of(s, m, regions, count - 1),
                    region.0,
                    tags,
                    tags.len() as int,
                );
            },
            None => {},
        }
    }
}

// ---------------------------------------------------------------------------------------------
// The whole buffer
// ---------------------------------------------------------------------------------------------

proof fn lemma_walk_layers_hold(s: Seq<char>, layers: Seq<SyntaxLayer>, count: int)
    requires
        count <= layers.len(),
        layers_fit(layers, s),
    ensures
        blocks_hold(walk_layers(s, layers, count).blocks),
    decreases count,
{
    if count > 0 {
        let before = walk_layers(s, layers, count - 1);
        lemma_walk_layers_hold(s, layers, count - 1);
        assert(layers[count - 1].root.fits(s));
        lemma_walk_block_holds(s, layers[count - 1].root, before);
        lemma_walk_inline_holds(s, layers[count - 1].root, before);
    }
}

/// Every block that is found in a buffer starts no later than it ends.
pub proof fn law_blocks_start_before_they_end(s: Seq<char>, layers: Seq<SyntaxLayer>)
    requires
        layers_fit(layers, s),
    ensures
        blocks_hold(all_marks(s, layers).blocks),
{
    let walked = walk_layers(s, layers, layers.len() as int);
    lemma_walk_layers_hold(s, layers, layers.len() as int);
    let regions = walked.prose_regions;
    lemma_wikilinks_of_hold(s, walked, regions, regions.len() as int);
    let linked = wikilinks_of(s, walked, regions, regions.len() as int);
    let regions = linked.prose_regions;
    lemma_scans_keep_blocks(s, linked, regions, regions.len() as int);
    let cited = citations_of(s, linked, regions, regions.len() as int);
    let regions = cited.prose_regions;
    lemma_scans_keep_blocks(s, cited, regions, regions.len() as int);
    let noted = footnotes_of(s, cited, regions, regions.len() as int);
    let regions = noted.prose_regions;
    lemma_scans_keep_blocks(s, noted, regions, regions.len() as int);
    let marked = highlights_of(s, noted, regions, regions.len() as int);
    let regions = marked.prose_regions;
    lemma_scans_keep_blocks(s, marked, regions, regions.len() as int);
}

} // verus!
