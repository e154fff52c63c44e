//! Extracting everything that a live preview decorates from a buffer.

use crate::block_bounds::{blocks_hold, law_blocks_start_before_they_end};
use crate::document::{countable, Document};
use crate::extraction::{no_marks, walk_block, Extraction, Marks};
use crate::inline_layer::walk_inline;
use crate::markers::{block_marks, inline_marks, BlockMark, BlockMarker, MarkerSet};
use crate::scans::{citations_of, footnotes_of, highlights_of, tags_of, wikilinks_of};
use crate::syntax::SyntaxNode;
use crate::text::{join, joined, same_text, spans};
use vstd::prelude::*;

verus! {

/// The name of the language whose buffers are previewed, and of its block grammar.
pub const MARKDOWN: &'static str = "Markdown";

/// The name of the inline grammar.
pub const MARKDOWN_INLINE: &'static str = "Markdown-Inline";

/// A syntax tree of a buffer, with the name of the grammar it is of.
#[derive(Debug)]
pub struct SyntaxLayer {
    pub language: String,
    pub root: SyntaxNode,
}

/// What an editor shows.
#[derive(Debug)]
pub struct BufferState {
    /// Whether it shows one whole buffer.
    pub singleton: bool,
    /// Whether it shows deleted lines of a diff between those of the buffer.
    pub expanded_diff_hunks: bool,
    /// The name of the buffer's language.
    pub language: Option<String>,
}

// ---------------------------------------------------------------------------------------------
// Nested blocks
// ---------------------------------------------------------------------------------------------

/// Whether a block comes before another: it starts earlier, or starts with it and ends later.
pub open spec fn comes_before(a: BlockMark, b: BlockMark) -> bool {
    a.range.0 < b.range.0 || (a.range.0 == b.range.0 && a.range.1 > b.range.1)
}

/// Where a block goes among the first `count` of blocks in order: behind those it does not come
/// before.
pub open spec fn place_for(blocks: Seq<BlockMark>, block: BlockMark, count: int) -> int
    decreases count,
{
    if count > 0 && comes_before(block, blocks[count - 1]) {
        place_for(blocks, block, count - 1)
    } else {
        count
    }
}

/// The blocks in order; blocks of the same range stay as they were.
pub open spec fn in_order(blocks: Seq<BlockMark>) -> Seq<BlockMark>
    decreases blocks.len(),
{
    if blocks.len() == 0 {
        Seq::empty()
    } else {
        let front = in_order(blocks.drop_last());
        front.insert(place_for(front, blocks.last(), front.len() as int), blocks.last())
    }
}

/// The blocks from index `k` on without those that start before the end of one that is kept, where
/// the last one kept ends at `end`.
pub open spec fn outermost_from(blocks: Seq<BlockMark>, k: int, end: int) -> Seq<BlockMark>
    decreases blocks.len() - k,
{
    if k < 0 || k >= blocks.len() {
        Seq::empty()
    } else if blocks[k].range.0 < end {
        outermost_from(blocks, k + 1, end)
    } else {
        seq![blocks[k]] + outermost_from(blocks, k + 1, blocks[k].range.1)
    }
}

/// The blocks that no other one holds or overlaps from before.
pub open spec fn outermost(blocks: Seq<BlockMark>) -> Seq<BlockMark> {
    outermost_from(in_order(blocks), 0, 0)
}

proof fn lemma_place_for(blocks: Seq<BlockMark>, block: BlockMark, count: int)
    requires
        0 <= count <= blocks.len(),
    ensures
        0 <= place_for(blocks, block, count) <= count,
        place_for(blocks, block, count) > 0 ==> !comes_before(
            block,
            blocks[place_for(blocks, block, count) - 1],
        ),
        forall|k: int|
            place_for(blocks, block, count) <= k < count ==> comes_before(
                block,
                #[trigger] blocks[k],
            ),
    decreases count,
{
    if count > 0 && comes_before(block, blocks[count - 1]) {
        lemma_place_for(blocks, block, count - 1);
    }
}

proof fn lemma_in_order_length(blocks: Seq<BlockMark>)
    ensures
        in_order(blocks).len() == blocks.len(),
    decreases blocks.len(),
{
    if blocks.len() > 0 {
        lemma_in_order_length(blocks.drop_last());
        let front = in_order(blocks.drop_last());
        lemma_place_for(front, blocks.last(), front.len() as int);
    }
}

fn is_before(a: &BlockMarker, b: &BlockMarker) -> (result: bool)
    ensures
        result == comes_before(a@, b@),
{
    a.range.start < b.range.start || (a.range.start == b.range.start && a.range.end > b.range.end)
}

fn sort_blocks(blocks: &mut Vec<BlockMarker>)
    ensures
        block_marks(final(blocks)@) == in_order(block_marks(old(blocks)@)),
{
    let ghost all = block_marks(blocks@);
    let count: usize = blocks.len();
    let mut i: usize = 0;
    assert(block_marks(blocks@) =~= in_order(all.take(0)) + all.skip(0));
    while i < count
        invariant
            i <= count,
            count == blocks@.len(),
            count == all.len(),
            block_marks(blocks@) == in_order(all.take(i as int)) + all.skip(i as int),
        decreases count - i,
    {
        let ghost front = in_order(all.take(i as int));
        let ghost block = all[i as int];
        let ghost marks = block_marks(blocks@);
        proof {
            lemma_in_order_length(all.take(i as int));
            assert(marks[i as int] == block);
        }
        let mut place: usize = i;
        while place > 0 && is_before(&blocks[i], &blocks[place - 1])
            invariant
                place <= i < count,
                count == blocks@.len(),
                count == all.len(),
                front.len() == i,
                marks == block_marks(blocks@),
                marks == front + all.skip(i as int),
                block == all[i as int],
                marks[i as int] == block,
                place_for(front, block, i as int) == place_for(front, block, place as int),
            decreases place,
        {
            assert(marks[place - 1] == front[place - 1]);
            place -= 1;
        }
        assert(place > 0 ==> marks[place - 1] == front[place - 1]);
        let moved = blocks.remove(i);
        blocks.insert(place, moved);
        i += 1;
        assert(marks.remove(i - 1) =~= front + all.skip(i as int));
        assert(block_marks(blocks@) =~= marks.remove(i - 1).insert(place as int, block));
        assert(block_marks(blocks@) =~= front.insert(place as int, block) + all.skip(i as int));
        assert(all.take(i as int).drop_last() =~= all.take(i - 1));
    }
    assert(all.take(i as int) =~= all);
}

fn keep_outermost(blocks: &mut Vec<BlockMarker>)
    ensures
        block_marks(final(blocks)@) == outermost_from(block_marks(old(blocks)@), 0, 0),
{
    let ghost all = block_marks(blocks@);
    let ghost mut k: int = 0;
    let mut end: usize = 0;
    let mut i: usize = 0;
    assert(block_marks(blocks@) =~= block_marks(blocks@).take(0) + all.skip(0));
    while i < blocks.len()
        invariant
            i <= blocks@.len(),
            0 <= k <= all.len(),
            blocks@.len() - i == all.len() - k,
            block_marks(blocks@).skip(i as int) == all.skip(k),
            outermost_from(all, 0, 0) == block_marks(blocks@).take(i as int) + outermost_from(
                all,
                k,
                end as int,
            ),
        decreases blocks@.len() - i,
    {
        let ghost marks = block_marks(blocks@);
        assert(marks.skip(i as int)[0] == all.skip(k)[0]);
        assert(marks[i as int] == all[k]);
        assert forall|j: int| 0 <= j < all.len() - k - 1 implies #[trigger] marks[i + 1 + j]
            == all[k + 1 + j] by {
            assert(marks.skip(i as int)[j + 1] == all.skip(k)[j + 1]);
        }
        if blocks[i].range.start < end {
            blocks.remove(i);
            assert(block_marks(blocks@) =~= marks.remove(i as int));
            assert(block_marks(blocks@).take(i as int) =~= marks.take(i as int));
            assert forall|j: int| 0 <= j < all.len() - k - 1 implies block_marks(blocks@).skip(
                i as int,
            )[j] == all.skip(k + 1)[j] by {
                assert(marks[i + 1 + j] == all[k + 1 + j]);
            }
            assert(block_marks(blocks@).skip(i as int) =~= all.skip(k + 1));
        } else {
            end = blocks[i].range.end;
            i += 1;
            assert forall|j: int| 0 <= j < all.len() - k - 1 implies marks.skip(i as int)[j]
                == all.skip(k + 1)[j] by {
                assert(marks[(i - 1) + 1 + j] == all[k + 1 + j]);
            }
            assert(marks.skip(i as int) =~= all.skip(k + 1));
            assert(marks.take(i as int) + outermost_from(all, k + 1, end as int) =~= marks.take(
                i - 1,
            ) + (seq![all[k]] + outermost_from(all, k + 1, end as int)));
        }
        proof {
            k = k + 1;
        }
    }
    assert(block_marks(blocks@).take(i as int) =~= block_marks(blocks@));
    assert(block_marks(blocks@) =~= outermost_from(all, 0, 0));
}

proof fn lemma_outermost_bounds(blocks: Seq<BlockMark>, k: int, end: int)
    requires
        0 <= k <= blocks.len(),
        forall|i: int|
            0 <= i < blocks.len() ==> (#[trigger] blocks[i]).range.0 <= blocks[i].range.1,
    ensures
        ({
            let kept = outermost_from(blocks, k, end);
            &&& forall|i: int| 0 <= i < kept.len() ==> end <= (#[trigger] kept[i]).range.0 <= kept[i].range.1
            &&& forall|i: int, j: int|
                0 <= i < j < kept.len() ==> (#[trigger] kept[i]).range.1 <= (
                #[trigger] kept[j]).range.0
        }),
    decreases blocks.len() - k,
{
    if k < blocks.len() {
        if blocks[k].range.0 < end {
            lemma_outermost_bounds(blocks, k + 1, end);
        } else {
            let rest = outermost_from(blocks, k + 1, blocks[k].range.1);
            let kept = outermost_from(blocks, k, end);
            lemma_outermost_bounds(blocks, k + 1, blocks[k].range.1);
            assert(kept =~= seq![blocks[k]] + rest);
            assert forall|i: int| 0 <= i < kept.len() implies end <= (#[trigger] kept[i]).range.0
                <= kept[i].range.1 by {
                if i > 0 {
                    assert(kept[i] == rest[i - 1]);
                }
            }
            assert forall|i: int, j: int| 0 <= i < j < kept.len() implies (
            #[trigger] kept[i]).range.1 <= (#[trigger] kept[j]).range.0 by {
                assert(kept[j] == rest[j - 1]);
                if i > 0 {
                    assert(kept[i] == rest[i - 1]);
                }
            }
        }
    }
}

pub(crate) proof fn lemma_in_order(blocks: Seq<BlockMark>)
    ensures
        in_order(blocks).len() == blocks.len(),
        in_order(blocks).to_multiset() == blocks.to_multiset(),
        forall|i: int, j: int|
            0 <= i < j < blocks.len() ==> !comes_before(
                #[trigger] in_order(blocks)[j],
                #[trigger] in_order(blocks)[i],
            ),
    decreases blocks.len(),
{
    if blocks.len() > 0 {
        let shorter = blocks.drop_last();
        let block = blocks.last();
        let front = in_order(shorter);
        lemma_in_order(shorter);
        let place = place_for(front, block, front.len() as int);
        lemma_place_for(front, block, front.len() as int);
        let sorted = front.insert(place, block);
        assert(blocks =~= shorter.push(block));
        vstd::seq_lib::to_multiset_insert(front, place, block);
        vstd::seq_lib::to_multiset_build(shorter, block);
        assert forall|i: int, j: int| 0 <= i < j < sorted.len() implies !comes_before(
            #[trigger] sorted[j],
            #[trigger] sorted[i],
        ) by {
            if i < place && j > place {
                assert(sorted[i] == front[i] && sorted[j] == front[j - 1]);
            } else if i < place && j < place {
                assert(sorted[i] == front[i] && sorted[j] == front[j]);
            } else if i > place {
                assert(sorted[i] == front[i - 1] && sorted[j] == front[j - 1]);
            } else if i == place {
                assert(sorted[j] == front[j - 1]);
                assert(comes_before(block, front[j - 1]));
            } else {
                assert(sorted[i] == front[i]);
                if i < place - 1 {
                    assert(!comes_before(front[place - 1], front[i]));
                }
            }
        }
    } else {
        assert(blocks =~= Seq::empty());
    }
}

pub(crate) proof fn lemma_in_order_holds(blocks: Seq<BlockMark>)
    requires
        forall|i: int|
            0 <= i < blocks.len() ==> 0 <= (#[trigger] blocks[i]).range.0 <= blocks[i].range.1,
    ensures
        forall|i: int|
            0 <= i < in_order(blocks).len() ==> 0 <= (#[trigger] in_order(blocks)[i]).range.0
                <= in_order(blocks)[i].range.1,
    decreases blocks.len(),
{
    if blocks.len() > 0 {
        let shorter = blocks.drop_last();
        let front = in_order(shorter);
        assert forall|i: int| 0 <= i < shorter.len() implies 0 <= (#[trigger] shorter[i]).range.0
            <= shorter[i].range.1 by {
            assert(shorter[i] == blocks[i]);
        }
        lemma_in_order_holds(shorter);
        let place = place_for(front, blocks.last(), front.len() as int);
        lemma_place_for(front, blocks.last(), front.len() as int);
        let sorted = front.insert(place, blocks.last());
        assert(blocks.last() == blocks[blocks.len() - 1]);
        assert forall|i: int| 0 <= i < sorted.len() implies 0 <= (#[trigger] sorted[i]).range.0
            <= sorted[i].range.1 by {
            if i < place {
                assert(sorted[i] == front[i]);
            } else if i > place {
                assert(sorted[i] == front[i - 1]);
            }
        }
    }
}

proof fn lemma_outermost_from_hold(blocks: Seq<BlockMark>, k: int, end: int)
    requires
        0 <= k,
        blocks_hold(blocks),
    ensures
        blocks_hold(outermost_from(blocks, k, end)),
    decreases blocks.len() - k,
{
    if k < blocks.len() {
        if blocks[k].range.0 < end {
            lemma_outermost_from_hold(blocks, k + 1, end);
        } else {
            let rest = outermost_from(blocks, k + 1, blocks[k].range.1);
            lemma_outermost_from_hold(blocks, k + 1, blocks[k].range.1);
            let kept = seq![blocks[k]] + rest;
            assert forall|i: int| 0 <= i < kept.len() implies 0 <= (#[trigger] kept[i]).range.0
                <= kept[i].range.1 by {
                if i > 0 {
                    assert(kept[i] == rest[i - 1]);
                }
            }
        }
    }
}

proof fn lemma_outermost_hold(blocks: Seq<BlockMark>)
    requires
        blocks_hold(blocks),
    ensures
        blocks_hold(outermost(blocks)),
{
    lemma_in_order_holds(blocks);
    lemma_outermost_from_hold(in_order(blocks), 0, 0);
}

/// The blocks that are kept are in order and apart from each other.
pub proof fn law_blocks_are_apart(blocks: Seq<BlockMark>, i: int, j: int)
    requires
        blocks_hold(blocks),
        0 <= i < j < outermost(blocks).len(),
    ensures
        outermost(blocks)[i].range.1 <= outermost(blocks)[j].range.0,
{
    lemma_in_order_holds(blocks);
    lemma_outermost_bounds(in_order(blocks), 0, 0);
}

proof fn lemma_outermost_covers(blocks: Seq<BlockMark>, k: int, end: int, b: int)
    requires
        0 <= k <= b < blocks.len(),
        forall|i: int, j: int|
            0 <= i < j < blocks.len() ==> !comes_before(
                #[trigger] blocks[j],
                #[trigger] blocks[i],
            ),
    ensures
        blocks[b].range.0 < end || exists|g: int|
            0 <= g < outermost_from(blocks, k, end).len() && covers(
                #[trigger] outermost_from(blocks, k, end)[g],
                blocks[b],
            ),
    decreases blocks.len() - k,
{
    let kept = outermost_from(blocks, k, end);
    if blocks[k].range.0 < end {
        if k < b {
            lemma_outermost_covers(blocks, k + 1, end, b);
        }
    } else {
        let rest = outermost_from(blocks, k + 1, blocks[k].range.1);
        assert(kept =~= seq![blocks[k]] + rest);
        assert(kept[0] == blocks[k]);
        if k < b {
            lemma_outermost_covers(blocks, k + 1, blocks[k].range.1, b);
            assert(!comes_before(blocks[b], blocks[k]));
            if blocks[b].range.0 < blocks[k].range.1 {
                assert(covers(kept[0], blocks[b]));
            } else {
                let g = choose|g: int| 0 <= g < rest.len() && covers(#[trigger] rest[g], blocks[b]);
                assert(kept[g + 1] == rest[g]);
            }
        } else {
            assert(covers(kept[0], blocks[b]));
        }
    }
}

/// Whether a block is another one, or starts no later and ends behind its start.
pub open spec fn covers(kept: BlockMark, block: BlockMark) -> bool {
    kept == block || (kept.range.0 <= block.range.0 && block.range.0 < kept.range.1)
}

/// A block is only dropped for one that is kept and that it starts inside of.
pub proof fn law_a_dropped_block_starts_inside_a_kept_one(blocks: Seq<BlockMark>, block: BlockMark)
    requires
        blocks_hold(blocks),
        blocks.contains(block),
    ensures
        exists|g: int|
            0 <= g < outermost(blocks).len() && covers(#[trigger] outermost(blocks)[g], block),
{
    let sorted = in_order(blocks);
    lemma_in_order(blocks);
    lemma_in_order_holds(blocks);
    vstd::seq_lib::to_multiset_contains(blocks, block);
    vstd::seq_lib::to_multiset_contains(sorted, block);
    assert(sorted.contains(block));
    let b = choose|b: int| 0 <= b < sorted.len() && sorted[b] == block;
    assert(0 <= sorted[b].range.0);
    lemma_outermost_covers(sorted, 0, 0, b);
    let kept = outermost_from(sorted, 0, 0);
    let g = choose|g: int| 0 <= g < kept.len() && covers(#[trigger] kept[g], sorted[b]);
    assert(covers(outermost(blocks)[g], block));
}

// ---------------------------------------------------------------------------------------------
// The whole buffer
// ---------------------------------------------------------------------------------------------

/// What the first `count` layers add.
pub open spec fn walk_layers(s: Seq<char>, layers: Seq<SyntaxLayer>, count: int) -> Marks
    decreases count,
{
    if count <= 0 {
        no_marks()
    } else {
        let before = walk_layers(s, layers, count - 1);
        let layer = layers[count - 1];
        if layer.language@ == MARKDOWN@ {
            walk_block(s, layer.root, before)
        } else if layer.language@ == MARKDOWN_INLINE@ {
            walk_inline(s, layer.root, before)
        } else {
            before
        }
    }
}

/// What the syntax trees add, and then what scanning the prose adds.
pub open spec fn all_marks(s: Seq<char>, layers: Seq<SyntaxLayer>) -> Marks {
    let walked = walk_layers(s, layers, layers.len() as int);
    let regions = walked.prose_regions;
    let count = regions.len() as int;
    let linked = wikilinks_of(s, walked, regions, count);
    let cited = citations_of(s, linked, linked.prose_regions, linked.prose_regions.len() as int);
    let noted = footnotes_of(s, cited, cited.prose_regions, cited.prose_regions.len() as int);
    let marked = highlights_of(s, noted, noted.prose_regions, noted.prose_regions.len() as int);
    tags_of(s, marked, marked.prose_regions, marked.prose_regions.len() as int)
}

/// Whether an editor's buffer is previewed at all: one markdown buffer, with no deleted lines of a
/// diff between its lines, which would shift every offset behind them.
pub open spec fn is_previewed(state: BufferState) -> bool {
    &&& state.singleton
    &&& !state.expanded_diff_hunks
    &&& state.language matches Some(language)
    &&& language@ == MARKDOWN@
}

/// Every layer's tree fits the text.
pub open spec fn layers_fit(layers: Seq<SyntaxLayer>, s: Seq<char>) -> bool {
    forall|i: int| 0 <= i < layers.len() ==> (#[trigger] layers[i]).root.fits(s)
}

/// Whether a marker set is what these marks come to: the outermost blocks, the definitions one on
/// each line, and the rest as it is.
pub open spec fn set_of(set: MarkerSet, marks: Marks) -> bool {
    &&& inline_marks(set.inline@) == marks.inline
    &&& block_marks(set.blocks@) == outermost(marks.blocks)
    &&& spans(set.strikethrough@) == marks.strikethrough
    &&& spans(set.italic@) == marks.italic
    &&& spans(set.bold@) == marks.bold
    &&& spans(set.link_text@) == marks.link_text
    &&& set.definitions@ == join(marks.definitions, "\n"@)
    &&& spans(set.definition_ranges@) == marks.definition_ranges
    &&& spans(set.ordered_markers@) == marks.ordered_markers
    &&& spans(set.citations@) == marks.citations
    &&& spans(set.highlights@) == marks.highlights
    &&& spans(set.tags@) == marks.tags
}

/// Extracts everything that a live preview decorates from a buffer's text and syntax trees. `None`
/// where the buffer is not previewed.
pub fn extract_markers(state: &BufferState, text: &str, layers: &Vec<SyntaxLayer>) -> (result:
    Option<MarkerSet>)
    requires
        countable(text@),
        layers_fit(layers@, text@),
    ensures
        match result {
            Some(set) => is_previewed(*state) && set_of(set, all_marks(text@, layers@)),
            None => !is_previewed(*state),
        },
        blocks_hold(all_marks(text@, layers@).blocks),
        result matches Some(set) ==> blocks_hold(block_marks(set.blocks@)),
{
    proof {
        law_blocks_start_before_they_end(text@, layers@);
        lemma_outermost_hold(all_marks(text@, layers@).blocks);
    }
    if !state.singleton || state.expanded_diff_hunks {
        return None;
    }
    let is_markdown = match &state.language {
        Some(language) => same_text(language.as_str(), MARKDOWN),
        None => false,
    };
    if !is_markdown {
        return None;
    }
    let document = Document::new(text);
    let ghost s = document@;
    let mut extraction = Extraction::new();
    let mut i: usize = 0;
    while i < layers.len()
        invariant
            document.wf(),
            s == document@,
            i <= layers@.len(),
            layers_fit(layers@, s),
            extraction@ == walk_layers(s, layers@, i as int),
        decreases layers@.len() - i,
    {
        let layer = &layers[i];
        assert(layers@[i as int].root.fits(s));
        if same_text(layer.language.as_str(), MARKDOWN) {
            extraction.walk_block_layer(&document, &layer.root);
        } else if same_text(layer.language.as_str(), MARKDOWN_INLINE) {
            extraction.walk_inline_layer(&document, &layer.root);
        }
        i += 1;
    }
    extraction.scan_wikilinks(&document);
    extraction.scan_citations(&document);
    extraction.scan_footnotes(&document);
    extraction.scan_highlights(&document);
    extraction.scan_tags(&document);
    let mut blocks = extraction.blocks;
    sort_blocks(&mut blocks);
    keep_outermost(&mut blocks);
    Some(
        MarkerSet {
            inline: extraction.inline,
            blocks,
            strikethrough: extraction.strikethrough,
            italic: extraction.italic,
            bold: extraction.bold,
            link_text: extraction.link_text,
            definitions: joined(&extraction.definitions, "\n"),
            definition_ranges: extraction.definition_ranges,
            ordered_markers: extraction.ordered_markers,
            citations: extraction.citations,
            highlights: extraction.highlights,
            tags: extraction.tags,
        },
    )
}

} // verus!
