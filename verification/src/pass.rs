//! One pass over the decorations of an editor: what is planned from the markers and the selection,
//! and what is on screen once the plan is carried out.

use crate::addon::LivePreviewAddon;
use crate::callout::choices;
use crate::decorations::{
    all_wanted, conceal_headings, conceal_inline, concealed_headings, concealed_inline,
    desired_blocks, desired_views, heading_marks, indices, keep_revealed, rows_of,
    selection_offset_ranges, selection_row_ranges, span_of, still_revealed, with_pending, Desired,
    DesiredBlock, Pass,
};
use crate::document::Document;
use crate::edits::{fold_views, stale_folds, stale_restored_folds};
use crate::markers::{
    block_marks, inline_marks, BlockMark, BlockMarker, InlineMark, InlineMarker, MarkerSet,
};
use crate::reconcile::{
    applied_views, first_open, matched, open_indices, served, serves, Applied, AppliedBlock,
    Reconciled,
};
use crate::text::spans;
use std::ops::Range;
use vstd::prelude::*;

verus! {

// ---------------------------------------------------------------------------------------------
// The plan
// ---------------------------------------------------------------------------------------------

/// What a pass does to an editor, before the widgets on screen are matched against the wanted ones.
#[derive(Debug)]
pub struct DecorationPlan {
    /// The folds to undo that an old session left on concealments.
    pub stale_folds: Vec<Range<usize>>,
    /// The indices of the inline markers to conceal.
    pub inline: Vec<usize>,
    /// The headings whose markers are concealed, by their indices among the blocks, each with the
    /// byte range of its marker.
    pub headings: Vec<(usize, Range<usize>)>,
    /// The widgets that are wanted on screen.
    pub widgets: Vec<DesiredBlock>,
}

/// The byte ranges of inline markers.
pub open spec fn mark_ranges(marks: Seq<InlineMark>) -> Seq<(int, int)> {
    Seq::new(marks.len(), |i: int| marks[i].range)
}

fn ranges_of(markers: &Vec<InlineMarker>) -> (result: Vec<Range<usize>>)
    ensures
        spans(result@) == mark_ranges(inline_marks(markers@)),
{
    let mut result: Vec<Range<usize>> = Vec::new();
    let mut i: usize = 0;
    while i < markers.len()
        invariant
            i <= markers@.len(),
            result@.len() == i,
            forall|k: int|
                0 <= k < i ==> (#[trigger] spans(result@)[k]) == inline_marks(markers@)[k].range,
        decreases markers@.len() - i,
    {
        let ghost before = result@;
        let range = &markers[i].range;
        result.push(range.start..range.end);
        assert forall|k: int| 0 <= k <= i implies (#[trigger] spans(result@)[k]) == inline_marks(
            markers@,
        )[k].range by {
            if k < i {
                assert(spans(before)[k] == spans(result@)[k]);
            }
        }
        i += 1;
    }
    assert(spans(result@) =~= mark_ranges(inline_marks(markers@)));
    result
}

impl LivePreviewAddon {
    /// Plans a pass. Without markers there is nothing to show; with them, syntax is concealed and
    /// widgets are wanted wherever the selection does not call for the source, and a block whose
    /// source was asked for keeps showing it while the selection stays in its rows.
    pub fn plan_decorations(
        &mut self,
        document: &Document,
        markers: Option<&MarkerSet>,
        folds: &Vec<(Range<usize>, bool)>,
        disjoint: &Vec<Range<usize>>,
        pending: &Option<Range<usize>>,
        from_search: bool,
    ) -> (result: DecorationPlan)
        requires
            document.wf(),
        ensures
            *final(self) == (LivePreviewAddon {
                source_revealed: final(self).source_revealed,
                ..*old(self)
            }),
            match markers {
                None => {
                    &&& final(self).source_revealed == old(self).source_revealed
                    &&& result.stale_folds@.len() == 0
                    &&& result.inline@.len() == 0
                    &&& result.headings@.len() == 0
                    &&& result.widgets@.len() == 0
                },
                Some(markers) => {
                    let selections = with_pending(spans(disjoint@), span_of(*pending));
                    let selection_rows = rows_of(document@, selections);
                    let marks = inline_marks(markers.inline@);
                    let blocks = block_marks(markers.blocks@);
                    let revealed = still_revealed(
                        document@,
                        span_of(old(self).source_revealed),
                        selection_rows,
                    );
                    &&& span_of(final(self).source_revealed) == revealed
                    &&& spans(result.stale_folds@) == stale_folds(
                        fold_views(folds@),
                        mark_ranges(marks),
                        folds@.len() as int,
                    )
                    &&& indices(result.inline@) == concealed_inline(
                        marks,
                        selections,
                        marks.len() as int,
                    )
                    &&& heading_marks(result.headings@) == concealed_headings(
                        document@,
                        blocks,
                        selections,
                        from_search,
                        blocks.len() as int,
                    )
                    &&& desired_views(result.widgets@) == all_wanted(
                        (Pass {
                            text: document@,
                            blocks,
                            definitions: markers.definitions@,
                            selection_rows,
                            revealed,
                            chosen: choices(old(self).callout_collapse@),
                        }),
                        blocks.len() as int,
                    )
                    &&& forall|k: int|
                        0 <= k < result.widgets@.len() ==> (#[trigger] result.widgets@[k]).marker
                            < blocks.len()
                },
            },
    {
        let markers = match markers {
            Some(markers) => markers,
            None => {
                return DecorationPlan {
                    stale_folds: Vec::new(),
                    inline: Vec::new(),
                    headings: Vec::new(),
                    widgets: Vec::new(),
                };
            },
        };
        let stale_folds = stale_restored_folds(folds, &ranges_of(&markers.inline));
        let selections = selection_offset_ranges(disjoint, pending);
        let selection_rows = selection_row_ranges(document, &selections);
        self.source_revealed = keep_revealed(document, &self.source_revealed, &selection_rows);
        let inline = conceal_inline(&markers.inline, &selections);
        let headings = conceal_headings(document, &markers.blocks, &selections, from_search);
        let widgets = desired_blocks(
            document,
            &markers.blocks,
            markers.definitions.as_str(),
            &selection_rows,
            &self.source_revealed,
            &self.callout_collapse,
        );
        DecorationPlan { stale_folds, inline, headings, widgets }
    }
}

// ---------------------------------------------------------------------------------------------
// The screen
// ---------------------------------------------------------------------------------------------

/// The widget that is on screen once a wanted one is drawn.
pub open spec fn drawn(desired: Desired, blocks: Seq<BlockMark>, block_id: u64) -> Applied {
    Applied {
        block: blocks[desired.marker],
        source: desired.source,
        below: desired.below,
        collapsed: desired.collapsed,
        shows_source: desired.shows_source,
        block_id,
    }
}

/// What is on screen once some widgets are kept and some of the wanted ones are inserted, each
/// under the id that the editor gave it.
pub open spec fn settled(
    applied: Seq<Applied>,
    kept: Seq<int>,
    desired: Seq<Desired>,
    blocks: Seq<BlockMark>,
    inserted: Seq<int>,
    ids: Seq<u64>,
) -> Seq<Applied> {
    Seq::new(kept.len(), |i: int| applied[kept[i]]) + Seq::new(
        inserted.len(),
        |i: int| drawn(desired[inserted[i]], blocks, ids[i]),
    )
}

fn draw(desired: &DesiredBlock, block: &BlockMarker, block_id: u64) -> (result: AppliedBlock)
    ensures
        result@ == (Applied {
            block: block@,
            source: desired.source@,
            below: desired.below,
            collapsed: desired.collapsed,
            shows_source: desired.shows_source,
            block_id,
        }),
{
    AppliedBlock {
        range: block.range.start..block.range.end,
        source: desired.source.clone(),
        kind: block.kind.clone(),
        height_estimate: block.height_estimate,
        indent_columns: block.indent_columns,
        below: desired.below,
        collapsed: desired.collapsed,
        shows_source: desired.shows_source,
        block_id,
    }
}

impl LivePreviewAddon {
    /// Records what is on screen once a plan is carried out: the widgets that were kept, and those
    /// that were inserted, each under the id that the editor gave it.
    pub fn record_blocks(
        &mut self,
        plan: &Reconciled,
        desired: &Vec<DesiredBlock>,
        blocks: &Vec<BlockMarker>,
        ids: &Vec<u64>,
    )
        requires
            forall|i: int|
                0 <= i < plan.kept@.len() ==> (#[trigger] plan.kept@[i]) < old(
                    self,
                ).applied_blocks@.len(),
            forall|i: int|
                0 <= i < plan.inserted@.len() ==> (#[trigger] plan.inserted@[i]) < desired@.len(),
            forall|k: int|
                0 <= k < desired@.len() ==> (#[trigger] desired@[k]).marker < blocks@.len(),
            ids@.len() == plan.inserted@.len(),
        ensures
            *final(self) == (LivePreviewAddon {
                applied_blocks: final(self).applied_blocks,
                ..*old(self)
            }),
            applied_views(final(self).applied_blocks@) == settled(
                applied_views(old(self).applied_blocks@),
                indices(plan.kept@),
                desired_views(desired@),
                block_marks(blocks@),
                indices(plan.inserted@),
                ids@,
            ),
    {
        let ghost before = applied_views(self.applied_blocks@);
        let ghost wanted = desired_views(desired@);
        let ghost marks = block_marks(blocks@);
        let ghost all = settled(
            before,
            indices(plan.kept@),
            wanted,
            marks,
            indices(plan.inserted@),
            ids@,
        );
        let mut result: Vec<AppliedBlock> = Vec::new();
        let mut i: usize = 0;
        while i < plan.kept.len()
            invariant
                *self == *old(self),
                i <= plan.kept@.len(),
                before == applied_views(self.applied_blocks@),
                all == settled(
                    before,
                    indices(plan.kept@),
                    wanted,
                    marks,
                    indices(plan.inserted@),
                    ids@,
                ),
                forall|i: int|
                    0 <= i < plan.kept@.len() ==> (#[trigger] plan.kept@[i])
                        < self.applied_blocks@.len(),
                result@.len() == i,
                forall|k: int| 0 <= k < i ==> (#[trigger] result@[k])@ == all[k],
            decreases plan.kept@.len() - i,
        {
            assert(plan.kept@[i as int] < self.applied_blocks@.len());
            assert(all[i as int] == before[plan.kept@[i as int] as int]);
            result.push(self.applied_blocks[plan.kept[i]].clone());
            i += 1;
        }
        let mut j: usize = 0;
        while j < plan.inserted.len()
            invariant
                *self == *old(self),
                j <= plan.inserted@.len(),
                ids@.len() == plan.inserted@.len(),
                wanted == desired_views(desired@),
                marks == block_marks(blocks@),
                all == settled(
                    before,
                    indices(plan.kept@),
                    wanted,
                    marks,
                    indices(plan.inserted@),
                    ids@,
                ),
                forall|i: int|
                    0 <= i < plan.inserted@.len() ==> (#[trigger] plan.inserted@[i])
                        < desired@.len(),
                forall|k: int|
                    0 <= k < desired@.len() ==> (#[trigger] desired@[k]).marker < blocks@.len(),
                result@.len() == plan.kept@.len() + j,
                forall|k: int| 0 <= k < result@.len() ==> (#[trigger] result@[k])@ == all[k],
            decreases plan.inserted@.len() - j,
        {
            let index = plan.inserted[j];
            assert(plan.inserted@[j as int] < desired@.len());
            assert(desired@[index as int].marker < blocks@.len());
            let widget = draw(&desired[index], &blocks[desired[index].marker], ids[j]);
            assert(all[plan.kept@.len() + j as int] == drawn(
                wanted[index as int],
                marks,
                ids@[j as int],
            ));
            assert(marks[wanted[index as int].marker] == blocks@[desired@[index as int].marker as int]@);
            result.push(widget);
            j += 1;
        }
        assert(applied_views(result@) =~= all);
        self.applied_blocks = result;
    }
}

// ---------------------------------------------------------------------------------------------
// A second pass
// ---------------------------------------------------------------------------------------------

/// The wanted widgets that the kept ones among the first `count` serve, in the order in which they
/// are kept.
spec fn serving(
    applied: Seq<Applied>,
    mounted: Seq<bool>,
    desired: Seq<Desired>,
    blocks: Seq<BlockMark>,
    count: int,
) -> Seq<int>
    decreases count,
{
    if count <= 0 {
        Seq::empty()
    } else {
        let before = matched(applied, mounted, desired, blocks, count - 1);
        match served(applied[count - 1], mounted[count - 1], desired, blocks, before.taken) {
            Some(k) => serving(applied, mounted, desired, blocks, count - 1).push(k),
            None => serving(applied, mounted, desired, blocks, count - 1),
        }
    }
}

proof fn lemma_first_open_is_open(
    desired: Seq<Desired>,
    blocks: Seq<BlockMark>,
    taken: Seq<bool>,
    range: (int, int),
    k: int,
)
    requires
        0 <= k,
    ensures
        first_open(desired, blocks, taken, range, k) matches Some(at) ==> k <= at < desired.len()
            && !taken[at],
    decreases desired.len() - k,
{
    if k < desired.len() {
        lemma_first_open_is_open(desired, blocks, taken, range, k + 1);
    }
}

proof fn lemma_serving(
    applied: Seq<Applied>,
    mounted: Seq<bool>,
    desired: Seq<Desired>,
    blocks: Seq<BlockMark>,
    count: int,
)
    requires
        0 <= count <= applied.len(),
    ensures
        ({
            let matching = matched(applied, mounted, desired, blocks, count);
            let list = serving(applied, mounted, desired, blocks, count);
            &&& matching.taken.len() == desired.len()
            &&& matching.kept.len() == list.len()
            &&& list.no_duplicates()
            &&& forall|i: int|
                0 <= i < list.len() ==> 0 <= (#[trigger] list[i]) < desired.len() && 0
                    <= matching.kept[i] < count && serves(
                    applied[matching.kept[i]],
                    desired[list[i]],
                    blocks,
                )
            &&& forall|k: int|
                0 <= k < desired.len() ==> (#[trigger] matching.taken[k]) == list.contains(k)
        }),
    decreases count,
{
    if count > 0 {
        lemma_serving(applied, mounted, desired, blocks, count - 1);
        let before = matched(applied, mounted, desired, blocks, count - 1);
        let list = serving(applied, mounted, desired, blocks, count - 1);
        let widget = applied[count - 1];
        lemma_first_open_is_open(desired, blocks, before.taken, widget.block.range, 0);
        match served(widget, mounted[count - 1], desired, blocks, before.taken) {
            Some(k) => {
                let longer = list.push(k);
                let after = matched(applied, mounted, desired, blocks, count);
                assert(after.taken == before.taken.update(k, true));
                assert(after.kept == before.kept.push(count - 1));
                assert(!before.taken[k]);
                assert forall|j: int| 0 <= j < desired.len() implies (#[trigger] after.taken[j])
                    == longer.contains(j) by {
                    assert(longer[list.len() as int] == k);
                    if list.contains(j) {
                        let i = choose|i: int| 0 <= i < list.len() && list[i] == j;
                        assert(longer[i] == j);
                    }
                    if longer.contains(j) && j != k {
                        let i = choose|i: int| 0 <= i < longer.len() && longer[i] == j;
                        assert(list[i] == j);
                    }
                }
            },
            None => {},
        }
    }
}

proof fn lemma_open_indices(taken: Seq<bool>, count: int)
    requires
        0 <= count <= taken.len(),
    ensures
        open_indices(taken, count).no_duplicates(),
        forall|i: int|
            0 <= i < open_indices(taken, count).len() ==> 0 <= (#[trigger] open_indices(
                taken,
                count,
            )[i]) < count && !taken[open_indices(taken, count)[i]],
        forall|k: int|
            0 <= k < count && !(#[trigger] taken[k]) ==> open_indices(taken, count).contains(k),
    decreases count,
{
    if count > 0 {
        lemma_open_indices(taken, count - 1);
        let before = open_indices(taken, count - 1);
        let after = open_indices(taken, count);
        if !taken[count - 1] {
            assert(after[before.len() as int] == count - 1);
            assert forall|k: int| 0 <= k < count && !(#[trigger] taken[k]) implies after.contains(
                k,
            ) by {
                if k < count - 1 {
                    assert(before.contains(k));
                    let i = choose|i: int| 0 <= i < before.len() && before[i] == k;
                    assert(after[i] == k);
                }
            }
        }
    }
}

proof fn lemma_first_open_of(
    desired: Seq<Desired>,
    blocks: Seq<BlockMark>,
    taken: Seq<bool>,
    at: int,
    k: int,
)
    requires
        0 <= k <= at < desired.len(),
        !taken[at],
        forall|i: int, j: int|
            0 <= i < j < desired.len() ==> blocks[(#[trigger] desired[i]).marker].range
                != blocks[(#[trigger] desired[j]).marker].range,
    ensures
        first_open(desired, blocks, taken, blocks[desired[at].marker].range, k) == Some(at),
    decreases at - k,
{
    if k < at {
        assert(blocks[desired[k].marker].range != blocks[desired[at].marker].range);
        lemma_first_open_of(desired, blocks, taken, at, k + 1);
    }
}

proof fn lemma_all_serve(
    applied: Seq<Applied>,
    desired: Seq<Desired>,
    blocks: Seq<BlockMark>,
    list: Seq<int>,
    count: int,
)
    requires
        0 <= count <= applied.len(),
        list.len() == applied.len(),
        list.no_duplicates(),
        forall|i: int|
            0 <= i < list.len() ==> 0 <= (#[trigger] list[i]) < desired.len() && serves(
                applied[i],
                desired[list[i]],
                blocks,
            ),
        forall|i: int, j: int|
            0 <= i < j < desired.len() ==> blocks[(#[trigger] desired[i]).marker].range
                != blocks[(#[trigger] desired[j]).marker].range,
    ensures
        ({
            let mounted = Seq::new(applied.len(), |i: int| true);
            let matching = matched(applied, mounted, desired, blocks, count);
            &&& matching.removed.len() == 0
            &&& matching.taken.len() == desired.len()
            &&& forall|k: int|
                0 <= k < desired.len() ==> (#[trigger] matching.taken[k]) == list.take(
                    count,
                ).contains(k)
        }),
    decreases count,
{
    let mounted = Seq::new(applied.len(), |i: int| true);
    if count > 0 {
        lemma_all_serve(applied, desired, blocks, list, count - 1);
        let before = matched(applied, mounted, desired, blocks, count - 1);
        let after = matched(applied, mounted, desired, blocks, count);
        let at = list[count - 1];
        assert(!list.take(count - 1).contains(at)) by {
            let shorter = list.take(count - 1);
            if shorter.contains(at) {
                let i = choose|i: int| 0 <= i < shorter.len() && shorter[i] == at;
                assert(list[i] == at);
            }
        }
        lemma_first_open_of(desired, blocks, before.taken, at, 0);
        assert(after.taken == before.taken.update(at, true));
        assert(list.take(count) =~= list.take(count - 1).push(at));
        assert forall|k: int| 0 <= k < desired.len() implies (#[trigger] after.taken[k])
            == list.take(count).contains(k) by {
            let shorter = list.take(count - 1);
            let longer = list.take(count);
            assert(longer[count - 1] == at);
            assert(before.taken[k] == shorter.contains(k));
            if shorter.contains(k) {
                let i = choose|i: int| 0 <= i < shorter.len() && shorter[i] == k;
                assert(longer[i] == k);
            }
            if longer.contains(k) && k != at {
                let i = choose|i: int| 0 <= i < longer.len() && longer[i] == k;
                assert(shorter[i] == k);
            }
        }
    }
}

/// A list without repetitions that holds each number below `count`, and no other, has that length.
proof fn lemma_covers(list: Seq<int>, count: int)
    requires
        0 <= count,
        list.no_duplicates(),
        forall|i: int| 0 <= i < list.len() ==> 0 <= #[trigger] list[i] < count,
        forall|k: int| 0 <= k < count ==> #[trigger] list.contains(k),
    ensures
        list.len() == count,
    decreases count,
{
    if count > 0 {
        assert(list.contains(count - 1));
        let at = choose|i: int| 0 <= i < list.len() && list[i] == count - 1;
        let shorter = list.remove(at);
        assert forall|i: int| 0 <= i < shorter.len() implies 0 <= #[trigger] shorter[i] < count
            - 1 by {
            if i < at {
                assert(shorter[i] == list[i]);
            } else {
                assert(shorter[i] == list[i + 1]);
            }
        }
        assert forall|k: int| 0 <= k < count - 1 implies #[trigger] shorter.contains(k) by {
            assert(list.contains(k));
            let i = choose|i: int| 0 <= i < list.len() && list[i] == k;
            if i < at {
                assert(shorter[i] == k);
            } else {
                assert(shorter[i - 1] == k);
            }
        }
        assert(shorter.no_duplicates()) by {
            assert forall|i: int, j: int| 0 <= i < j < shorter.len() implies shorter[i]
                != shorter[j] by {
                let a = if i < at { i } else { i + 1 };
                let b = if j < at { j } else { j + 1 };
                assert(shorter[i] == list[a] && shorter[j] == list[b]);
            }
        }
        lemma_covers(shorter, count - 1);
    } else if list.len() > 0 {
        assert(0 <= list[0] < count);
    }
}

/// Carrying out a plan puts exactly what is wanted on screen: where every block has a range of its
/// own and the same widgets are wanted again, a second pass removes nothing and inserts nothing.
pub proof fn law_a_second_pass_changes_nothing(
    applied: Seq<Applied>,
    mounted: Seq<bool>,
    desired: Seq<Desired>,
    blocks: Seq<BlockMark>,
    ids: Seq<u64>,
)
    requires
        mounted.len() == applied.len(),
        forall|i: int, j: int|
            0 <= i < j < desired.len() ==> blocks[(#[trigger] desired[i]).marker].range
                != blocks[(#[trigger] desired[j]).marker].range,
    ensures
        ({
            let first = matched(applied, mounted, desired, blocks, applied.len() as int);
            let inserted = open_indices(first.taken, desired.len() as int);
            let screen = settled(applied, first.kept, desired, blocks, inserted, ids);
            let all_mounted = Seq::new(screen.len(), |i: int| true);
            let second = matched(screen, all_mounted, desired, blocks, screen.len() as int);
            &&& screen.len() == desired.len()
            &&& second.removed.len() == 0
            &&& open_indices(second.taken, desired.len() as int).len() == 0
        }),
{
    let total = applied.len() as int;
    let wanted = desired.len() as int;
    let first = matched(applied, mounted, desired, blocks, total);
    let list = serving(applied, mounted, desired, blocks, total);
    lemma_serving(applied, mounted, desired, blocks, total);
    lemma_open_indices(first.taken, wanted);
    let inserted = open_indices(first.taken, wanted);
    let screen = settled(applied, first.kept, desired, blocks, inserted, ids);
    let all = list + inserted;
    assert forall|i: int| 0 <= i < all.len() implies 0 <= (#[trigger] all[i]) < desired.len()
        && serves(screen[i], desired[all[i]], blocks) by {
        if i < list.len() {
            assert(all[i] == list[i]);
        } else {
            assert(all[i] == inserted[i - list.len()]);
        }
    }
    assert(all.no_duplicates()) by {
        assert forall|i: int, j: int| 0 <= i < j < all.len() implies all[i] != all[j] by {
            if j < list.len() {
                assert(list[i] != list[j]);
            } else if i >= list.len() {
                assert(inserted[i - list.len()] != inserted[j - list.len()]);
            } else {
                assert(first.taken[list[i]]);
                assert(!first.taken[inserted[j - list.len()]]);
            }
        }
    }
    lemma_all_serve(screen, desired, blocks, all, screen.len() as int);
    let all_mounted = Seq::new(screen.len(), |i: int| true);
    let second = matched(screen, all_mounted, desired, blocks, screen.len() as int);
    assert(all.take(screen.len() as int) =~= all);
    assert forall|k: int| 0 <= k < wanted implies #[trigger] all.contains(k) by {
        if first.taken[k] {
            let i = choose|i: int| 0 <= i < list.len() && list[i] == k;
            assert(all[i] == k);
        } else {
            let i = choose|i: int| 0 <= i < inserted.len() && inserted[i] == k;
            assert(all[list.len() + i] == k);
        }
    }
    lemma_covers(all, wanted);
    assert forall|k: int| 0 <= k < wanted implies #[trigger] second.taken[k] by {
        assert(all.contains(k));
    }
    lemma_open_indices(second.taken, wanted);
    assert(open_indices(second.taken, wanted).len() == 0) by {
        if open_indices(second.taken, wanted).len() > 0 {
            assert(!second.taken[open_indices(second.taken, wanted)[0]]);
        }
    }
}

/// Without markers nothing is wanted, and every widget goes.
pub proof fn law_without_markers_every_widget_goes(
    applied: Seq<Applied>,
    mounted: Seq<bool>,
    blocks: Seq<BlockMark>,
    count: int,
)
    requires
        0 <= count <= applied.len(),
    ensures
        matched(applied, mounted, Seq::empty(), blocks, count).removed == Seq::new(
            count as nat,
            |i: int| applied[i].block_id,
        ),
        matched(applied, mounted, Seq::empty(), blocks, count).kept.len() == 0,
    decreases count,
{
    if count > 0 {
        law_without_markers_every_widget_goes(applied, mounted, blocks, count - 1);
        let before = matched(applied, mounted, Seq::empty(), blocks, count - 1);
        assert(first_open(
            Seq::empty(),
            blocks,
            before.taken,
            applied[count - 1].block.range,
            0,
        ) is None);
        assert(matched(applied, mounted, Seq::empty(), blocks, count).removed =~= Seq::new(
            count as nat,
            |i: int| applied[i].block_id,
        ));
    } else {
        assert(matched(applied, mounted, Seq::empty(), blocks, 0).removed =~= Seq::new(
            0,
            |i: int| applied[i].block_id,
        ));
    }
}

} // verus!
