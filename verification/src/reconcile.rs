//! Matching the widgets that are on screen against those that are wanted.

use crate::decorations::{desired_views, indices, Desired, DesiredBlock};
use crate::markers::{block_marks, BlockMark, BlockMarker, BlockRenderKind};
use crate::table::{cell_view, cells_view, CellAlignment, TableStructure};
use crate::text::{found, same_option, same_text};
use std::ops::Range;
use vstd::prelude::*;

verus! {

/// A widget that is on screen.
#[derive(Debug)]
pub struct AppliedBlock {
    pub range: Range<usize>,
    pub source: String,
    pub kind: BlockRenderKind,
    pub height_estimate: u32,
    pub indent_columns: u32,
    /// Whether it stands below its source rather than in its place.
    pub below: bool,
    pub collapsed: bool,
    pub shows_source: bool,
    pub block_id: u64,
}

/// What an [`AppliedBlock`] holds.
pub struct Applied {
    pub block: BlockMark,
    pub source: Seq<char>,
    pub below: bool,
    pub collapsed: bool,
    pub shows_source: bool,
    pub block_id: u64,
}

impl View for AppliedBlock {
    type V = Applied;

    open spec fn view(&self) -> Applied {
        Applied {
            block: BlockMark {
                range: (self.range.start as int, self.range.end as int),
                height_estimate: self.height_estimate as int,
                look: self.kind@,
                indent_columns: self.indent_columns as int,
            },
            source: self.source@,
            below: self.below,
            collapsed: self.collapsed,
            shows_source: self.shows_source,
            block_id: self.block_id,
        }
    }
}

impl Clone for AppliedBlock {
    fn clone(&self) -> (result: Self)
        ensures
            result@ == self@,
    {
        AppliedBlock {
            range: self.range.start..self.range.end,
            source: self.source.clone(),
            kind: self.kind.clone(),
            height_estimate: self.height_estimate,
            indent_columns: self.indent_columns,
            below: self.below,
            collapsed: self.collapsed,
            shows_source: self.shows_source,
            block_id: self.block_id,
        }
    }
}

/// What several widgets hold.
pub open spec fn applied_views(list: Seq<AppliedBlock>) -> Seq<Applied> {
    Seq::new(list.len(), |i: int| list[i]@)
}

// ---------------------------------------------------------------------------------------------
// Equality of kinds
// ---------------------------------------------------------------------------------------------

fn same_cell(a: &Option<Range<usize>>, b: &Option<Range<usize>>) -> (result: bool)
    ensures
        result == (cell_view(*a) == cell_view(*b)),
{
    match (a, b) {
        (Some(a), Some(b)) => a.start == b.start && a.end == b.end,
        (None, None) => true,
        _ => false,
    }
}

fn same_cells(a: &Vec<Option<Range<usize>>>, b: &Vec<Option<Range<usize>>>) -> (result: bool)
    ensures
        result == (cells_view(a@) == cells_view(b@)),
{
    if a.len() != b.len() {
        assert(cells_view(a@).len() != cells_view(b@).len());
        return false;
    }
    let mut i: usize = 0;
    while i < a.len()
        invariant
            a@.len() == b@.len(),
            i <= a@.len(),
            forall|k: int| 0 <= k < i ==> cells_view(a@)[k] == cells_view(b@)[k],
        decreases a@.len() - i,
    {
        if !same_cell(&a[i], &b[i]) {
            assert(cells_view(a@)[i as int] != cells_view(b@)[i as int]);
            return false;
        }
        i += 1;
    }
    assert(cells_view(a@) =~= cells_view(b@));
    true
}

fn same_alignments(a: &Vec<CellAlignment>, b: &Vec<CellAlignment>) -> (result: bool)
    ensures
        result == (a@ == b@),
{
    if a.len() != b.len() {
        return false;
    }
    let mut i: usize = 0;
    while i < a.len()
        invariant
            a@.len() == b@.len(),
            i <= a@.len(),
            forall|k: int| 0 <= k < i ==> a@[k] == b@[k],
        decreases a@.len() - i,
    {
        if a[i] != b[i] {
            assert(a@[i as int] != b@[i as int]);
            return false;
        }
        i += 1;
    }
    assert(a@ =~= b@);
    true
}

fn same_structure(a: &TableStructure, b: &TableStructure) -> (result: bool)
    ensures
        result == (a@ == b@),
{
    if !same_cells(&a.header, &b.header) || !same_alignments(&a.alignments, &b.alignments)
        || a.rows.len() != b.rows.len() {
        assert(a.rows@.len() != b.rows@.len() ==> a@.rows.len() != b@.rows.len());
        return false;
    }
    let mut i: usize = 0;
    while i < a.rows.len()
        invariant
            a.rows@.len() == b.rows@.len(),
            i <= a.rows@.len(),
            forall|k: int| 0 <= k < i ==> a@.rows[k] == b@.rows[k],
        decreases a.rows@.len() - i,
    {
        assert(a@.rows[i as int] == cells_view(a.rows@[i as int]@));
        assert(b@.rows[i as int] == cells_view(b.rows@[i as int]@));
        if !same_cells(&a.rows[i], &b.rows[i]) {
            return false;
        }
        i += 1;
    }
    assert(a@.rows =~= b@.rows);
    true
}

fn same_flag(a: &Option<bool>, b: &Option<bool>) -> (result: bool)
    ensures
        result == (*a == *b),
{
    match (a, b) {
        (Some(a), Some(b)) => *a == *b,
        (None, None) => true,
        _ => false,
    }
}

/// Whether two blocks show in the same way.
pub fn same_kind(a: &BlockRenderKind, b: &BlockRenderKind) -> (result: bool)
    ensures
        result == (a@ == b@),
{
    match (a, b) {
        (BlockRenderKind::Markdown, BlockRenderKind::Markdown) => true,
        (BlockRenderKind::Rule, BlockRenderKind::Rule) => true,
        (BlockRenderKind::Frontmatter, BlockRenderKind::Frontmatter) => true,
        (BlockRenderKind::Heading { level: a }, BlockRenderKind::Heading { level: b }) => *a == *b,
        (BlockRenderKind::Table(a), BlockRenderKind::Table(b)) => same_structure(a, b),
        (
            BlockRenderKind::Image { display_width: a, destination: c, alt: e },
            BlockRenderKind::Image { display_width: b, destination: d, alt: f },
        ) => same_option(a, b) && same_option(c, d) && same_text(e.as_str(), f.as_str()),
        (
            BlockRenderKind::Embed { target: a, section: c },
            BlockRenderKind::Embed { target: b, section: d },
        ) => same_text(a.as_str(), b.as_str()) && same_option(c, d),
        (
            BlockRenderKind::Callout { kind: a, title: c, collapse: e },
            BlockRenderKind::Callout { kind: b, title: d, collapse: f },
        ) => *a == *b && same_text(c.as_str(), d.as_str()) && same_flag(e, f),
        (BlockRenderKind::Math { source: a }, BlockRenderKind::Math { source: b }) => same_text(
            a.as_str(),
            b.as_str(),
        ),
        _ => false,
    }
}

// ---------------------------------------------------------------------------------------------
// Matching
// ---------------------------------------------------------------------------------------------

/// Whether a widget on screen is what is wanted: of the same block, from the same source, in the
/// same place.
pub open spec fn serves(applied: Applied, desired: Desired, blocks: Seq<BlockMark>) -> bool {
    &&& applied.block == blocks[desired.marker]
    &&& applied.source == desired.source
    &&& applied.below == desired.below
    &&& applied.collapsed == desired.collapsed
    &&& applied.shows_source == desired.shows_source
}

/// The first wanted widget, from index `k` on, for a block at this range that is not taken yet.
pub open spec fn first_open(
    desired: Seq<Desired>,
    blocks: Seq<BlockMark>,
    taken: Seq<bool>,
    range: (int, int),
    k: int,
) -> Option<int>
    decreases desired.len() - k,
{
    if k < 0 || k >= desired.len() {
        None
    } else if !taken[k] && blocks[desired[k].marker].range == range {
        Some(k)
    } else {
        first_open(desired, blocks, taken, range, k + 1)
    }
}

/// How far the matching has come: which wanted widgets are served, which widgets stay, and the ids
/// of those that go.
#[verifier::ext_equal]
pub struct Matching {
    pub taken: Seq<bool>,
    pub kept: Seq<int>,
    pub removed: Seq<u64>,
}

/// The wanted widget that a widget on screen serves, if it is still mounted and serves one.
pub open spec fn served(
    applied: Applied,
    mounted: bool,
    desired: Seq<Desired>,
    blocks: Seq<BlockMark>,
    taken: Seq<bool>,
) -> Option<int> {
    match first_open(desired, blocks, taken, applied.block.range, 0) {
        Some(k) => if mounted && serves(applied, desired[k], blocks) {
            Some(k)
        } else {
            None
        },
        None => None,
    }
}

/// The matching of the first `count` widgets on screen.
pub open spec fn matched(
    applied: Seq<Applied>,
    mounted: Seq<bool>,
    desired: Seq<Desired>,
    blocks: Seq<BlockMark>,
    count: int,
) -> Matching
    decreases count,
{
    if count <= 0 {
        Matching {
            taken: Seq::new(desired.len(), |k: int| false),
            kept: Seq::empty(),
            removed: Seq::empty(),
        }
    } else {
        let before = matched(applied, mounted, desired, blocks, count - 1);
        let widget = applied[count - 1];
        match served(widget, mounted[count - 1], desired, blocks, before.taken) {
            Some(k) => Matching {
                taken: before.taken.update(k, true),
                kept: before.kept.push(count - 1),
                ..before
            },
            None => Matching { removed: before.removed.push(widget.block_id), ..before },
        }
    }
}

/// What to do to the screen: the indices of the widgets that stay, the ids of those to remove, and
/// the indices of the wanted ones to insert.
#[derive(Debug)]
pub struct Reconciled {
    pub kept: Vec<usize>,
    pub removed: Vec<u64>,
    pub inserted: Vec<usize>,
}

/// The indices, below `count`, of what is not taken.
pub open spec fn open_indices(taken: Seq<bool>, count: int) -> Seq<int>
    decreases count,
{
    if count <= 0 {
        Seq::empty()
    } else if taken[count - 1] {
        open_indices(taken, count - 1)
    } else {
        open_indices(taken, count - 1).push(count - 1)
    }
}

fn find_open(
    desired: &Vec<DesiredBlock>,
    blocks: &Vec<BlockMarker>,
    taken: &Vec<bool>,
    range: &Range<usize>,
) -> (result: Option<usize>)
    requires
        taken@.len() == desired@.len(),
        forall|k: int| 0 <= k < desired@.len() ==> (#[trigger] desired@[k]).marker < blocks@.len(),
    ensures
        found(result) == first_open(
            desired_views(desired@),
            block_marks(blocks@),
            taken@,
            (range.start as int, range.end as int),
            0,
        ),
        result matches Some(k) ==> k < desired@.len(),
{
    let ghost views = desired_views(desired@);
    let ghost marks = block_marks(blocks@);
    let ghost key = (range.start as int, range.end as int);
    let mut k: usize = 0;
    while k < desired.len()
        invariant
            k <= desired@.len(),
            taken@.len() == desired@.len(),
            views == desired_views(desired@),
            marks == block_marks(blocks@),
            key == (range.start as int, range.end as int),
            forall|k: int|
                0 <= k < desired@.len() ==> (#[trigger] desired@[k]).marker < blocks@.len(),
            first_open(views, marks, taken@, key, 0) == first_open(
                views,
                marks,
                taken@,
                key,
                k as int,
            ),
        decreases desired@.len() - k,
    {
        assert(desired@[k as int].marker < blocks@.len());
        let block = &blocks[desired[k].marker];
        assert(marks[views[k as int].marker] == block@);
        if !taken[k] && block.range.start == range.start && block.range.end == range.end {
            return Some(k);
        }
        k += 1;
    }
    None
}

fn check_serves(applied: &AppliedBlock, desired: &DesiredBlock, blocks: &Vec<BlockMarker>) -> (result:
    bool)
    requires
        desired.marker < blocks@.len(),
    ensures
        result == serves(applied@, desired@, block_marks(blocks@)),
{
    let block = &blocks[desired.marker];
    assert(block_marks(blocks@)[desired@.marker] == block@);
    applied.range.start == block.range.start && applied.range.end == block.range.end && same_text(
        desired.source.as_str(),
        applied.source.as_str(),
    ) && desired.below == applied.below && desired.collapsed == applied.collapsed
        && desired.shows_source == applied.shows_source && same_kind(
        &block.kind,
        &applied.kind,
    ) && block.height_estimate == applied.height_estimate && block.indent_columns
        == applied.indent_columns
}

/// Matches the widgets on screen against the wanted ones: a widget stays where it is still mounted
/// and is exactly what is wanted for its block, any other goes, and what no widget serves is
/// inserted.
pub fn reconcile(
    applied: &Vec<AppliedBlock>,
    mounted: &Vec<bool>,
    desired: &Vec<DesiredBlock>,
    blocks: &Vec<BlockMarker>,
) -> (result: Reconciled)
    requires
        mounted@.len() == applied@.len(),
        forall|k: int| 0 <= k < desired@.len() ==> (#[trigger] desired@[k]).marker < blocks@.len(),
    ensures
        ({
            let matching = matched(
                applied_views(applied@),
                mounted@,
                desired_views(desired@),
                block_marks(blocks@),
                applied@.len() as int,
            );
            &&& indices(result.kept@) == matching.kept
            &&& result.removed@ == matching.removed
            &&& indices(result.inserted@) == open_indices(
                matching.taken,
                desired@.len() as int,
            )
        }),
        forall|i: int|
            0 <= i < result.kept@.len() ==> (#[trigger] result.kept@[i]) < applied@.len(),
        forall|i: int|
            0 <= i < result.inserted@.len() ==> (#[trigger] result.inserted@[i]) < desired@.len(),
{
    let ghost a = applied_views(applied@);
    let ghost d = desired_views(desired@);
    let ghost b = block_marks(blocks@);
    let mut taken: Vec<bool> = Vec::new();
    while taken.len() < desired.len()
        invariant
            taken@.len() <= desired@.len(),
            forall|k: int| 0 <= k < taken@.len() ==> !taken@[k],
        decreases desired@.len() - taken@.len(),
    {
        taken.push(false);
    }
    let mut kept: Vec<usize> = Vec::new();
    let mut removed: Vec<u64> = Vec::new();
    assert(taken@ =~= Seq::new(d.len(), |k: int| false));
    let mut i: usize = 0;
    while i < applied.len()
        invariant
            i <= applied@.len(),
            mounted@.len() == applied@.len(),
            a == applied_views(applied@),
            d == desired_views(desired@),
            b == block_marks(blocks@),
            forall|k: int|
                0 <= k < desired@.len() ==> (#[trigger] desired@[k]).marker < blocks@.len(),
            taken@.len() == desired@.len(),
            taken@ == matched(a, mounted@, d, b, i as int).taken,
            indices(kept@) == matched(a, mounted@, d, b, i as int).kept,
            removed@ == matched(a, mounted@, d, b, i as int).removed,
            forall|j: int| 0 <= j < kept@.len() ==> (#[trigger] kept@[j]) < i,
        decreases applied@.len() - i,
    {
        let widget = &applied[i];
        assert(a[i as int] == widget@);
        let ghost before = indices(kept@);
        let serving = match find_open(desired, blocks, &taken, &widget.range) {
            Some(k) => {
                assert(desired@[k as int].marker < blocks@.len());
                if mounted[i] && check_serves(widget, &desired[k], blocks) {
                    Some(k)
                } else {
                    None
                }
            },
            None => None,
        };
        match serving {
            Some(k) => {
                taken[k] = true;
                kept.push(i);
                assert(indices(kept@) =~= before.push(i as int));
            },
            None => {
                removed.push(widget.block_id);
            },
        }
        i += 1;
    }
    let mut inserted: Vec<usize> = Vec::new();
    let mut k: usize = 0;
    while k < desired.len()
        invariant
            k <= desired@.len(),
            taken@.len() == desired@.len(),
            indices(inserted@) == open_indices(taken@, k as int),
            forall|j: int| 0 <= j < inserted@.len() ==> (#[trigger] inserted@[j]) < k,
        decreases desired@.len() - k,
    {
        let ghost before = indices(inserted@);
        if !taken[k] {
            inserted.push(k);
            assert(indices(inserted@) =~= before.push(k as int));
        }
        k += 1;
    }
    Reconciled { kept, removed, inserted }
}

proof fn lemma_first_open_of_distinct(
    desired: Seq<Desired>,
    blocks: Seq<BlockMark>,
    taken: Seq<bool>,
    at: int,
    k: int,
)
    requires
        0 <= k <= at < desired.len(),
        taken.len() == desired.len(),
        !taken[at],
        forall|j: int|
            0 <= j < at ==> blocks[(#[trigger] desired[j]).marker].range
                != blocks[desired[at].marker].range,
    ensures
        first_open(desired, blocks, taken, blocks[desired[at].marker].range, k) == Some(at),
    decreases at - k,
{
    if k < at {
        assert(blocks[desired[k].marker].range != blocks[desired[at].marker].range);
        lemma_first_open_of_distinct(desired, blocks, taken, at, k + 1);
    }
}

proof fn lemma_unchanged(
    applied: Seq<Applied>,
    mounted: Seq<bool>,
    desired: Seq<Desired>,
    blocks: Seq<BlockMark>,
    count: int,
)
    requires
        applied.len() == desired.len(),
        mounted.len() == applied.len(),
        0 <= count <= applied.len(),
        forall|k: int|
            0 <= k < applied.len() ==> (#[trigger] mounted[k]) && serves(
                applied[k],
                desired[k],
                blocks,
            ),
        forall|j: int, k: int|
            0 <= j < k < desired.len() ==> blocks[(#[trigger] desired[j]).marker].range
                != blocks[(#[trigger] desired[k]).marker].range,
    ensures
        matched(applied, mounted, desired, blocks, count).removed.len() == 0,
        matched(applied, mounted, desired, blocks, count).taken == Seq::new(
            desired.len(),
            |k: int| k < count,
        ),
    decreases count,
{
    if count > 0 {
        lemma_unchanged(applied, mounted, desired, blocks, count - 1);
        let before = matched(applied, mounted, desired, blocks, count - 1);
        assert(mounted[count - 1]);
        lemma_first_open_of_distinct(desired, blocks, before.taken, count - 1, 0);
        assert(before.taken.update(count - 1, true) =~= Seq::new(
            desired.len(),
            |k: int| k < count,
        ));
    } else {
        assert(matched(applied, mounted, desired, blocks, 0).taken =~= Seq::new(
            desired.len(),
            |k: int| k < 0,
        ));
    }
}

proof fn lemma_none_open(taken: Seq<bool>, count: int)
    requires
        0 <= count <= taken.len(),
        forall|k: int| 0 <= k < taken.len() ==> taken[k],
    ensures
        open_indices(taken, count).len() == 0,
    decreases count,
{
    if count > 0 {
        lemma_none_open(taken, count - 1);
    }
}

/// Where the screen already shows what is wanted, nothing is removed and nothing is inserted.
pub proof fn law_an_unchanged_pass_changes_nothing(
    applied: Seq<Applied>,
    mounted: Seq<bool>,
    desired: Seq<Desired>,
    blocks: Seq<BlockMark>,
)
    requires
        applied.len() == desired.len(),
        mounted.len() == applied.len(),
        forall|k: int|
            0 <= k < applied.len() ==> (#[trigger] mounted[k]) && serves(
                applied[k],
                desired[k],
                blocks,
            ),
        forall|j: int, k: int|
            0 <= j < k < desired.len() ==> blocks[(#[trigger] desired[j]).marker].range
                != blocks[(#[trigger] desired[k]).marker].range,
    ensures
        ({
            let matching = matched(applied, mounted, desired, blocks, applied.len() as int);
            &&& matching.removed.len() == 0
            &&& open_indices(matching.taken, desired.len() as int).len() == 0
        }),
{
    lemma_unchanged(applied, mounted, desired, blocks, applied.len() as int);
    let matching = matched(applied, mounted, desired, blocks, applied.len() as int);
    lemma_none_open(matching.taken, desired.len() as int);
}

/// Every widget on screen stays or goes.
pub proof fn law_every_widget_stays_or_goes(
    applied: Seq<Applied>,
    mounted: Seq<bool>,
    desired: Seq<Desired>,
    blocks: Seq<BlockMark>,
    count: int,
)
    requires
        0 <= count,
    ensures
        ({
            let matching = matched(applied, mounted, desired, blocks, count);
            matching.kept.len() + matching.removed.len() == count
        }),
    decreases count,
{
    if count > 0 {
        law_every_widget_stays_or_goes(applied, mounted, desired, blocks, count - 1);
    }
}

} // verus!
