//! What a preview never does: hide what the cursor is in, or draw one widget over another.

use crate::decorations::{
    all_wanted, concealed_inline, is_concealed, keeps_widget, meet, meets_any, reveal_span_of,
    shows_source_of, wanted, widget_place, widget_source, Pass,
};
use crate::document::row_at;
use crate::markers::{BlockMark, InlineMark};
use crate::text::{slice_at, trim};
use vstd::prelude::*;

verus! {

pub(crate) proof fn lemma_concealed_inline(
    marks: Seq<InlineMark>,
    selections: Seq<(int, int)>,
    count: int,
    index: int,
)
    requires
        0 <= count <= marks.len(),
    ensures
        concealed_inline(marks, selections, count).contains(index) == (0 <= index < count
            && is_concealed(marks[index], selections)),
    decreases count,
{
    if count > 0 {
        lemma_concealed_inline(marks, selections, count - 1, index);
        let before = concealed_inline(marks, selections, count - 1);
        let after = concealed_inline(marks, selections, count);
        if is_concealed(marks[count - 1], selections) {
            assert(after == before.push(count - 1));
            assert(after[before.len() as int] == count - 1);
            if before.contains(index) {
                let k = choose|k: int| 0 <= k < before.len() && before[k] == index;
                assert(after[k] == index);
            }
            if after.contains(index) && index != count - 1 {
                let k = choose|k: int| 0 <= k < after.len() && after[k] == index;
                assert(before[k] == index);
            }
        }
    }
}

/// Markdown that a selection touches shows: no marker is concealed whose construct a selection
/// touches, and every other marker with a range is.
pub proof fn law_touched_markdown_shows(
    marks: Seq<InlineMark>,
    selections: Seq<(int, int)>,
    index: int,
)
    requires
        0 <= index < marks.len(),
        marks[index].range.0 < marks[index].range.1,
    ensures
        concealed_inline(marks, selections, marks.len() as int).contains(index) == !meets_any(
            selections,
            reveal_span_of(marks[index]),
        ),
{
    lemma_concealed_inline(marks, selections, marks.len() as int, index);
}

/// A block that the cursor is in is never replaced by a widget, unless the widget is a heading's,
/// which then shows the source, or has controls of its own and its source was not asked for.
pub proof fn law_the_cursor_reveals_a_block(
    s: Seq<char>,
    block: BlockMark,
    selection_rows: Seq<(int, int)>,
    revealed: Option<(int, int)>,
)
    requires
        meets_any(selection_rows, (row_at(s, block.range.0), row_at(s, block.range.1))),
        widget_place(s, block, selection_rows, revealed) == Some(false),
    ensures
        keeps_widget(block.look),
        shows_source_of(s, block, selection_rows) || (revealed matches Some(range) ==> !meet(
            (row_at(s, range.0), row_at(s, range.1)),
            (row_at(s, block.range.0), row_at(s, block.range.1)),
        )),
{
}

/// A formula is never without a widget: the cursor only moves the widget below its source.
pub proof fn law_a_formula_keeps_its_widget(
    s: Seq<char>,
    block: BlockMark,
    selection_rows: Seq<(int, int)>,
    revealed: Option<(int, int)>,
)
    requires
        block.look is Math,
        block.range.0 <= block.range.1,
    ensures
        widget_place(s, block, selection_rows, revealed) == Some(
            meets_any(selection_rows, (row_at(s, block.range.0), row_at(s, block.range.1))),
        ),
{
}

pub(crate) proof fn lemma_wanted_in_order(pass: Pass, count: int)
    requires
        0 <= count <= pass.blocks.len(),
    ensures
        forall|i: int|
            0 <= i < all_wanted(pass, count).len() ==> 0 <= (#[trigger] all_wanted(
                pass,
                count,
            )[i]).marker < count && wanted(pass, all_wanted(pass, count)[i].marker) == Some(
                all_wanted(pass, count)[i],
            ),
        forall|i: int, j: int|
            0 <= i < j < all_wanted(pass, count).len() ==> (#[trigger] all_wanted(
                pass,
                count,
            )[i]).marker < (#[trigger] all_wanted(pass, count)[j]).marker,
    decreases count,
{
    if count > 0 {
        lemma_wanted_in_order(pass, count - 1);
        let before = all_wanted(pass, count - 1);
        let after = all_wanted(pass, count);
        assert forall|i: int| 0 <= i < after.len() implies 0 <= (#[trigger] after[i]).marker < count
            && wanted(pass, after[i].marker) == Some(after[i]) by {
            if i < before.len() {
                assert(after[i] == before[i]);
            }
        }
        assert forall|i: int, j: int| 0 <= i < j < after.len() implies (#[trigger] after[i]).marker
            < (#[trigger] after[j]).marker by {
            assert(after[i] == before[i]);
            if j < before.len() {
                assert(after[j] == before[j]);
            }
        }
    }
}

/// Where the blocks are in order and apart from each other, so are the sources of the widgets that
/// are wanted: no widget replaces text that another one is drawn from.
pub proof fn law_widgets_are_apart(pass: Pass, i: int, j: int)
    requires
        forall|a: int, b: int|
            0 <= a < b < pass.blocks.len() ==> (#[trigger] pass.blocks[a]).range.1 <= (
            #[trigger] pass.blocks[b]).range.0,
        0 <= i < j < all_wanted(pass, pass.blocks.len() as int).len(),
    ensures
        ({
            let widgets = all_wanted(pass, pass.blocks.len() as int);
            pass.blocks[widgets[i].marker].range.1 <= pass.blocks[widgets[j].marker].range.0
        }),
{
    lemma_wanted_in_order(pass, pass.blocks.len() as int);
    let widgets = all_wanted(pass, pass.blocks.len() as int);
    assert(widgets[i].marker < widgets[j].marker);
}

/// A heading that is not blank always has a widget in place of its lines, which shows their source
/// where the selection is in them.
pub proof fn law_a_heading_keeps_its_widget(pass: Pass, index: int)
    requires
        0 <= index < pass.blocks.len(),
        pass.blocks[index].look is Heading,
        pass.blocks[index].range.0 <= pass.blocks[index].range.1,
        slice_at(pass.text, pass.blocks[index].range.0, pass.blocks[index].range.1) is Some,
        trim(
            slice_at(pass.text, pass.blocks[index].range.0, pass.blocks[index].range.1)->0,
        ).len() > 0,
    ensures
        ({
            let block = pass.blocks[index];
            let rows = (row_at(pass.text, block.range.0), row_at(pass.text, block.range.1));
            &&& wanted(pass, index) matches Some(desired) && !desired.below
                && desired.shows_source == meets_any(pass.selection_rows, rows)
                && Some(desired.source) == slice_at(pass.text, block.range.0, block.range.1)
            &&& all_wanted(pass, pass.blocks.len() as int).contains(wanted(pass, index)->0)
        }),
{
    lemma_wanted_is_listed(pass, index, pass.blocks.len() as int);
}

pub(crate) proof fn lemma_wanted_is_listed(pass: Pass, index: int, count: int)
    requires
        0 <= index < count <= pass.blocks.len(),
        wanted(pass, index) is Some,
    ensures
        all_wanted(pass, count).contains(wanted(pass, index)->0),
    decreases count,
{
    let desired = wanted(pass, index)->0;
    let all = all_wanted(pass, count);
    if index == count - 1 {
        assert(all[all.len() - 1] == desired);
    } else {
        lemma_wanted_is_listed(pass, index, count - 1);
        let before = all_wanted(pass, count - 1);
        let k = choose|k: int| 0 <= k < before.len() && before[k] == desired;
        assert(all[k] == desired);
    }
}

/// Where the blocks are in order and apart from each other, every widget that is wanted has a range
/// of its own, by which it is told from the others.
pub proof fn law_widgets_are_told_apart(pass: Pass, i: int, j: int)
    requires
        forall|a: int, b: int|
            0 <= a < b < pass.blocks.len() ==> (#[trigger] pass.blocks[a]).range.1 <= (
            #[trigger] pass.blocks[b]).range.0,
        0 <= i < j < all_wanted(pass, pass.blocks.len() as int).len(),
    ensures
        ({
            let widgets = all_wanted(pass, pass.blocks.len() as int);
            pass.blocks[widgets[i].marker].range != pass.blocks[widgets[j].marker].range
        }),
{
    law_widgets_are_apart(pass, i, j);
    lemma_wanted_in_order(pass, pass.blocks.len() as int);
    let widgets = all_wanted(pass, pass.blocks.len() as int);
    let block = pass.blocks[widgets[i].marker];
    assert(wanted(pass, widgets[i].marker) == Some(widgets[i]));
    assert(widget_source(pass.text, block, pass.definitions) is Some);
    if block.range.0 >= block.range.1 {
        let source = slice_at(pass.text, block.range.0, block.range.1)->0;
        assert(source.len() == 0);
        assert(trim(source).len() == 0);
    }
}

} // verus!
