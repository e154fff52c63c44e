//! Which blocks show as widgets, said of each kind of block and of where the selection is.

use crate::decorations::{
    all_wanted, concealed_inline, concealed_marker, heading_offsets, meet, meets_any,
    shows_collapsed, still_revealed, wanted, widget_source, Desired, Pass,
};
use crate::delimiter_laws::lemma_trim_bounds;
use crate::document::row_at;
use crate::markers::{BlockLook, BlockMark, InlineLook, InlineMark};
use crate::preview_laws::{lemma_concealed_inline, lemma_wanted_in_order, lemma_wanted_is_listed};
use crate::table_buffer::lemma_row_near_within;
use crate::text::{
    byte_length, byte_offset, lemma_byte_offset_grows, lemma_index_at, lemma_run_end,
    lemma_split_from, lines, run_end, slice_at, trim, white_space, CharClass,
};
use vstd::prelude::*;

verus! {

// ---------------------------------------------------------------------------------------------
// Rows
// ---------------------------------------------------------------------------------------------

/// A place in a line, its end included, is on the row of that line.
pub proof fn law_a_place_is_on_the_row_of_its_line(s: Seq<char>, row: int, i: int)
    requires
        0 <= row < lines(s).len(),
        lines(s)[row].0 <= i <= lines(s)[row].1,
    ensures
        row_at(s, byte_offset(s, i) as int) == row,
{
    lemma_split_from(s, '\n', 0);
    assert(0 <= lines(s)[row].0 <= lines(s)[row].1 <= s.len());
    lemma_byte_offset_grows(s, lines(s)[row].0, i);
    lemma_byte_offset_grows(s, i, lines(s)[row].1);
    lemma_row_near_within(s, byte_offset(s, i) as int, 0, row, row);
}

/// Whether one of several runs of rows has a row in common with the rows from `first` to `last`.
pub open spec fn reaches(runs: Seq<(int, int)>, first: int, last: int) -> bool {
    exists|i: int| 0 <= i < runs.len() && (#[trigger] runs[i]).0 <= last && first <= runs[i].1
}

proof fn lemma_reaches(runs: Seq<(int, int)>, first: int, last: int)
    ensures
        reaches(runs, first, last) == meets_any(runs, (first, last)),
{
    if reaches(runs, first, last) {
        let i = choose|i: int|
            0 <= i < runs.len() && (#[trigger] runs[i]).0 <= last && first <= runs[i].1;
        assert(meet(runs[i], (first, last)));
    }
    if meets_any(runs, (first, last)) {
        let i = choose|i: int| 0 <= i < runs.len() && meet(#[trigger] runs[i], (first, last));
        assert(runs[i].0 <= last && first <= runs[i].1);
    }
}

/// Whether the selection reaches the rows of a block.
pub open spec fn is_selected(pass: Pass, block: BlockMark) -> bool {
    reaches(
        pass.selection_rows,
        row_at(pass.text, block.range.0),
        row_at(pass.text, block.range.1),
    )
}

/// Whether the source that was asked for reaches the rows of a block.
pub open spec fn is_asked_for(pass: Pass, block: BlockMark) -> bool {
    pass.revealed matches Some(range) && row_at(pass.text, range.0) <= row_at(
        pass.text,
        block.range.1,
    ) && row_at(pass.text, block.range.0) <= row_at(pass.text, range.1)
}

/// Whether a block has a range of the text, with something in it that is not white space.
pub open spec fn has_content(pass: Pass, block: BlockMark, source: Seq<char>) -> bool {
    &&& block.range.0 <= block.range.1
    &&& slice_at(pass.text, block.range.0, block.range.1) == Some(source)
    &&& exists|k: int| 0 <= k < source.len() && !white_space(#[trigger] source[k])
}

/// Whether a widget is among those that are wanted for a block, and whether it is below the source.
pub open spec fn has_widget(pass: Pass, index: int, below: bool) -> bool {
    exists|i: int|
        0 <= i < all_wanted(pass, pass.blocks.len() as int).len() && (#[trigger] all_wanted(
            pass,
            pass.blocks.len() as int,
        )[i]).marker == index && all_wanted(pass, pass.blocks.len() as int)[i].below == below
}

/// Whether a block has no widget at all.
pub open spec fn has_no_widget(pass: Pass, index: int) -> bool {
    !has_widget(pass, index, false) && !has_widget(pass, index, true)
}

proof fn lemma_has_widget(pass: Pass, index: int)
    requires
        0 <= index < pass.blocks.len(),
    ensures
        match wanted(pass, index) {
            Some(desired) => has_widget(pass, index, desired.below) && !has_widget(
                pass,
                index,
                !desired.below,
            ),
            None => has_no_widget(pass, index),
        },
{
    let count = pass.blocks.len() as int;
    let all = all_wanted(pass, count);
    lemma_wanted_in_order(pass, count);
    if let Some(desired) = wanted(pass, index) {
        lemma_wanted_is_listed(pass, index, count);
        let i = choose|i: int| 0 <= i < all.len() && all[i] == desired;
        assert(all[i].marker == index && all[i].below == desired.below);
    }
    assert forall|i: int| 0 <= i < all.len() && (#[trigger] all[i]).marker == index implies Some(
        all[i],
    ) == wanted(pass, index) by {
        assert(wanted(pass, all[i].marker) == Some(all[i]));
    }
}

proof fn lemma_has_content(pass: Pass, block: BlockMark, source: Seq<char>)
    requires
        has_content(pass, block, source),
    ensures
        trim(source).len() > 0,
        widget_source(pass.text, block, pass.definitions) is Some,
{
    let bounds = lemma_trim_bounds(source);
}

// ---------------------------------------------------------------------------------------------
// Widgets
// ---------------------------------------------------------------------------------------------

/// A table, an image or frontmatter shows as a widget in the place of its source wherever the
/// selection is, as long as its source was not asked for. Where it was, and the selection is in it,
/// it shows as its source.
pub proof fn law_what_is_edited_through_its_widget_keeps_it(
    pass: Pass,
    index: int,
    source: Seq<char>,
)
    requires
        0 <= index < pass.blocks.len(),
        ({
            let look = pass.blocks[index].look;
            look is Table || look is Image || look is Frontmatter
        }),
        has_content(pass, pass.blocks[index], source),
    ensures
        !is_asked_for(pass, pass.blocks[index]) ==> has_widget(pass, index, false),
        !is_selected(pass, pass.blocks[index]) ==> has_widget(pass, index, false),
        is_asked_for(pass, pass.blocks[index]) && is_selected(pass, pass.blocks[index])
            ==> has_no_widget(pass, index),
{
    let block = pass.blocks[index];
    lemma_has_content(pass, block, source);
    lemma_has_widget(pass, index);
    lemma_reaches(
        pass.selection_rows,
        row_at(pass.text, block.range.0),
        row_at(pass.text, block.range.1),
    );
}

/// A rendered block, a rule, an embedded note or a callout shows as a widget in the place of its
/// source where the selection is in none of its rows, and as its source where it is.
pub proof fn law_what_is_only_read_gives_way_to_the_cursor(
    pass: Pass,
    index: int,
    source: Seq<char>,
)
    requires
        0 <= index < pass.blocks.len(),
        ({
            let look = pass.blocks[index].look;
            look is Markdown || look is Rule || look is Embed || look is Callout
        }),
        has_content(pass, pass.blocks[index], source),
    ensures
        !is_selected(pass, pass.blocks[index]) ==> has_widget(pass, index, false),
        is_selected(pass, pass.blocks[index]) ==> has_no_widget(pass, index),
{
    let block = pass.blocks[index];
    lemma_has_content(pass, block, source);
    lemma_has_widget(pass, index);
    lemma_reaches(
        pass.selection_rows,
        row_at(pass.text, block.range.0),
        row_at(pass.text, block.range.1),
    );
}

/// A formula shows in the place of its source where the selection is in none of its rows, and below
/// its source where it is.
pub proof fn law_a_formula_moves_below_the_cursor(pass: Pass, index: int, source: Seq<char>)
    requires
        0 <= index < pass.blocks.len(),
        pass.blocks[index].look is Math,
        has_content(pass, pass.blocks[index], source),
    ensures
        has_widget(pass, index, is_selected(pass, pass.blocks[index])),
        !has_widget(pass, index, !is_selected(pass, pass.blocks[index])),
{
    let block = pass.blocks[index];
    lemma_has_content(pass, block, source);
    lemma_has_widget(pass, index);
    lemma_reaches(
        pass.selection_rows,
        row_at(pass.text, block.range.0),
        row_at(pass.text, block.range.1),
    );
}

/// A heading shows in the place of its source wherever the selection is.
pub proof fn law_a_heading_shows_as_a_widget(pass: Pass, index: int, source: Seq<char>)
    requires
        0 <= index < pass.blocks.len(),
        pass.blocks[index].look is Heading,
        has_content(pass, pass.blocks[index], source),
    ensures
        has_widget(pass, index, false),
        wanted(pass, index) matches Some(desired) && desired.shows_source == is_selected(
            pass,
            pass.blocks[index],
        ),
{
    let block = pass.blocks[index];
    lemma_has_content(pass, block, source);
    lemma_has_widget(pass, index);
    lemma_reaches(
        pass.selection_rows,
        row_at(pass.text, block.range.0),
        row_at(pass.text, block.range.1),
    );
}

/// A block with nothing but white space in it has no widget.
pub proof fn law_a_blank_block_has_no_widget(pass: Pass, index: int, source: Seq<char>)
    requires
        0 <= index < pass.blocks.len(),
        slice_at(pass.text, pass.blocks[index].range.0, pass.blocks[index].range.1) == Some(source),
        forall|k: int| 0 <= k < source.len() ==> white_space(#[trigger] source[k]),
    ensures
        has_no_widget(pass, index),
{
    lemma_has_widget(pass, index);
    let bounds = lemma_trim_bounds(source);
}

/// A widget is drawn from its block's text. Where it renders markdown that may refer to definitions
/// elsewhere, those of the whole text stand behind it, two newlines apart.
pub proof fn law_a_widget_is_drawn_from_its_block(
    pass: Pass,
    index: int,
    source: Seq<char>,
    desired: Desired,
)
    requires
        0 <= index < pass.blocks.len(),
        slice_at(pass.text, pass.blocks[index].range.0, pass.blocks[index].range.1) == Some(source),
        wanted(pass, index) == Some(desired),
    ensures
        ({
            let look = pass.blocks[index].look;
            let refers = look is Markdown || look is Image || look is Callout;
            &&& desired.marker == index
            &&& refers && pass.definitions.len() > 0 ==> desired.source == source + seq![
                '\n',
                '\n',
            ] + pass.definitions
            &&& !refers || pass.definitions.len() == 0 ==> desired.source == source
            &&& !(look is Callout) ==> !desired.collapsed
            &&& !(look is Heading) ==> !desired.shows_source
        }),
{
    reveal_strlit("\n\n");
    assert("\n\n"@ =~= seq!['\n', '\n']);
}

/// A callout shows as the reader last had it, and where they did not touch it as its header asks.
pub proof fn law_a_callout_shows_as_it_was_left(
    block: BlockMark,
    chosen: Seq<((int, int), bool)>,
    k: int,
    asked: Option<bool>,
)
    requires
        block.look matches BlockLook::Callout { collapse, .. } && collapse == asked,
    ensures
        0 <= k < chosen.len() && chosen[k].0.0 == block.range.0 && (forall|m: int|
            0 <= m < k ==> (#[trigger] chosen[m]).0.0 != block.range.0) ==> shows_collapsed(
            block,
            chosen,
        ) == chosen[k].1,
        (forall|m: int| 0 <= m < chosen.len() ==> (#[trigger] chosen[m]).0.0 != block.range.0)
            ==> shows_collapsed(block, chosen) == (asked == Some(true)),
{
    lemma_collapsed_at(chosen, block.range.0, 0, asked == Some(true), k);
}

proof fn lemma_collapsed_at(
    list: Seq<((int, int), bool)>,
    start: int,
    i: int,
    asked: bool,
    k: int,
)
    requires
        0 <= i <= list.len(),
    ensures
        i <= k < list.len() && list[k].0.0 == start && (forall|m: int|
            i <= m < k ==> (#[trigger] list[m]).0.0 != start) ==> crate::callout::collapsed_at(
            list,
            start,
            i,
            asked,
        ) == list[k].1,
        (forall|m: int| i <= m < list.len() ==> (#[trigger] list[m]).0.0 != start)
            ==> crate::callout::collapsed_at(list, start, i, asked) == asked,
    decreases list.len() - i,
{
    if i < list.len() && list[i].0.0 != start {
        lemma_collapsed_at(list, start, i + 1, asked, k);
    }
}

/// The block whose source was asked for stays shown as its source as long as the selection reaches
/// its rows.
pub proof fn law_an_asked_for_source_stays_while_selected(
    s: Seq<char>,
    range: (int, int),
    selection_rows: Seq<(int, int)>,
)
    ensures
        reaches(selection_rows, row_at(s, range.0), row_at(s, range.1)) ==> still_revealed(
            s,
            Some(range),
            selection_rows,
        ) == Some(range),
        !reaches(selection_rows, row_at(s, range.0), row_at(s, range.1)) ==> still_revealed(
            s,
            Some(range),
            selection_rows,
        ) is None,
        still_revealed(s, None, selection_rows) is None,
{
    lemma_reaches(selection_rows, row_at(s, range.0), row_at(s, range.1));
}

// ---------------------------------------------------------------------------------------------
// Concealments
// ---------------------------------------------------------------------------------------------

/// A marker is concealed where it has a range and no selection touches it, or the construct that it
/// is part of, the ends included.
pub proof fn law_untouched_syntax_is_concealed(
    marks: Seq<InlineMark>,
    selections: Seq<(int, int)>,
    index: int,
)
    requires
        0 <= index < marks.len(),
    ensures
        ({
            let span = match marks[index].look {
                InlineLook::Hide { reveal_span } => reveal_span,
                _ => marks[index].range,
            };
            concealed_inline(marks, selections, marks.len() as int).contains(index) == (
            marks[index].range.0 < marks[index].range.1 && !reaches(selections, span.0, span.1))
        }),
{
    lemma_concealed_inline(marks, selections, marks.len() as int, index);
    let span = match marks[index].look {
        InlineLook::Hide { reveal_span } => reveal_span,
        _ => marks[index].range,
    };
    lemma_reaches(selections, span.0, span.1);
}

/// The marker of a heading, with the blanks before and behind it, is concealed where no selection
/// touches the heading, or where the selection comes from a search.
pub proof fn law_the_marker_of_a_heading_is_concealed(
    s: Seq<char>,
    block: BlockMark,
    level: u8,
    indent: Seq<char>,
    gap: Seq<char>,
    title: Seq<char>,
    selections: Seq<(int, int)>,
    from_search: bool,
)
    requires
        block.look == (BlockLook::Heading { level }),
        level > 0,
        ({
            let hashes = Seq::new(level as nat, |i: int| '#');
            slice_at(s, block.range.0, block.range.1) == Some(indent + hashes + gap + title)
        }),
        forall|k: int| 0 <= k < indent.len() ==> #[trigger] indent[k] == ' ' || indent[k] == '\t',
        forall|k: int| 0 <= k < gap.len() ==> #[trigger] gap[k] == ' ' || gap[k] == '\t',
        title.len() > 0 ==> title[0] != ' ' && title[0] != '\t',
    ensures
        concealed_marker(s, block, selections, from_search) == if !from_search && reaches(
            selections,
            block.range.0,
            block.range.1,
        ) {
            None
        } else {
            Some((block.range.0, block.range.0 + indent.len() + level + gap.len()))
        },
{
    let hashes = Seq::new(level as nat, |i: int| '#');
    let source = indent + hashes + gap + title;
    let class = CharClass::Blank;
    let n = indent.len() as int;
    let m = n + level;
    let e = m + gap.len();
    assert(source[n] == '#');
    assert forall|k: int| 0 <= k < e implies (#[trigger] source[k]) as u32 <= 0x7f by {
        if k < n {
            assert(source[k] == indent[k]);
        } else if k >= m {
            assert(source[k] == gap[k - m]);
        }
    }
    lemma_ascii_offsets(source, e);
    lemma_ascii_offsets(source, n);
    lemma_ascii_offsets(source, m);
    lemma_run_end(source, class, 0);
    assert(run_end(source, class, 0) == n) by {
        let end = run_end(source, class, 0);
        if end < n {
            assert(source[end] == indent[end]);
        } else if n < end {
            assert(class.holds(source[n]));
        }
    }
    lemma_run_end(source, class, m);
    assert(run_end(source, class, m) == e) by {
        let end = run_end(source, class, m);
        if end < e {
            assert(source[end] == gap[end - m]);
        } else if e < end {
            assert(class.holds(source[e]));
            assert(source[e] == title[0]);
        }
    }
    lemma_byte_offset_grows(source, m, source.len() as int);
    lemma_index_at(source, m);
    assert(byte_length(source) == byte_offset(source, source.len() as int)) by {
        crate::text::lemma_byte_offset_part(source, 0, source.len() as int, source.len() as int);
        assert(source.subrange(0, source.len() as int) =~= source);
    }
    assert(heading_offsets(source, level as int).1 == e);
    lemma_reaches(selections, block.range.0, block.range.1);
}

/// ASCII characters take a byte each.
pub(crate) proof fn lemma_ascii_offsets(s: Seq<char>, i: int)
    requires
        0 <= i <= s.len(),
        forall|k: int| 0 <= k < i ==> (#[trigger] s[k]) as u32 <= 0x7f,
    ensures
        byte_offset(s, i) == i,
    decreases i,
{
    if i > 0 {
        lemma_ascii_offsets(s, i - 1);
        assert(s[i - 1] as u32 <= 0x7f);
    }
}

} // verus!
