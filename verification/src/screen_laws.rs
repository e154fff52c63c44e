//! What is on screen: which widgets stay, what is highlighted and how, and what an edit next to a
//! widget does.

use crate::addon::{
    changed_images, changed_notes, changes_image, changes_note, creates_note, decorated_spans,
    heading_spans, FileChange, PathChange,
};
use crate::callout::body_lines;
use crate::cards::callout_shown;
use crate::decorations::Desired;
use crate::delimiter_laws::lemma_trim_bounds;
use crate::edits::{
    clipped_left, deletion_at, deletions_at, index_up_to, stale_folds, toggled_marker,
};
use crate::embed_laws::names_image;
use crate::heading::{
    default_style, preview_is_on, style_at, styled, HeadingStyleContent, MarkdownHeadingStyle,
    MarkdownHeadingStyles,
};
use crate::highlights::{
    apart_from, heading_ranges, look_of, ranges_of, Background, TextColor, BOLD, CITATION,
    DEFINITION, HIGHLIGHT, ITALIC, LINK, ORDERED_MARKER, STRIKE, TAG, UNRESOLVED,
};
use crate::markers::{BlockLook, BlockMark, MarkerSet};
use crate::path::extension_of;
use crate::reconcile::{
    first_open, matched, open_indices, served, serves, Applied,
};
use crate::text::{
    ascii_lower, ascii_lowercase, byte_offset, is_boundary, join, lemma_byte_offset_grows,
    lemma_index_at, spans,
};
use crate::text_laws::{is_blank_text, law_trimming_takes_the_outer_blanks};
use crate::wikilink::displayed;
use vstd::prelude::*;

verus! {

// ---------------------------------------------------------------------------------------------
// Widgets that stay
// ---------------------------------------------------------------------------------------------

proof fn lemma_first_open(
    desired: Seq<Desired>,
    blocks: Seq<BlockMark>,
    taken: Seq<bool>,
    range: (int, int),
    from: int,
)
    requires
        0 <= from,
    ensures
        match first_open(desired, blocks, taken, range, from) {
            Some(k) => from <= k < desired.len() && !taken[k] && blocks[desired[k].marker].range
                == range && forall|m: int|
                from <= m < k ==> taken[m] || blocks[(#[trigger] desired[m]).marker].range != range,
            None => forall|m: int|
                from <= m < desired.len() ==> taken[m] || blocks[(#[trigger] desired[m]).marker].range
                    != range,
        },
    decreases desired.len() - from,
{
    if from < desired.len() && !(!taken[from] && blocks[desired[from].marker].range == range) {
        lemma_first_open(desired, blocks, taken, range, from + 1);
    }
}

/// A widget stays only where it shows exactly what is wanted, and is still mounted.
pub proof fn law_what_stays_is_wanted(
    applied: Seq<Applied>,
    mounted: Seq<bool>,
    desired: Seq<Desired>,
    blocks: Seq<BlockMark>,
    count: int,
    n: int,
)
    requires
        0 <= count <= applied.len(),
        0 <= n < matched(applied, mounted, desired, blocks, count).kept.len(),
    ensures
        ({
            let i = matched(applied, mounted, desired, blocks, count).kept[n];
            &&& 0 <= i < count
            &&& mounted[i]
            &&& exists|k: int|
                0 <= k < desired.len() && blocks[(#[trigger] desired[k]).marker] == applied[i].block
                    && desired[k].source == applied[i].source && desired[k].below == applied[i].below
                    && desired[k].collapsed == applied[i].collapsed && desired[k].shows_source
                    == applied[i].shows_source
        }),
    decreases count,
{
    if count > 0 {
        let before = matched(applied, mounted, desired, blocks, count - 1);
        let widget = applied[count - 1];
        lemma_first_open(desired, blocks, before.taken, widget.block.range, 0);
        if n < before.kept.len() {
            law_what_stays_is_wanted(applied, mounted, desired, blocks, count - 1, n);
        } else {
            let k = served(widget, mounted[count - 1], desired, blocks, before.taken)->0;
            assert(serves(widget, desired[k], blocks));
        }
    }
}

proof fn lemma_taken(
    applied: Seq<Applied>,
    mounted: Seq<bool>,
    desired: Seq<Desired>,
    blocks: Seq<BlockMark>,
    count: int,
    k: int,
)
    requires
        0 <= count <= applied.len(),
        0 <= k < desired.len(),
    ensures
        matched(applied, mounted, desired, blocks, count).taken.len() == desired.len(),
        matched(applied, mounted, desired, blocks, count).taken[k] ==> exists|n: int|
            0 <= n < matched(applied, mounted, desired, blocks, count).kept.len() && 0
                <= #[trigger] matched(applied, mounted, desired, blocks, count).kept[n] < count
                && serves(
                applied[matched(applied, mounted, desired, blocks, count).kept[n]],
                desired[k],
                blocks,
            ),
    decreases count,
{
    if count > 0 {
        lemma_taken(applied, mounted, desired, blocks, count - 1, k);
        let before = matched(applied, mounted, desired, blocks, count - 1);
        let after = matched(applied, mounted, desired, blocks, count);
        let widget = applied[count - 1];
        lemma_first_open(desired, blocks, before.taken, widget.block.range, 0);
        if after.taken[k] {
            if before.taken[k] {
                let n = choose|n: int|
                    0 <= n < before.kept.len() && 0 <= #[trigger] before.kept[n] < count - 1
                        && serves(applied[before.kept[n]], desired[k], blocks);
                assert(after.kept[n] == before.kept[n]);
            } else {
                assert(after.kept[before.kept.len() as int] == count - 1);
            }
        }
    }
}

proof fn lemma_open(taken: Seq<bool>, count: int, k: int)
    requires
        0 <= k < count <= taken.len(),
    ensures
        open_indices(taken, count).contains(k) == !taken[k],
    decreases count,
{
    let before = open_indices(taken, count - 1);
    let after = open_indices(taken, count);
    lemma_open_bounds(taken, count - 1);
    if k == count - 1 {
        if taken[k] {
            if after.contains(k) {
                let i = choose|i: int| 0 <= i < after.len() && after[i] == k;
                assert(before[i] < count - 1);
            }
        } else {
            assert(after[before.len() as int] == k);
        }
    } else {
        lemma_open(taken, count - 1, k);
        if before.contains(k) {
            let i = choose|i: int| 0 <= i < before.len() && before[i] == k;
            assert(after[i] == k);
        }
        if after.contains(k) {
            let i = choose|i: int| 0 <= i < after.len() && after[i] == k;
            assert(before[i] == k);
        }
    }
}

proof fn lemma_open_bounds(taken: Seq<bool>, count: int)
    ensures
        forall|i: int|
            0 <= i < open_indices(taken, count).len() ==> #[trigger] open_indices(taken, count)[i]
                < count,
    decreases count,
{
    if count > 0 {
        lemma_open_bounds(taken, count - 1);
        let before = open_indices(taken, count - 1);
        let after = open_indices(taken, count);
        assert forall|i: int| 0 <= i < after.len() implies #[trigger] after[i] < count by {
            if i < before.len() {
                assert(after[i] == before[i]);
            }
        }
    }
}

/// What is wanted is on screen in the end: a widget that stays shows it, or it is inserted.
pub proof fn law_what_is_wanted_is_shown(
    applied: Seq<Applied>,
    mounted: Seq<bool>,
    desired: Seq<Desired>,
    blocks: Seq<BlockMark>,
    k: int,
)
    requires
        0 <= k < desired.len(),
    ensures
        ({
            let matching = matched(applied, mounted, desired, blocks, applied.len() as int);
            let inserted = open_indices(matching.taken, desired.len() as int);
            inserted.contains(k) || exists|n: int|
                0 <= n < matching.kept.len() && 0 <= #[trigger] matching.kept[n] < applied.len()
                    && serves(applied[matching.kept[n]], desired[k], blocks)
        }),
{
    lemma_taken(applied, mounted, desired, blocks, applied.len() as int, k);
    let matching = matched(applied, mounted, desired, blocks, applied.len() as int);
    lemma_open(matching.taken, desired.len() as int, k);
}

proof fn lemma_kept(
    applied: Seq<Applied>,
    mounted: Seq<bool>,
    desired: Seq<Desired>,
    blocks: Seq<BlockMark>,
    count: int,
    i: int,
    k: int,
)
    requires
        0 <= count <= applied.len(),
        0 <= i < applied.len(),
        0 <= k < desired.len(),
        mounted[i],
        serves(applied[i], desired[k], blocks),
        forall|m: int|
            0 <= m < desired.len() && m != k ==> blocks[(#[trigger] desired[m]).marker].range
                != applied[i].block.range,
        forall|m: int|
            0 <= m < applied.len() && m != i ==> (#[trigger] applied[m]).block.range
                != applied[i].block.range,
    ensures
        count <= i ==> !matched(applied, mounted, desired, blocks, count).taken[k],
        i < count ==> matched(applied, mounted, desired, blocks, count).kept.contains(i),
    decreases count,
{
    if count > 0 {
        lemma_kept(applied, mounted, desired, blocks, count - 1, i, k);
        let before = matched(applied, mounted, desired, blocks, count - 1);
        let after = matched(applied, mounted, desired, blocks, count);
        let widget = applied[count - 1];
        lemma_taken(applied, mounted, desired, blocks, count - 1, k);
        lemma_first_open(desired, blocks, before.taken, widget.block.range, 0);
        if count - 1 == i {
            assert(blocks[desired[k].marker].range == widget.block.range);
            assert(after.kept[before.kept.len() as int] == i);
        } else if i < count - 1 {
            let n = choose|n: int| 0 <= n < before.kept.len() && before.kept[n] == i;
            assert(after.kept[n] == i);
        } else {
            assert(widget.block.range != applied[i].block.range);
        }
    }
}

/// A mounted widget that shows what is wanted stays.
pub proof fn law_a_widget_that_is_wanted_stays(
    applied: Seq<Applied>,
    mounted: Seq<bool>,
    desired: Seq<Desired>,
    blocks: Seq<BlockMark>,
    i: int,
    k: int,
)
    requires
        0 <= i < applied.len(),
        0 <= k < desired.len(),
        mounted[i],
        applied[i].block == blocks[desired[k].marker],
        applied[i].source == desired[k].source,
        applied[i].below == desired[k].below,
        applied[i].collapsed == desired[k].collapsed,
        applied[i].shows_source == desired[k].shows_source,
        forall|m: int|
            0 <= m < desired.len() && m != k ==> blocks[(#[trigger] desired[m]).marker].range
                != applied[i].block.range,
        forall|m: int|
            0 <= m < applied.len() && m != i ==> (#[trigger] applied[m]).block.range
                != applied[i].block.range,
    ensures
        matched(applied, mounted, desired, blocks, applied.len() as int).kept.contains(i),
{
    lemma_kept(applied, mounted, desired, blocks, applied.len() as int, i, k);
}

/// A widget that does not stay is removed by its id.
pub proof fn law_a_widget_that_does_not_stay_is_removed(
    applied: Seq<Applied>,
    mounted: Seq<bool>,
    desired: Seq<Desired>,
    blocks: Seq<BlockMark>,
    count: int,
    i: int,
)
    requires
        0 <= i < count <= applied.len(),
    ensures
        ({
            let matching = matched(applied, mounted, desired, blocks, count);
            matching.kept.contains(i) || matching.removed.contains(applied[i].block_id)
        }),
    decreases count,
{
    let before = matched(applied, mounted, desired, blocks, count - 1);
    let after = matched(applied, mounted, desired, blocks, count);
    if i == count - 1 {
        if after.kept.len() > before.kept.len() {
            assert(after.kept[before.kept.len() as int] == i);
        } else {
            assert(after.removed[before.removed.len() as int] == applied[i].block_id);
        }
    } else {
        law_a_widget_that_does_not_stay_is_removed(applied, mounted, desired, blocks, count - 1, i);
        if before.kept.contains(i) {
            let n = choose|n: int| 0 <= n < before.kept.len() && before.kept[n] == i;
            assert(after.kept[n] == i);
        } else {
            let id = applied[i].block_id;
            let n = choose|n: int| 0 <= n < before.removed.len() && before.removed[n] == id;
            assert(after.removed[n] == id);
        }
    }
}

// ---------------------------------------------------------------------------------------------
// Highlights
// ---------------------------------------------------------------------------------------------

/// Every heading of a level is styled as one, and nothing else is.
pub proof fn law_every_heading_of_a_level_is_styled(
    blocks: Seq<BlockMark>,
    level: u8,
    count: int,
    range: (int, int),
)
    requires
        0 <= count <= blocks.len(),
    ensures
        heading_ranges(blocks, level, count).contains(range) <==> exists|i: int|
            0 <= i < count && (#[trigger] blocks[i]).range == range && blocks[i].look
                == (BlockLook::Heading { level }),
    decreases count,
{
    if count > 0 {
        law_every_heading_of_a_level_is_styled(blocks, level, count - 1, range);
        let before = heading_ranges(blocks, level, count - 1);
        let after = heading_ranges(blocks, level, count);
        let last = blocks[count - 1];
        if before.contains(range) {
            let n = choose|n: int| 0 <= n < before.len() && before[n] == range;
            assert(after[n] == range);
        } else if last.look == (BlockLook::Heading { level }) && last.range == range {
            assert(after[before.len() as int] == range);
        } else if after.contains(range) {
            let n = choose|n: int| 0 <= n < after.len() && after[n] == range;
            if n < before.len() {
                assert(before[n] == range);
            }
        }
    }
}

/// Leaving ranges out leaves every other.
pub proof fn law_what_is_not_left_out_stays(
    ranges: Seq<(int, int)>,
    left_out: Seq<(int, int)>,
    count: int,
    range: (int, int),
)
    requires
        0 <= count <= ranges.len(),
    ensures
        apart_from(ranges, left_out, count).contains(range) <==> !left_out.contains(range) && exists|
            i: int,
        |
            0 <= i < count && #[trigger] ranges[i] == range,
    decreases count,
{
    if count > 0 {
        law_what_is_not_left_out_stays(ranges, left_out, count - 1, range);
        let before = apart_from(ranges, left_out, count - 1);
        let after = apart_from(ranges, left_out, count);
        if before.contains(range) {
            let n = choose|n: int| 0 <= n < before.len() && before[n] == range;
            assert(after[n] == range);
        } else if !left_out.contains(ranges[count - 1]) && ranges[count - 1] == range {
            assert(after[before.len() as int] == range);
        } else if after.contains(range) {
            let n = choose|n: int| 0 <= n < after.len() && after[n] == range;
            if n < before.len() {
                assert(before[n] == range);
            }
        }
    }
}

/// A citation is highlighted as one whose key is known or as one whose key is not, and never as both.
pub proof fn law_a_citation_is_highlighted_once(
    markers: MarkerSet,
    unresolved: Seq<(int, int)>,
    range: (int, int),
)
    requires
        spans(markers.citations@).contains(range),
    ensures
        ranges_of(markers, unresolved, UNRESOLVED as int).contains(range) == unresolved.contains(
            range,
        ),
        ranges_of(markers, unresolved, CITATION as int).contains(range) == !unresolved.contains(
            range,
        ),
{
    let all = spans(markers.citations@);
    law_what_is_not_left_out_stays(all, unresolved, all.len() as int, range);
    let i = choose|i: int| 0 <= i < all.len() && all[i] == range;
    assert(all[i] == range);
}

/// Each kind of text is highlighted by its own key.
pub proof fn law_each_kind_of_text_has_its_key(markers: MarkerSet, unresolved: Seq<(int, int)>)
    ensures
        ranges_of(markers, unresolved, STRIKE as int) == spans(markers.strikethrough@),
        ranges_of(markers, unresolved, ITALIC as int) == spans(markers.italic@),
        ranges_of(markers, unresolved, BOLD as int) == spans(markers.bold@),
        ranges_of(markers, unresolved, LINK as int) == spans(markers.link_text@),
        ranges_of(markers, unresolved, DEFINITION as int) == spans(markers.definition_ranges@),
        ranges_of(markers, unresolved, ORDERED_MARKER as int) == spans(markers.ordered_markers@),
        ranges_of(markers, unresolved, HIGHLIGHT as int) == spans(markers.highlights@),
        ranges_of(markers, unresolved, TAG as int) == spans(markers.tags@),
{
}

/// Struck text is struck, bold text bold and italic text slanted, and no other text is. What leads
/// somewhere has the accent color, what leads nowhere the color of an error, and a definition is
/// muted. What has a background is a citation, a highlight or a tag, each with its own.
pub proof fn law_each_kind_of_text_has_its_look(key: int)
    ensures
        look_of(key).struck <==> key == STRIKE,
        look_of(key).bold <==> key == BOLD,
        look_of(key).slanted == Some(true) <==> key == ITALIC,
        look_of(key).slanted == Some(false) <==> key == LINK || key == DEFINITION || key == CITATION
            || key == TAG || key == UNRESOLVED,
        look_of(key).color == Some(TextColor::Accent) <==> key == LINK || key == CITATION || key
            == TAG,
        look_of(key).color == Some(TextColor::Error) <==> key == UNRESOLVED,
        look_of(key).color == Some(TextColor::Muted) <==> key == DEFINITION,
        look_of(key).color == Some(TextColor::Text) <==> key == ITALIC || key == BOLD || key
            == ORDERED_MARKER || key == HIGHLIGHT,
        look_of(key).background == Some(Background::Reference) <==> key == CITATION || key
            == UNRESOLVED,
        look_of(key).background == Some(Background::Highlighter) <==> key == HIGHLIGHT,
        look_of(key).background == Some(Background::Tag) <==> key == TAG,
{
}

// ---------------------------------------------------------------------------------------------
// Edits
// ---------------------------------------------------------------------------------------------

/// The marker of a task is toggled where it is the one that was shown, with a small or a capital `x`,
/// and is left alone where it is anything else.
pub proof fn law_a_task_is_toggled(existing: Seq<char>)
    ensures
        existing == seq!['[', 'x', ']'] || existing == seq!['[', 'X', ']'] ==> toggled_marker(
            existing,
            true,
        ) == Some(seq!['[', ' ', ']']),
        toggled_marker(existing, true) is Some ==> existing == seq!['[', 'x', ']'] || existing
            == seq!['[', 'X', ']'],
        existing == seq!['[', ' ', ']'] ==> toggled_marker(existing, false) == Some(
            seq!['[', 'x', ']'],
        ),
        toggled_marker(existing, false) is Some ==> existing == seq!['[', ' ', ']'],
{
    reveal_strlit("[x]");
    reveal_strlit("[ ]");
    assert("[x]"@ =~= seq!['[', 'x', ']']);
    assert("[ ]"@ =~= seq!['[', ' ', ']']);
    let lower = ascii_lowercase(existing);
    if existing == seq!['[', 'x', ']'] || existing == seq!['[', 'X', ']'] {
        assert(lower =~= "[x]"@);
    }
    if existing == seq!['[', ' ', ']'] {
        assert(lower =~= "[ ]"@);
    }
    if lower == "[x]"@ {
        assert(lower[0] == ascii_lower(existing[0]));
        assert(lower[1] == ascii_lower(existing[1]));
        assert(lower[2] == ascii_lower(existing[2]));
        assert(existing[0] == '[' && existing[2] == ']');
        assert(existing[1] == 'x' || existing[1] == 'X');
        assert(existing =~= seq!['[', existing[1], ']']);
    }
    if lower == "[ ]"@ {
        assert(lower[0] == ascii_lower(existing[0]));
        assert(lower[1] == ascii_lower(existing[1]));
        assert(lower[2] == ascii_lower(existing[2]));
        assert(existing =~= seq!['[', ' ', ']']);
    }
}

proof fn lemma_index_up_to(s: Seq<char>, offset: int, i: int)
    requires
        0 <= offset,
        0 <= i <= s.len(),
    ensures
        0 <= index_up_to(s, offset, i) <= i,
        byte_offset(s, index_up_to(s, offset, i)) <= offset,
        forall|k: int| index_up_to(s, offset, i) < k <= i ==> #[trigger] byte_offset(s, k) > offset,
    decreases i,
{
    if i > 0 && byte_offset(s, i) > offset {
        lemma_index_up_to(s, offset, i - 1);
    }
}

/// A click puts the cursor on a boundary of the text, at the byte that was clicked or before it, and
/// on the last such boundary.
pub proof fn law_a_click_lands_on_a_boundary(s: Seq<char>, offset: int, i: int)
    requires
        0 <= offset,
        0 <= i <= s.len(),
    ensures
        is_boundary(s, clipped_left(s, offset)),
        0 <= clipped_left(s, offset) <= offset,
        byte_offset(s, i) <= offset ==> byte_offset(s, i) <= clipped_left(s, offset),
        byte_offset(s, i) == offset ==> clipped_left(s, offset) == offset,
{
    let n = s.len() as int;
    lemma_index_up_to(s, offset, n);
    let at = index_up_to(s, offset, n);
    lemma_index_at(s, at);
    if byte_offset(s, i) <= offset {
        if i > at {
            assert(byte_offset(s, i) > offset);
        }
        lemma_byte_offset_grows(s, i, at);
    }
}

/// Every caret that has a character to take takes it.
pub proof fn law_every_caret_deletes(
    s: Seq<char>,
    carets: Seq<(int, int)>,
    forward: bool,
    count: int,
    range: (int, int),
)
    requires
        0 <= count <= carets.len(),
    ensures
        deletions_at(s, carets, forward, count).contains(range) <==> exists|k: int|
            0 <= k < count && deletion_at(s, (#[trigger] carets[k]).0, forward) == Some(range),
    decreases count,
{
    if count > 0 {
        law_every_caret_deletes(s, carets, forward, count - 1, range);
        let before = deletions_at(s, carets, forward, count - 1);
        let after = deletions_at(s, carets, forward, count);
        if before.contains(range) {
            let n = choose|n: int| 0 <= n < before.len() && before[n] == range;
            assert(after[n] == range);
        } else if deletion_at(s, carets[count - 1].0, forward) == Some(range) {
            assert(after[before.len() as int] == range);
        } else if after.contains(range) {
            let n = choose|n: int| 0 <= n < after.len() && after[n] == range;
            if n < before.len() {
                assert(before[n] == range);
            }
        }
    }
}

/// A fold is undone where no one owns it and it lies exactly on a marker, and no other is.
pub proof fn law_a_stale_fold_lies_on_a_marker(
    folds: Seq<((int, int), bool)>,
    markers: Seq<(int, int)>,
    count: int,
    range: (int, int),
)
    requires
        0 <= count <= folds.len(),
    ensures
        stale_folds(folds, markers, count).contains(range) <==> markers.contains(range) && exists|
            k: int,
        |
            0 <= k < count && #[trigger] folds[k] == (range, false),
    decreases count,
{
    if count > 0 {
        law_a_stale_fold_lies_on_a_marker(folds, markers, count - 1, range);
        let before = stale_folds(folds, markers, count - 1);
        let after = stale_folds(folds, markers, count);
        if before.contains(range) {
            let n = choose|n: int| 0 <= n < before.len() && before[n] == range;
            assert(after[n] == range);
        } else if folds[count - 1] == (range, false) && markers.contains(range) {
            assert(after[before.len() as int] == range);
        } else if after.contains(range) {
            let n = choose|n: int| 0 <= n < after.len() && after[n] == range;
            if n < before.len() {
                assert(before[n] == range);
            }
        }
    }
}

// ---------------------------------------------------------------------------------------------
// Styles
// ---------------------------------------------------------------------------------------------

/// What a user's settings say of a heading wins, and what they do not say stays.
pub proof fn law_a_setting_wins<S, W>(
    style: MarkdownHeadingStyle<S, W>,
    content: HeadingStyleContent<S, W>,
)
    ensures
        styled(style, None) == style,
        content.font_size is Some ==> styled(style, Some(content)).font_size
            == content.font_size->0,
        content.font_size is None ==> styled(style, Some(content)).font_size == style.font_size,
        content.font_weight is Some ==> styled(style, Some(content)).font_weight
            == content.font_weight->0,
        content.font_weight is None ==> styled(style, Some(content)).font_weight
            == style.font_weight,
{
}

/// A heading is set in the style of its level, and one below the sixth like the sixth.
pub proof fn law_a_level_has_its_style<S, W>(styles: MarkdownHeadingStyles<S, W>, below: int)
    requires
        below > 6,
    ensures
        style_at(styles, 1) == styles.h1,
        style_at(styles, 2) == styles.h2,
        style_at(styles, 3) == styles.h3,
        style_at(styles, 4) == styles.h4,
        style_at(styles, 5) == styles.h5,
        style_at(styles, 6) == styles.h6,
        style_at(styles, below) == style_at(styles, 6),
{
}

/// By default each level is set a hundred lighter than the one above it. The first three levels grow
/// smaller by twenty percent each, those behind them by ten, down to ninety.
pub proof fn law_lower_headings_are_smaller(level: int)
    requires
        1 <= level <= 6,
    ensures
        default_style(level).1 == 1000 - 100 * level,
        level <= 3 ==> default_style(level).0 == 180 - 20 * level,
        level >= 3 ==> default_style(level).0 == 150 - 10 * level,
{
}

/// What was chosen for an editor wins over the setting.
pub proof fn law_an_editor_wins_over_the_setting(enabled: bool, setting: bool)
    ensures
        preview_is_on(Some(enabled), setting) == enabled,
        preview_is_on(None, setting) == setting,
{
}

// ---------------------------------------------------------------------------------------------
// Cards
// ---------------------------------------------------------------------------------------------

/// A callout shows its body, with its wikilinks as they show, unless it is collapsed or blank.
pub proof fn law_a_callout_shows_its_body(source: Seq<char>, collapsed: bool)
    ensures
        ({
            let body = displayed(join(body_lines(source), "\n"@));
            &&& collapsed || is_blank_text(body) ==> callout_shown(source, collapsed) is None
            &&& !collapsed && !is_blank_text(body) ==> callout_shown(source, collapsed) == Some(body)
        }),
{
    let body = displayed(join(body_lines(source), "\n"@));
    if is_blank_text(body) {
        let none = Seq::<char>::empty();
        assert(body =~= body + none + none);
        law_trimming_takes_the_outer_blanks(body, none, none);
    } else {
        let bounds = lemma_trim_bounds(body);
    }
}

// ---------------------------------------------------------------------------------------------
// Files that changed
// ---------------------------------------------------------------------------------------------

/// A file that changed is an image by its extension, in capital or small letters, and a note where
/// that is `md`. What the first scan comes across has not changed.
pub proof fn law_a_change_is_told_by_its_extension(change: FileChange)
    ensures
        changes_image(change) <==> change.change != PathChange::Loaded && names_image(change.path@),
        changes_note(change) <==> change.change != PathChange::Loaded && extension_of(change.path@)
            == Some(seq!['m', 'd']),
        creates_note(change) <==> changes_note(change) && (change.change == PathChange::Added
            || change.change == PathChange::AddedOrUpdated),
{
    reveal_strlit("md");
    reveal_strlit("png");
    reveal_strlit("jpg");
    reveal_strlit("jpeg");
    reveal_strlit("gif");
    reveal_strlit("webp");
    reveal_strlit("svg");
    reveal_strlit("bmp");
    assert("md"@ =~= seq!['m', 'd']);
    if extension_of(change.path@) == Some("md"@) {
        assert(ascii_lowercase("md"@).len() == 2);
    }
}

/// Every image and every note that changed is listed, by its path on disk.
pub proof fn law_every_changed_file_is_listed(changes: Seq<FileChange>, count: int, path: Seq<char>)
    requires
        0 <= count <= changes.len(),
    ensures
        changed_images(changes, count).contains(path) <==> exists|i: int|
            0 <= i < count && (#[trigger] changes[i]).absolute@ == path && changes_image(changes[i]),
        changed_notes(changes, count).contains(path) <==> exists|i: int|
            0 <= i < count && (#[trigger] changes[i]).absolute@ == path && changes_note(changes[i]),
    decreases count,
{
    if count > 0 {
        law_every_changed_file_is_listed(changes, count - 1, path);
        lemma_listed(
            changed_images(changes, count - 1),
            changed_images(changes, count),
            changes[count - 1].absolute@,
            changes_image(changes[count - 1]),
            path,
        );
        lemma_listed(
            changed_notes(changes, count - 1),
            changed_notes(changes, count),
            changes[count - 1].absolute@,
            changes_note(changes[count - 1]),
            path,
        );
    }
}

proof fn lemma_listed<T>(before: Seq<T>, after: Seq<T>, item: T, listed: bool, wanted: T)
    requires
        after == if listed {
            before.push(item)
        } else {
            before
        },
    ensures
        after.contains(wanted) <==> before.contains(wanted) || (listed && item == wanted),
{
    if before.contains(wanted) {
        let n = choose|n: int| 0 <= n < before.len() && before[n] == wanted;
        assert(after[n] == wanted);
    }
    if listed && item == wanted {
        assert(after[before.len() as int] == wanted);
    }
    if after.contains(wanted) {
        let n = choose|n: int| 0 <= n < after.len() && after[n] == wanted;
        if n < before.len() {
            assert(before[n] == wanted);
        }
    }
}

/// What does not show as it is written is a widget on screen or a heading.
pub proof fn law_widgets_and_headings_are_decorated(
    applied: Seq<Applied>,
    blocks: Seq<BlockMark>,
    range: (int, int),
)
    ensures
        decorated_spans(applied, blocks).contains(range) <==> (exists|i: int|
            0 <= i < applied.len() && (#[trigger] applied[i]).block.range == range) || (exists|
            i: int,
        |
            0 <= i < blocks.len() && (#[trigger] blocks[i]).range == range && blocks[i].look
                is Heading),
{
    let widgets = Seq::new(applied.len(), |i: int| applied[i].block.range);
    let headings = heading_spans(blocks, blocks.len() as int);
    let all = decorated_spans(applied, blocks);
    lemma_headings_listed(blocks, blocks.len() as int, range);
    if exists|i: int| 0 <= i < applied.len() && (#[trigger] applied[i]).block.range == range {
        let i = choose|i: int| 0 <= i < applied.len() && (#[trigger] applied[i]).block.range == range;
        assert(all[i] == range);
    }
    if headings.contains(range) {
        let n = choose|n: int| 0 <= n < headings.len() && headings[n] == range;
        assert(all[widgets.len() + n] == range);
    }
    if all.contains(range) {
        let n = choose|n: int| 0 <= n < all.len() && all[n] == range;
        if n < widgets.len() {
            assert(applied[n].block.range == range);
        } else {
            assert(headings[n - widgets.len()] == range);
        }
    }
}

proof fn lemma_headings_listed(blocks: Seq<BlockMark>, count: int, range: (int, int))
    requires
        0 <= count <= blocks.len(),
    ensures
        heading_spans(blocks, count).contains(range) <==> exists|i: int|
            0 <= i < count && (#[trigger] blocks[i]).range == range && blocks[i].look is Heading,
    decreases count,
{
    if count > 0 {
        lemma_headings_listed(blocks, count - 1, range);
        lemma_listed(
            heading_spans(blocks, count - 1),
            heading_spans(blocks, count),
            blocks[count - 1].range,
            blocks[count - 1].look is Heading,
            range,
        );
    }
}

} // verus!
