//! What becomes of the marks of a text: which buffers have them, which blocks are kept of them, and
//! what is told apart.

use crate::block_bounds::blocks_hold;
use crate::cards::heading_shown;
use crate::decorations::heading_offsets;
use crate::edits::content_key_of;
use crate::extract::{
    comes_before, in_order, is_previewed, lemma_in_order, lemma_in_order_holds, outermost,
    outermost_from, set_of, BufferState,
};
use crate::extraction::Marks;
use crate::frontmatter::{row_shows, EditTarget, Property, PropertyRow, PropertyValue};
use crate::inline_editor::{typed_text, InlineEvent, TypedText};
use crate::markers::{BlockMark, InlineLook, MarkerSet};
use crate::syntax::{kind_named, NodeKind};
use crate::text::{
    byte_length, byte_offset, lemma_byte_offset_grows, lemma_byte_offset_part, lemma_index_at,
    lemma_run_end, run_end, spans, white_space, CharClass,
};
use crate::widget_laws::lemma_ascii_offsets;
use vstd::prelude::*;

verus! {

// ---------------------------------------------------------------------------------------------
// Blocks
// ---------------------------------------------------------------------------------------------

proof fn lemma_kept_block(blocks: Seq<BlockMark>, k: int, end: int, g: int) -> (b: int)
    requires
        0 <= k,
        blocks_hold(blocks),
        0 <= g < outermost_from(blocks, k, end).len(),
    ensures
        k <= b < blocks.len(),
        outermost_from(blocks, k, end)[g] == blocks[b],
        blocks[b].range.0 >= end,
        forall|j: int|
            k <= j < b ==> (#[trigger] blocks[j]).range.0 < blocks[b].range.0 || blocks[j].range.1
                <= blocks[b].range.0,
    decreases blocks.len() - k,
{
    if blocks[k].range.0 < end {
        lemma_kept_block(blocks, k + 1, end, g)
    } else if g == 0 {
        k
    } else {
        lemma_kept_block(blocks, k + 1, blocks[k].range.1, g - 1)
    }
}

/// A block that is kept is one of the text's, and of those that start where it does none reaches
/// further.
pub proof fn law_the_longest_block_is_kept(blocks: Seq<BlockMark>, g: int, block: BlockMark)
    requires
        blocks_hold(blocks),
        0 <= g < outermost(blocks).len(),
        blocks.contains(block),
    ensures
        blocks.contains(outermost(blocks)[g]),
        block.range.0 == outermost(blocks)[g].range.0 ==> block.range.1
            <= outermost(blocks)[g].range.1,
{
    let sorted = in_order(blocks);
    lemma_in_order(blocks);
    lemma_in_order_holds(blocks);
    let b = lemma_kept_block(sorted, 0, 0, g);
    vstd::seq_lib::to_multiset_contains(blocks, block);
    vstd::seq_lib::to_multiset_contains(sorted, block);
    vstd::seq_lib::to_multiset_contains(blocks, sorted[b]);
    vstd::seq_lib::to_multiset_contains(sorted, sorted[b]);
    assert(sorted.contains(sorted[b]));
    let j = choose|j: int| 0 <= j < sorted.len() && sorted[j] == block;
    if block.range.0 == sorted[b].range.0 && block.range.1 > sorted[b].range.1 {
        if b < j {
            assert(!comes_before(sorted[j], sorted[b]));
        } else if j < b {
            assert(sorted[j].range.1 <= sorted[b].range.0);
            assert(sorted[b].range.0 <= sorted[b].range.1);
        }
    }
}

/// A buffer is previewed where it is one whole markdown buffer with no deleted lines in it.
pub proof fn law_a_markdown_buffer_is_previewed(state: BufferState)
    ensures
        is_previewed(state) <==> state.singleton && !state.expanded_diff_hunks && state.language
            is Some && (state.language->0)@ == seq!['M', 'a', 'r', 'k', 'd', 'o', 'w', 'n'],
{
    reveal_strlit("Markdown");
    assert("Markdown"@ =~= seq!['M', 'a', 'r', 'k', 'd', 'o', 'w', 'n']);
}

/// What was found of each kind is handed out as that kind.
pub proof fn law_each_kind_of_mark_is_handed_out(set: MarkerSet, marks: Marks, range: (int, int))
    requires
        set_of(set, marks),
    ensures
        spans(set.strikethrough@).contains(range) == marks.strikethrough.contains(range),
        spans(set.italic@).contains(range) == marks.italic.contains(range),
        spans(set.bold@).contains(range) == marks.bold.contains(range),
        spans(set.link_text@).contains(range) == marks.link_text.contains(range),
        spans(set.definition_ranges@).contains(range) == marks.definition_ranges.contains(range),
        spans(set.ordered_markers@).contains(range) == marks.ordered_markers.contains(range),
        spans(set.citations@).contains(range) == marks.citations.contains(range),
        spans(set.highlights@).contains(range) == marks.highlights.contains(range),
        spans(set.tags@).contains(range) == marks.tags.contains(range),
{
}

// ---------------------------------------------------------------------------------------------
// Looks
// ---------------------------------------------------------------------------------------------

/// A heading's widget shows its text without the marker and the blanks round it, or its source where
/// that is asked for.
pub proof fn law_a_heading_shows_without_its_marker(
    indent: Seq<char>,
    level: nat,
    gap: Seq<char>,
    title: Seq<char>,
)
    requires
        level > 0,
        forall|k: int| 0 <= k < indent.len() ==> #[trigger] indent[k] == ' ' || indent[k] == '\t',
        forall|k: int| 0 <= k < gap.len() ==> #[trigger] gap[k] == ' ' || gap[k] == '\t',
        title.len() > 0 ==> title[0] != ' ' && title[0] != '\t',
    ensures
        ({
            let source = indent + Seq::new(level, |i: int| '#') + gap + title;
            &&& heading_shown(source, level as int, false) == title
            &&& heading_shown(source, level as int, true) == source
        }),
{
    let hashes = Seq::new(level, |i: int| '#');
    let source = indent + hashes + gap + title;
    let class = CharClass::Blank;
    let n = indent.len() as int;
    let m = n + level;
    let e = m + gap.len();
    assert(source[n] == '#');
    assert forall|k: int| 0 <= k < e implies (#[trigger] source[k]) as u32 <= 0x7f by {
        if k < n {
            assert(source[k] == indent[k]);
        } else if k >= m {
            assert(source[k] == gap[k - m]);
        }
    }
    lemma_ascii_offsets(source, e);
    lemma_ascii_offsets(source, n);
    lemma_ascii_offsets(source, m);
    lemma_run_end(source, class, 0);
    assert(run_end(source, class, 0) == n) by {
        let end = run_end(source, class, 0);
        if end < n {
            assert(source[end] == indent[end]);
        } else if n < end {
            assert(class.holds(source[n]));
        }
    }
    lemma_run_end(source, class, m);
    assert(run_end(source, class, m) == e) by {
        let end = run_end(source, class, m);
        if end < e {
            assert(source[end] == gap[end - m]);
        } else if e < end {
            assert(class.holds(source[e]));
            assert(source[e] == title[0]);
        }
    }
    lemma_byte_offset_grows(source, m, source.len() as int);
    lemma_index_at(source, m);
    lemma_index_at(source, e);
    assert(byte_length(source) == byte_offset(source, source.len() as int)) by {
        lemma_byte_offset_part(source, 0, source.len() as int, source.len() as int);
        assert(source.subrange(0, source.len() as int) =~= source);
    }
    assert(heading_offsets(source, level as int).1 == e);
    assert(source.skip(e) =~= title);
}

/// Hidden syntax, a bullet, and a checkbox of either kind are told apart from each other and from
/// every footnote and formula; a box is drawn anew when it is checked.
pub proof fn law_markers_are_told_apart(
    reveal_span: (int, int),
    marker_range: (int, int),
    label: Seq<char>,
    a: u64,
    b: u64,
)
    ensures
        ({
            let hidden = content_key_of(InlineLook::Hide { reveal_span }, a);
            let bullet = content_key_of(InlineLook::Bullet, a);
            let open = content_key_of(InlineLook::Checkbox { checked: false, marker_range }, a);
            let done = content_key_of(InlineLook::Checkbox { checked: true, marker_range }, a);
            let note = content_key_of(InlineLook::Footnote { label }, b);
            &&& hidden != bullet && hidden != open && hidden != done
            &&& bullet != open && bullet != done && open != done
            &&& note != hidden && note != bullet && note != open && note != done
        }),
        a < b <= u64::MAX - 4 ==> content_key_of(InlineLook::Footnote { label }, a)
            != content_key_of(InlineLook::Footnote { label }, b),
{
}

/// What was typed is written back, unless it is cancelled. An editor that loses the focus writes back
/// while it is the active one.
pub proof fn law_typed_text_is_written_back(event: InlineEvent, is_active: bool)
    ensures
        typed_text(InlineEvent::Cancel, is_active) == TypedText::Discard,
        typed_text(InlineEvent::Newline, is_active) == TypedText::Commit,
        typed_text(InlineEvent::Tab, is_active) == TypedText::Commit,
        typed_text(InlineEvent::Blurred, true) == TypedText::Commit,
        typed_text(InlineEvent::Blurred, false) == TypedText::Leave,
{
}

/// A property that is being edited shows its editor. Any other shows a list as pills, `true` and
/// `false` as a checkbox that toggles between them, and any other text as text.
pub proof fn law_a_property_shows_by_its_value(
    property: Property,
    target: Option<EditTarget>,
    row: PropertyRow,
)
    requires
        row_shows(property, target, row),
    ensures
        target == Some(EditTarget::Value { key: property.key }) <==> row is Editor,
        row !is Editor ==> (property.value is List <==> row is Pills),
        row !is Editor ==> (property.value matches PropertyValue::Scalar(text) ==> (text == "true"@
            || text == "false"@ <==> row is Checkbox)),
        row !is Editor ==> (property.value matches PropertyValue::Scalar(text) ==> (text.len() == 0
            <==> row is Empty)),
        row matches PropertyRow::Checkbox { checked, toggled } ==> property.value
            == PropertyValue::Scalar(
            if checked {
                "true"@
            } else {
                "false"@
            },
        ) && toggled@ == if checked {
            "false"@
        } else {
            "true"@
        },
{
    reveal_strlit("true");
    reveal_strlit("false");
}

// ---------------------------------------------------------------------------------------------
// Characters and kinds
// ---------------------------------------------------------------------------------------------

/// White space is what Unicode says it is.
pub proof fn law_white_space_is_listed(c: char)
    ensures
        white_space(c) <==> {
            let n = c as u32;
            ||| n == 0x9 || n == 0xa || n == 0xb || n == 0xc || n == 0xd || n == 0x20
            ||| n == 0x85 || n == 0xa0 || n == 0x1680
            ||| 0x2000 <= n <= 0x200a
            ||| n == 0x2028 || n == 0x2029 || n == 0x202f || n == 0x205f || n == 0x3000
        },
{
}

/// A node of a kind bears the name of that kind.
pub proof fn law_a_kind_goes_by_its_name(name: Seq<char>)
    ensures
        kind_named(name) == NodeKind::AtxHeading ==> name == "atx_heading"@,
        kind_named(name) == NodeKind::SetextHeading ==> name == "setext_heading"@,
        kind_named(name) == NodeKind::ThematicBreak ==> name == "thematic_break"@,
        kind_named(name) == NodeKind::PipeTable ==> name == "pipe_table"@,
        kind_named(name) == NodeKind::FencedCodeBlock ==> name == "fenced_code_block"@,
        kind_named(name) == NodeKind::MinusMetadata ==> name == "minus_metadata"@,
        kind_named(name) == NodeKind::PlusMetadata ==> name == "plus_metadata"@,
        kind_named(name) == NodeKind::HtmlBlock ==> name == "html_block"@,
        kind_named(name) == NodeKind::BlockQuote ==> name == "block_quote"@,
        kind_named(name) == NodeKind::LinkReferenceDefinition ==> name
            == "link_reference_definition"@,
        kind_named(name) == NodeKind::ListItem ==> name == "list_item"@,
        kind_named(name) == NodeKind::Inline ==> name == "inline"@,
        kind_named(name) == NodeKind::TaskListMarkerChecked ==> name == "task_list_marker_checked"@,
        kind_named(name) == NodeKind::TaskListMarkerUnchecked ==> name
            == "task_list_marker_unchecked"@,
        kind_named(name) == NodeKind::Emphasis ==> name == "emphasis"@,
        kind_named(name) == NodeKind::StrongEmphasis ==> name == "strong_emphasis"@,
        kind_named(name) == NodeKind::Strikethrough ==> name == "strikethrough"@,
        kind_named(name) == NodeKind::CodeSpan ==> name == "code_span"@,
        kind_named(name) == NodeKind::Image ==> name == "image"@,
        kind_named(name) == NodeKind::LatexBlock ==> name == "latex_block"@,
{
}

} // verus!
