//! Small edits and decisions of the preview: task markers, deletions beside widgets, where a click
//! in a widget puts the cursor, and what stands for concealed syntax.

use crate::decorations::meet;
use crate::markers::{InlineKind, InlineLook, MathStyle};
use crate::text::{
    ascii_lowercase, byte_offset, index_at, is_boundary, lemma_byte_offset_grows, lemma_index_at,
    slice_at, spans, spells, to_ascii_lowercase, Text,
};
use std::ops::Range;
use vstd::prelude::*;

verus! {

// ---------------------------------------------------------------------------------------------
// Tasks
// ---------------------------------------------------------------------------------------------

/// What replaces the marker of a task when it is toggled: the other marker, where the text still
/// holds the expected one, in capital or small letters.
pub open spec fn toggled_marker(existing: Seq<char>, checked: bool) -> Option<Seq<char>> {
    if checked && ascii_lowercase(existing) == "[x]"@ {
        Some("[ ]"@)
    } else if !checked && ascii_lowercase(existing) == "[ ]"@ {
        Some("[x]"@)
    } else {
        None
    }
}

/// What replaces a task's marker when its checkbox is clicked. `None` where the text no longer
/// holds the marker that the checkbox showed.
pub fn toggle_task_marker(text: &str, marker_range: &Range<usize>, currently_checked: bool) -> (
    result: Option<&'static str>)
    ensures
        match slice_at(text@, marker_range.start as int, marker_range.end as int) {
            Some(existing) => match toggled_marker(existing, currently_checked) {
                Some(new) => result is Some && result->0@ == new,
                None => result is None,
            },
            None => result is None,
        },
{
    if marker_range.start > marker_range.end {
        return None;
    }
    let text = Text::new(text);
    let (start, end) = match (text.index_of(marker_range.start), text.index_of(marker_range.end)) {
        (Some(start), Some(end)) => (start, end),
        _ => {
            return None;
        },
    };
    proof {
        if end < start {
            lemma_byte_offset_grows(text@, end as int, start as int);
        }
    }
    let existing = to_ascii_lowercase(text.part(start, end));
    if currently_checked {
        if spells(existing.as_slice(), "[x]") {
            Some("[ ]")
        } else {
            None
        }
    } else {
        if spells(existing.as_slice(), "[ ]") {
            Some("[x]")
        } else {
            None
        }
    }
}

/// A task that was toggled can be toggled back.
pub proof fn law_a_toggled_task_toggles_back(existing: Seq<char>, checked: bool)
    requires
        toggled_marker(existing, checked) is Some,
    ensures
        toggled_marker(toggled_marker(existing, checked)->0, !checked) == Some(
            if checked {
                "[x]"@
            } else {
                "[ ]"@
            },
        ),
{
    reveal_strlit("[x]");
    reveal_strlit("[ ]");
    assert(ascii_lowercase("[x]"@) =~= "[x]"@);
    assert(ascii_lowercase("[ ]"@) =~= "[ ]"@);
}

// ---------------------------------------------------------------------------------------------
// Clicks
// ---------------------------------------------------------------------------------------------

/// The last index up to `i` whose byte offset is at most `offset`.
pub open spec fn index_up_to(s: Seq<char>, offset: int, i: int) -> int
    decreases i,
{
    if i <= 0 || byte_offset(s, i) <= offset {
        i
    } else {
        index_up_to(s, offset, i - 1)
    }
}

/// The nearest boundary at or before a byte offset.
pub open spec fn clipped_left(s: Seq<char>, offset: int) -> int {
    byte_offset(s, index_up_to(s, offset, s.len() as int)) as int
}

/// Where a click at `source_index` of a widget's markdown puts the cursor: that far behind the
/// block's start, but no further than its end, since what is drawn may carry definitions behind
/// the block's own text.
pub fn reveal_at_source_index(text: &str, block: &Range<usize>, source_index: usize) -> (result:
    usize)
    ensures
        result == clipped_left(
            text@,
            if block.start + source_index < block.end {
                block.start + source_index
            } else {
                block.end as int
            },
        ),
{
    let offset: usize = if block.start < block.end && source_index < block.end - block.start {
        block.start + source_index
    } else {
        block.end
    };
    let text = Text::new(text);
    let mut i: usize = text.len();
    while i > 0 && text.offset(i) > offset
        invariant
            text.wf(),
            i <= text@.len(),
            index_up_to(text@, offset as int, text@.len() as int) == index_up_to(
                text@,
                offset as int,
                i as int,
            ),
        decreases i,
    {
        i -= 1;
    }
    text.offset(i)
}

// ---------------------------------------------------------------------------------------------
// Deletions
// ---------------------------------------------------------------------------------------------

/// The byte range of the character behind a caret, or before it. There is none at the end of the
/// text, or at its start.
pub open spec fn deletion_at(s: Seq<char>, caret: int, forward: bool) -> Option<(int, int)> {
    let i = index_at(s, caret);
    if forward {
        if i < s.len() {
            Some((caret, byte_offset(s, i + 1) as int))
        } else {
            None
        }
    } else if i > 0 {
        Some((byte_offset(s, i - 1) as int, caret))
    } else {
        None
    }
}

/// The deletions at the first `count` carets.
pub open spec fn deletions_at(s: Seq<char>, carets: Seq<(int, int)>, forward: bool, count: int) -> Seq<
    (int, int),
>
    decreases count,
{
    if count <= 0 {
        Seq::empty()
    } else {
        match deletion_at(s, carets[count - 1].0, forward) {
            Some(deletion) => deletions_at(s, carets, forward, count - 1).push(deletion),
            None => deletions_at(s, carets, forward, count - 1),
        }
    }
}

/// Whether one of the deletions borders one of the decorated ranges.
pub open spec fn borders(deletions: Seq<(int, int)>, decorated: Seq<(int, int)>) -> bool {
    exists|i: int, j: int|
        0 <= i < deletions.len() && 0 <= j < decorated.len() && meet(
            #[trigger] deletions[i],
            #[trigger] decorated[j],
        )
}

/// Whether every selection is a caret.
pub open spec fn all_carets(selections: Seq<(int, int)>) -> bool {
    forall|i: int| 0 <= i < selections.len() ==> (#[trigger] selections[i]).0 == selections[i].1
}

fn borders_any(start: usize, end: usize, decorated: &Vec<Range<usize>>) -> (result: bool)
    ensures
        result == exists|j: int|
            0 <= j < decorated@.len() && meet(
                (start as int, end as int),
                #[trigger] spans(decorated@)[j],
            ),
{
    let mut j: usize = 0;
    while j < decorated.len()
        invariant
            j <= decorated@.len(),
            forall|k: int|
                0 <= k < j ==> !meet((start as int, end as int), #[trigger] spans(decorated@)[k]),
        decreases decorated@.len() - j,
    {
        if start <= decorated[j].end && decorated[j].start <= end {
            assert(meet((start as int, end as int), spans(decorated@)[j as int]));
            return true;
        }
        j += 1;
    }
    false
}

/// What a delete or a backspace removes where it borders a decorated range (a widget, or a styled
/// heading): one character at each caret, in text rather than on screen, where the widget's whole
/// source would go with it. `None` where the key is to be handled as anywhere else.
pub fn delete_adjacent_to_block(
    text: &str,
    decorated: &Vec<Range<usize>>,
    selections: &Vec<Range<usize>>,
    forward: bool,
) -> (result: Option<Vec<Range<usize>>>)
    requires
        forall|i: int|
            0 <= i < selections@.len() ==> is_boundary(
                text@,
                (#[trigger] selections@[i]).start as int,
            ),
    ensures
        ({
            let carets = spans(selections@);
            let deletions = deletions_at(text@, carets, forward, carets.len() as int);
            match result {
                Some(ranges) => all_carets(carets) && borders(deletions, spans(decorated@))
                    && spans(ranges@) == deletions,
                None => !(all_carets(carets) && borders(deletions, spans(decorated@))),
            }
        }),
{
    let text = Text::new(text);
    let ghost carets = spans(selections@);
    let mut i: usize = 0;
    while i < selections.len()
        invariant
            i <= selections@.len(),
            carets == spans(selections@),
            forall|k: int| 0 <= k < i ==> (#[trigger] carets[k]).0 == carets[k].1,
        decreases selections@.len() - i,
    {
        assert(carets[i as int] == (
            selections@[i as int].start as int,
            selections@[i as int].end as int,
        ));
        if selections[i].start != selections[i].end {
            assert(carets[i as int].0 != carets[i as int].1);
            return None;
        }
        i += 1;
    }
    assert(all_carets(carets));
    let mut deletions: Vec<Range<usize>> = Vec::new();
    let mut bordering = false;
    let mut i: usize = 0;
    while i < selections.len()
        invariant
            text.wf(),
            i <= selections@.len(),
            carets == spans(selections@),
            forall|k: int|
                0 <= k < selections@.len() ==> is_boundary(
                    text@,
                    (#[trigger] selections@[k]).start as int,
                ),
            spans(deletions@) == deletions_at(text@, carets, forward, i as int),
            bordering == borders(spans(deletions@), spans(decorated@)),
        decreases selections@.len() - i,
    {
        let caret = selections[i].start;
        assert(is_boundary(text@, selections@[i as int].start as int));
        assert(carets[i as int].0 == caret);
        let index: usize = match text.index_of(caret) {
            Some(index) => index,
            None => 0,
        };
        let deletion: Option<(usize, usize)> = if forward {
            if index < text.len() {
                Some((caret, text.offset(index + 1)))
            } else {
                None
            }
        } else if index > 0 {
            Some((text.offset(index - 1), caret))
        } else {
            None
        };
        match deletion {
            Some((start, end)) => {
                let ghost before = spans(deletions@);
                deletions.push(start..end);
                let ghost after = spans(deletions@);
                assert(after =~= before.push((start as int, end as int)));
                let here = borders_any(start, end, decorated);
                proof {
                    let d = spans(decorated@);
                    if borders(before, d) {
                        let (a, b) = choose|a: int, b: int|
                            0 <= a < before.len() && 0 <= b < d.len() && meet(
                                #[trigger] before[a],
                                #[trigger] d[b],
                            );
                        assert(after[a] == before[a]);
                        assert(meet(after[a], d[b]));
                    }
                    if here {
                        let b = choose|b: int|
                            0 <= b < decorated@.len() && meet(
                                (start as int, end as int),
                                #[trigger] d[b],
                            );
                        assert(after[before.len() as int] == (start as int, end as int));
                        assert(meet(after[before.len() as int], d[b]));
                    }
                    if borders(after, d) {
                        let (a, b) = choose|a: int, b: int|
                            0 <= a < after.len() && 0 <= b < d.len() && meet(
                                #[trigger] after[a],
                                #[trigger] d[b],
                            );
                        if a < before.len() {
                            assert(before[a] == after[a]);
                        }
                    }
                }
                bordering = bordering || here;
            },
            None => {},
        }
        i += 1;
    }
    if bordering {
        Some(deletions)
    } else {
        None
    }
}

/// A deletion beside a widget takes exactly one character at its caret.
pub proof fn law_a_deletion_takes_one_character(s: Seq<char>, caret: int, forward: bool)
    requires
        is_boundary(s, caret),
        deletion_at(s, caret, forward) is Some,
    ensures
        ({
            let range = deletion_at(s, caret, forward)->0;
            &&& slice_at(s, range.0, range.1) is Some
            &&& slice_at(s, range.0, range.1)->0.len() == 1
            &&& if forward {
                range.0 == caret
            } else {
                range.1 == caret
            }
        }),
{
    let i = index_at(s, caret);
    if forward {
        lemma_index_at(s, i + 1);
        lemma_byte_offset_grows(s, i, i + 1);
    } else {
        lemma_index_at(s, i - 1);
        lemma_byte_offset_grows(s, i - 1, i);
    }
}

// ---------------------------------------------------------------------------------------------
// Folds
// ---------------------------------------------------------------------------------------------

/// The folds, among the first `count`, that no one owns and that lie exactly on a marker.
pub open spec fn stale_folds(
    folds: Seq<((int, int), bool)>,
    markers: Seq<(int, int)>,
    count: int,
) -> Seq<(int, int)>
    decreases count,
{
    if count <= 0 {
        Seq::empty()
    } else {
        let (range, owned) = folds[count - 1];
        if !owned && markers.contains(range) {
            stale_folds(folds, markers, count - 1).push(range)
        } else {
            stale_folds(folds, markers, count - 1)
        }
    }
}

/// Folds as specification values.
pub open spec fn fold_views(folds: Seq<(Range<usize>, bool)>) -> Seq<((int, int), bool)> {
    Seq::new(
        folds.len(),
        |k: int| ((folds[k].0.start as int, folds[k].0.end as int), folds[k].1),
    )
}

/// The folds to undo that an old session saved for concealments: those that no one owns and that
/// lie exactly on a marker. Each fold comes with whether it has an owner.
pub fn stale_restored_folds(folds: &Vec<(Range<usize>, bool)>, markers: &Vec<Range<usize>>) -> (
    result: Vec<Range<usize>>)
    ensures
        spans(result@) == stale_folds(
            fold_views(folds@),
            spans(markers@),
            folds@.len() as int,
        ),
{
    let ghost all = fold_views(folds@);
    let ghost marks = spans(markers@);
    let mut result: Vec<Range<usize>> = Vec::new();
    let mut i: usize = 0;
    while i < folds.len()
        invariant
            i <= folds@.len(),
            all == fold_views(folds@),
            marks == spans(markers@),
            spans(result@) == stale_folds(all, marks, i as int),
        decreases folds@.len() - i,
    {
        let (start, end, owned) = (folds[i].0.start, folds[i].0.end, folds[i].1);
        let ghost before = spans(result@);
        assert(all[i as int] == ((start as int, end as int), owned));
        if !owned && holds_range(markers, start, end) {
            result.push(start..end);
            assert(spans(result@) =~= before.push((start as int, end as int)));
        }
        i += 1;
    }
    result
}

fn holds_range(ranges: &Vec<Range<usize>>, start: usize, end: usize) -> (result: bool)
    ensures
        result == spans(ranges@).contains((start as int, end as int)),
{
    let mut i: usize = 0;
    while i < ranges.len()
        invariant
            i <= ranges@.len(),
            forall|k: int|
                0 <= k < i ==> #[trigger] spans(ranges@)[k] != (start as int, end as int),
        decreases ranges@.len() - i,
    {
        if ranges[i].start == start && ranges[i].end == end {
            assert(spans(ranges@)[i as int] == (start as int, end as int));
            return true;
        }
        i += 1;
    }
    false
}

// ---------------------------------------------------------------------------------------------
// Placeholders
// ---------------------------------------------------------------------------------------------

/// The text a concealed marker collapses to: hidden syntax to nothing, any other to what the
/// editor puts in its place.
pub fn collapsed_text(kind: &InlineKind) -> (result: Option<&'static str>)
    ensures
        match kind@ {
            InlineLook::Hide { .. } => result is Some && result->0@ == ""@,
            _ => result is None,
        },
{
    match kind {
        InlineKind::Hide { .. } => Some(""),
        _ => None,
    }
}

/// How far the typesetting of a formula has come.
#[derive(Clone, Copy, Debug, PartialEq, Eq, Structural)]
pub enum MathProgress {
    Pending,
    Ready,
    Failed,
}

/// Whether a formula shows typeset rather than as its source: only once that is done, so that a
/// formula that does not parse keeps showing what there is to mend.
pub fn shows_typeset(progress: Option<MathProgress>) -> (result: bool)
    ensures
        result == (progress == Some(MathProgress::Ready)),
{
    match progress {
        Some(MathProgress::Ready) => true,
        _ => false,
    }
}

/// Whether a formula has to be typeset: only where that was not asked for before.
pub fn needs_typesetting(progress: Option<MathProgress>) -> (result: bool)
    ensures
        result == (progress is None),
{
    progress.is_none()
}

/// The hash of a footnote's label, by `rustc_hash::FxHasher`. What it comes to depends on the
/// machine's word size, so nothing is said of it.
#[verifier::external_body]
fn hash_label(label: &str) -> (hash: u64) {
    let mut hasher = rustc_hash::FxHasher::default();
    std::hash::Hash::hash(label, &mut hasher);
    std::hash::Hasher::finish(&hasher)
}

/// The hash of a formula's source and style, by `rustc_hash::FxHasher`. What it comes to depends
/// on the machine's word size, so nothing is said of it.
#[verifier::external_body]
fn hash_formula(source: &str, style: MathStyle) -> (hash: u64) {
    let mut hasher = rustc_hash::FxHasher::default();
    std::hash::Hash::hash(source, &mut hasher);
    std::hash::Hash::hash(&style, &mut hasher);
    std::hash::Hasher::finish(&hasher)
}

/// The key that tells whether a placeholder still draws its marker, where `hash` is that of what a
/// label or a formula holds. That of a footnote or a formula is none of those below 4, which the
/// other markers have.
pub open spec fn content_key_of(look: InlineLook, hash: u64) -> u64 {
    match look {
        InlineLook::Hide { .. } => 0,
        InlineLook::Bullet => 1,
        InlineLook::Checkbox { checked, .. } => if checked {
            3
        } else {
            2
        },
        InlineLook::Footnote { .. } | InlineLook::Math { .. } => if 4 + hash <= u64::MAX {
            (4 + hash) as u64
        } else {
            hash
        },
    }
}

/// The key of a marker whose label or formula has this hash.
pub fn content_key(kind: &InlineKind, hash: u64) -> (result: u64)
    ensures
        result == content_key_of(kind@, hash),
        (kind@ is Footnote || kind@ is Math) == (result >= 4),
{
    match kind {
        InlineKind::Hide { .. } => 0,
        InlineKind::Bullet => 1,
        InlineKind::Checkbox { checked, .. } => if *checked {
            3
        } else {
            2
        },
        InlineKind::Footnote { .. } | InlineKind::Math { .. } => if hash <= u64::MAX - 4 {
            hash + 4
        } else {
            hash
        },
    }
}

/// What of a marker goes into its hash.
#[derive(Debug)]
pub enum Hashed<'a> {
    Nothing,
    Label(&'a str),
    Formula(&'a str, MathStyle),
}

/// What of a marker goes into its hash: a footnote's label, a formula's source and style, and
/// nothing of any other.
pub fn hashed_content<'a>(kind: &'a InlineKind) -> (result: Hashed<'a>)
    ensures
        match kind@ {
            InlineLook::Footnote { label } => (result matches Hashed::Label(text) && text@
                == label),
            InlineLook::Math { source, style } => (result matches Hashed::Formula(text, own)
                && text@ == source && own == style),
            _ => result is Nothing,
        },
{
    match kind {
        InlineKind::Footnote { label } => Hashed::Label(label.as_str()),
        InlineKind::Math { source, style } => Hashed::Formula(source.as_str(), *style),
        _ => Hashed::Nothing,
    }
}

/// The key that tells whether a placeholder still draws its marker. What the hash in it comes to
/// depends on the machine's word size, so only what holds of every hash is said.
pub fn marker_content_key(kind: &InlineKind) -> (result: u64)
    ensures
        exists|hash: u64| result == #[trigger] content_key_of(kind@, hash),
        (kind@ is Footnote || kind@ is Math) == (result >= 4),
{
    let hash: u64 = match hashed_content(kind) {
        Hashed::Label(label) => hash_label(label),
        Hashed::Formula(source, style) => hash_formula(source, style),
        Hashed::Nothing => 0,
    };
    content_key(kind, hash)
}

} // verus!
