//! What the preview of one editor remembers, and how it answers what happens around it.

use crate::edits::{all_carets, borders, delete_adjacent_to_block, deletions_at};
use crate::heading::{is_live_preview_enabled, preview_is_on, toggle_live_preview, toggled};
use crate::image::{image_extension, is_image_extension, resize_edit, resize_image_to_width};
use crate::markers::{block_marks, BlockMark, BlockMarker, BlockRenderKind};
use crate::path::{extension, extension_of};
use crate::reconcile::{applied_views, Applied, AppliedBlock};
use crate::table_edit::TableStructuralChange;
use crate::table_widget::{deletion_of, TableWidgetState};
use crate::text::{ascii_lowercase, is_boundary, option_view, same_text, slice_at, spans, views};
use std::ops::Range;
use vstd::prelude::*;

verus! {

// ---------------------------------------------------------------------------------------------
// Events
// ---------------------------------------------------------------------------------------------

/// What happens around an editor.
#[derive(Clone, Copy, Debug, PartialEq, Eq, Structural)]
pub enum PreviewEvent {
    /// The editor has just been opened, and may be parsed already.
    Opened,
    Reparsed,
    SelectionsChanged,
    DiffHunksToggled,
    ThemeChanged,
    /// The entries behind citations are others, so that other keys are unknown.
    BibliographyChanged,
    SettingsChanged,
    PreviewToggled,
}

/// What is done about it.
#[derive(Clone, Copy, Debug, PartialEq, Eq, Structural)]
pub enum Reaction {
    /// Extract the markers anew, and apply what follows from them.
    Recompute,
    /// Conceal and draw anew, by the markers that there are.
    ApplyDecorations,
    /// Style text anew, by the markers that there are.
    ApplyHighlights,
}

/// What is done about an event.
pub fn reaction(event: PreviewEvent) -> (result: Reaction)
    ensures
        result == match event {
            PreviewEvent::SelectionsChanged => Reaction::ApplyDecorations,
            PreviewEvent::ThemeChanged | PreviewEvent::BibliographyChanged =>
                Reaction::ApplyHighlights,
            _ => Reaction::Recompute,
        },
{
    match event {
        PreviewEvent::SelectionsChanged => Reaction::ApplyDecorations,
        PreviewEvent::ThemeChanged | PreviewEvent::BibliographyChanged => Reaction::ApplyHighlights,
        _ => Reaction::Recompute,
    }
}

/// Whether an editor gets a preview: it is shown in a window and takes up a whole pane.
pub fn gets_preview(has_window: bool, is_full: bool) -> (result: bool)
    ensures
        result == (has_window && is_full),
{
    has_window && is_full
}

// ---------------------------------------------------------------------------------------------
// Files
// ---------------------------------------------------------------------------------------------

/// What happened to a file on disk.
#[derive(Clone, Copy, Debug, PartialEq, Eq, Structural)]
pub enum PathChange {
    Added,
    Removed,
    Updated,
    AddedOrUpdated,
    /// Nothing: the first scan has come across it.
    Loaded,
}

/// A change to a file of a worktree.
#[derive(Debug)]
pub struct FileChange {
    /// The slash-separated path within the worktree.
    pub path: String,
    /// The path on disk.
    pub absolute: String,
    pub change: PathChange,
}

/// The images and notes among the files that changed, by their paths on disk.
#[derive(Debug)]
pub struct ChangedFiles {
    pub images: Vec<String>,
    pub notes: Vec<String>,
    /// Whether one of the notes is, or may be, new.
    pub note_created: bool,
}

/// Whether a change is one to an image.
pub open spec fn changes_image(change: FileChange) -> bool {
    change.change != PathChange::Loaded && match extension_of(change.path@) {
        Some(extension) => image_extension(ascii_lowercase(extension)),
        None => false,
    }
}

/// Whether a change is one to a note.
pub open spec fn changes_note(change: FileChange) -> bool {
    change.change != PathChange::Loaded && extension_of(change.path@) == Some("md"@)
        && !changes_image(change)
}

/// Whether a change is one to a note that is, or may be, new.
pub open spec fn creates_note(change: FileChange) -> bool {
    changes_note(change) && (change.change == PathChange::Added || change.change
        == PathChange::AddedOrUpdated)
}

/// The paths on disk of the images among the first `count` files that changed.
pub open spec fn changed_images(changes: Seq<FileChange>, count: int) -> Seq<Seq<char>>
    decreases count,
{
    if count <= 0 {
        Seq::empty()
    } else if changes_image(changes[count - 1]) {
        changed_images(changes, count - 1).push(changes[count - 1].absolute@)
    } else {
        changed_images(changes, count - 1)
    }
}

/// The paths on disk of the notes among the first `count` files that changed.
pub open spec fn changed_notes(changes: Seq<FileChange>, count: int) -> Seq<Seq<char>>
    decreases count,
{
    if count <= 0 {
        Seq::empty()
    } else if changes_note(changes[count - 1]) {
        changed_notes(changes, count - 1).push(changes[count - 1].absolute@)
    } else {
        changed_notes(changes, count - 1)
    }
}

/// The images and notes among the files that changed. What the first scan comes across has not
/// changed.
pub fn classify_changes(changes: &Vec<FileChange>) -> (result: ChangedFiles)
    ensures
        views(result.images@) == changed_images(changes@, changes@.len() as int),
        views(result.notes@) == changed_notes(changes@, changes@.len() as int),
        result.note_created == exists|i: int|
            0 <= i < changes@.len() && creates_note(#[trigger] changes@[i]),
{
    let mut images: Vec<String> = Vec::new();
    let mut notes: Vec<String> = Vec::new();
    let mut note_created = false;
    let mut i: usize = 0;
    assert(views(images@) =~= Seq::empty());
    assert(views(notes@) =~= Seq::empty());
    while i < changes.len()
        invariant
            i <= changes@.len(),
            views(images@) == changed_images(changes@, i as int),
            views(notes@) == changed_notes(changes@, i as int),
            note_created == exists|k: int| 0 <= k < i && creates_note(#[trigger] changes@[k]),
        decreases changes@.len() - i,
    {
        let change = &changes[i];
        let ghost images_before = views(images@);
        let ghost notes_before = views(notes@);
        let loaded = change.change == PathChange::Loaded;
        if !loaded {
            if let Some(extension) = extension(change.path.as_str()) {
                if is_image_extension(extension.as_str()) {
                    images.push(change.absolute.clone());
                    assert(views(images@) =~= images_before.push(change.absolute@));
                } else if same_text(extension.as_str(), "md") {
                    if change.change == PathChange::Added || change.change
                        == PathChange::AddedOrUpdated {
                        note_created = true;
                        assert(creates_note(changes@[i as int]));
                    }
                    notes.push(change.absolute.clone());
                    assert(views(notes@) =~= notes_before.push(change.absolute@));
                }
            }
        }
        i += 1;
    }
    ChangedFiles { images, notes, note_created }
}

// ---------------------------------------------------------------------------------------------
// The preview of an editor
// ---------------------------------------------------------------------------------------------

/// For how many milliseconds behind a resize a changed selection leaves the image selected.
pub const RESIZE_GRACE: u64 = 500;

/// What a delete or a backspace does.
#[derive(Debug)]
pub enum DeleteAction {
    /// Change the table that had this byte range.
    Table(Range<usize>, TableStructuralChange),
    /// Delete these byte ranges.
    Text(Vec<Range<usize>>),
    /// What the key does anywhere else.
    Default,
}

/// What the preview of one editor remembers between events.
#[derive(Debug)]
pub struct LivePreviewAddon {
    /// What was chosen for this editor, in place of the setting.
    pub enabled_override: Option<bool>,
    /// The byte range of the selected image.
    pub selected_image: Option<Range<usize>>,
    /// The byte range of the block whose source is shown on demand.
    pub source_revealed: Option<Range<usize>>,
    /// When an image was last resized, in milliseconds.
    pub last_resize_at: Option<u64>,
    /// What the tables remember.
    pub tables: TableWidgetState,
    /// The callouts that were expanded or collapsed by hand, with whether each is collapsed.
    pub callout_collapse: Vec<(Range<usize>, bool)>,
    /// The widgets that are on screen.
    pub applied_blocks: Vec<AppliedBlock>,
}

/// Whether an image was resized so recently that the selection it caused does not count.
pub open spec fn is_resizing(last_resize_at: Option<u64>, now: u64) -> bool {
    match last_resize_at {
        Some(at) => now - at < RESIZE_GRACE,
        None => false,
    }
}

/// The byte ranges of the headings among the first `count` blocks.
pub open spec fn heading_spans(blocks: Seq<BlockMark>, count: int) -> Seq<(int, int)>
    decreases count,
{
    if count <= 0 {
        Seq::empty()
    } else if blocks[count - 1].look is Heading {
        heading_spans(blocks, count - 1).push(blocks[count - 1].range)
    } else {
        heading_spans(blocks, count - 1)
    }
}

/// The byte ranges that do not show as they are written: those of the widgets on screen, then those
/// of the headings.
pub open spec fn decorated_spans(applied: Seq<Applied>, blocks: Seq<BlockMark>) -> Seq<(int, int)> {
    Seq::new(applied.len(), |i: int| applied[i].block.range) + heading_spans(
        blocks,
        blocks.len() as int,
    )
}

/// The byte ranges that do not show as they are written: those of the widgets on screen, then those
/// of the headings.
pub fn decorated_ranges(applied: &Vec<AppliedBlock>, blocks: &Vec<BlockMarker>) -> (result: Vec<
    Range<usize>,
>)
    ensures
        spans(result@) == decorated_spans(applied_views(applied@), block_marks(blocks@)),
{
    let ghost views = applied_views(applied@);
    let ghost marks = block_marks(blocks@);
    let ghost widgets = Seq::new(views.len(), |i: int| views[i].block.range);
    let mut result: Vec<Range<usize>> = Vec::new();
    let mut i: usize = 0;
    while i < applied.len()
        invariant
            i <= applied@.len(),
            views == applied_views(applied@),
            widgets == Seq::new(views.len(), |i: int| views[i].block.range),
            spans(result@) == widgets.take(i as int),
        decreases applied@.len() - i,
    {
        let ghost before = spans(result@);
        let range = &applied[i].range;
        result.push(range.start..range.end);
        assert(views[i as int] == applied@[i as int]@);
        assert(spans(result@) =~= before.push(widgets[i as int]));
        i += 1;
        assert(widgets.take(i as int) =~= widgets.take(i - 1).push(widgets[i - 1]));
    }
    assert(widgets.take(i as int) =~= widgets);
    assert(spans(result@) =~= widgets + heading_spans(marks, 0));
    let mut k: usize = 0;
    while k < blocks.len()
        invariant
            k <= blocks@.len(),
            marks == block_marks(blocks@),
            spans(result@) == widgets + heading_spans(marks, k as int),
        decreases blocks@.len() - k,
    {
        let ghost before = spans(result@);
        let block = &blocks[k];
        assert(marks[k as int] == block@);
        if let BlockRenderKind::Heading { .. } = &block.kind {
            result.push(block.range.start..block.range.end);
            assert(spans(result@) =~= before.push(block@.range));
            assert(before.push(block@.range) =~= widgets + heading_spans(marks, k as int).push(
                block@.range,
            ));
        }
        k += 1;
    }
    result
}

impl LivePreviewAddon {
    /// A preview with nothing chosen and nothing selected.
    pub fn new() -> (result: LivePreviewAddon)
        ensures
            result.enabled_override is None,
            result.selected_image is None,
            result.source_revealed is None,
            result.last_resize_at is None,
            result.tables.selected_unit is None,
            result.tables.drag_source is None,
            result.tables.drop_boundary is None,
            result.callout_collapse@.len() == 0,
            result.applied_blocks@.len() == 0,
    {
        LivePreviewAddon {
            enabled_override: None,
            selected_image: None,
            source_revealed: None,
            last_resize_at: None,
            tables: TableWidgetState::new(),
            callout_collapse: Vec::new(),
            applied_blocks: Vec::new(),
        }
    }

    /// Whether the preview is on: what was chosen for the editor, else the setting.
    pub fn is_enabled(&self, setting: bool) -> (result: bool)
        ensures
            result == preview_is_on(self.enabled_override, setting),
    {
        is_live_preview_enabled(self.enabled_override, setting)
    }

    /// Turns the preview on where it is off, and off where it is on.
    pub fn toggle(&mut self, setting: bool)
        ensures
            *final(self) == (LivePreviewAddon {
                enabled_override: toggled(old(self).enabled_override, setting),
                ..*old(self)
            }),
    {
        self.enabled_override = toggle_live_preview(self.enabled_override, setting);
    }

    /// Deselects the image when the selection changes, unless the change came with a resize.
    pub fn selections_changed(&mut self, now: u64)
        ensures
            *final(self) == if is_resizing(old(self).last_resize_at, now) {
                *old(self)
            } else {
                LivePreviewAddon { selected_image: None, ..*old(self) }
            },
    {
        let resizing = match self.last_resize_at {
            Some(at) => now < at || now - at < RESIZE_GRACE,
            None => false,
        };
        if !resizing {
            self.selected_image = None;
        }
    }

    /// Selects the image at a byte range.
    pub fn select_image(&mut self, range: Range<usize>)
        ensures
            *final(self) == (LivePreviewAddon { selected_image: Some(range), ..*old(self) }),
    {
        self.selected_image = Some(range);
    }

    /// Whether the image at a byte range is the selected one.
    pub fn is_image_selected(&self, range: &Range<usize>) -> (result: bool)
        ensures
            result == match self.selected_image {
                Some(selected) => selected.start == range.start && selected.end == range.end,
                None => false,
            },
    {
        match &self.selected_image {
            Some(selected) => selected.start == range.start && selected.end == range.end,
            None => false,
        }
    }

    /// Shows the source of the block at a byte range. Returns where the cursor goes: to its start.
    pub fn reveal_source(&mut self, range: Range<usize>) -> (result: usize)
        ensures
            *final(self) == (LivePreviewAddon { source_revealed: Some(range), ..*old(self) }),
            result == range.start,
    {
        let start: usize = range.start;
        self.source_revealed = Some(range);
        start
    }

    /// Drags the image at a byte range to a width. Returns what replaces its source, and keeps the
    /// image selected; where nothing is to be replaced, nothing changes.
    pub fn resize_image(&mut self, text: &str, range: Range<usize>, width: u32, now: u64) -> (result:
        Option<String>)
        ensures
            option_view(result) == match slice_at(text@, range.start as int, range.end as int) {
                Some(current) if range.start < range.end => resize_edit(current, width as nat),
                _ => None,
            },
            *final(self) == if result is Some {
                LivePreviewAddon {
                    last_resize_at: Some(now),
                    selected_image: Some(range),
                    ..*old(self)
                }
            } else {
                *old(self)
            },
    {
        let updated = resize_image_to_width(text, &range, width);
        if updated.is_some() {
            self.last_resize_at = Some(now);
            self.selected_image = Some(range);
        }
        updated
    }

    /// What a delete or a backspace does: it takes the selected row or column of a table; else,
    /// beside a widget or a heading, one character at each caret; else what it does anywhere.
    pub fn delete_pressed(
        &mut self,
        text: &str,
        blocks: &Vec<BlockMarker>,
        selections: &Vec<Range<usize>>,
        forward: bool,
    ) -> (result: DeleteAction)
        requires
            forall|i: int|
                0 <= i < selections@.len() ==> is_boundary(
                    text@,
                    (#[trigger] selections@[i]).start as int,
                ),
        ensures
            final(self).tables.selected_unit is None,
            *final(self) == (LivePreviewAddon { tables: final(self).tables, ..*old(self) }),
            final(self).tables.drag_source == old(self).tables.drag_source,
            final(self).tables.drop_boundary == old(self).tables.drop_boundary,
            ({
                let carets = spans(selections@);
                let deletions = deletions_at(text@, carets, forward, carets.len() as int);
                let decorated = decorated_spans(
                    applied_views(old(self).applied_blocks@),
                    block_marks(blocks@),
                );
                match old(self).tables.selected_unit {
                    Some(selection) => result == DeleteAction::Table(
                        selection.table_range,
                        deletion_of(selection.unit),
                    ),
                    None => if all_carets(carets) && borders(deletions, decorated) {
                        result matches DeleteAction::Text(ranges) && spans(ranges@) == deletions
                    } else {
                        result is Default
                    },
                }
            }),
    {
        if let Some((table_range, change)) = self.tables.delete_selected_table_unit() {
            return DeleteAction::Table(table_range, change);
        }
        let decorated = decorated_ranges(&self.applied_blocks, blocks);
        match delete_adjacent_to_block(text, &decorated, selections, forward) {
            Some(ranges) => DeleteAction::Text(ranges),
            None => DeleteAction::Default,
        }
    }
}

} // verus!
