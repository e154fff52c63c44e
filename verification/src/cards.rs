//! What the widgets of the preview show: headings, images, embedded notes, callouts and formulas.

use crate::callout::{body_lines, callout_body};
use crate::decorations::{atx_heading_marker_offsets, heading_offsets};
use crate::edits::MathProgress;
use crate::embed::{EmbedState, ProjectPath, StateView};
use crate::text::{
    index_at, is_boundary, join, option_view, string_of, to_chars, trim, trimmed, Text,
};
use crate::wikilink::{displayed, wikilink_display_text};
use vstd::prelude::*;

verus! {

// ---------------------------------------------------------------------------------------------
// Images
// ---------------------------------------------------------------------------------------------

/// What stands for an image.
#[derive(Clone, Copy, Debug, PartialEq, Eq, Structural)]
pub enum ImageContent {
    /// The image itself, and its alt text where it does not load.
    Image,
    /// Its alt text.
    AltText,
    /// Its markdown, rendered: the destination stands elsewhere in the note.
    Markdown,
}

/// What stands for an image, given whether it has a destination of its own and whether that leads
/// to a file or an address.
pub fn image_content(has_destination: bool, resolves: bool) -> (result: ImageContent)
    ensures
        result == if !has_destination {
            ImageContent::Markdown
        } else if resolves {
            ImageContent::Image
        } else {
            ImageContent::AltText
        },
{
    if !has_destination {
        ImageContent::Markdown
    } else if resolves {
        ImageContent::Image
    } else {
        ImageContent::AltText
    }
}

// ---------------------------------------------------------------------------------------------
// Headings
// ---------------------------------------------------------------------------------------------

/// The text of a heading's widget: its source where that is shown, else what stands behind its
/// marker.
pub open spec fn heading_shown(source: Seq<char>, level: int, shows_source: bool) -> Seq<char> {
    let start = heading_offsets(source, level).1;
    if !shows_source && is_boundary(source, start) {
        source.skip(index_at(source, start))
    } else {
        source
    }
}

/// The text of a heading's widget.
pub fn heading_text(source: &str, level: u8, shows_source: bool) -> (result: String)
    ensures
        result@ == heading_shown(source@, level as int, shows_source),
{
    if shows_source {
        return source.to_owned();
    }
    let (_, start) = atx_heading_marker_offsets(source, level);
    let text = Text::new(source);
    match text.index_of(start) {
        Some(i) => {
            let length = text.all().len();
            let content = text.part(i, length);
            assert(content@ =~= source@.skip(i as int));
            string_of(content)
        },
        None => source.to_owned(),
    }
}

// ---------------------------------------------------------------------------------------------
// Embedded notes
// ---------------------------------------------------------------------------------------------

/// What is said where no note answers to a name.
pub const MISSING_NOTE: &'static str = "No note in this project answers to that name.";

/// What is said while a note is being loaded.
pub const LOADING_NOTE: &'static str = "Loading\u{2026}";

/// What stands below the label of an embedded note.
#[derive(Debug)]
pub enum EmbedContent {
    /// The note, as markdown to render.
    Note(String),
    /// A line in its place.
    Line(&'static str),
}

/// What an [`EmbedContent`] holds.
pub enum EmbedShown {
    Note(Seq<char>),
    Line(Seq<char>),
}

impl View for EmbedContent {
    type V = EmbedShown;

    open spec fn view(&self) -> EmbedShown {
        match self {
            EmbedContent::Note(text) => EmbedShown::Note(text@),
            EmbedContent::Line(text) => EmbedShown::Line(text@),
        }
    }
}

/// The card of an embedded note.
#[derive(Debug)]
pub struct EmbedCard<'a> {
    /// The note that a click on the label opens. The label is in the accent color where there is
    /// one, since that color promises a click.
    pub opens: Option<&'a ProjectPath>,
    pub content: EmbedContent,
}

/// The card of an embedded note: the note with its wikilinks as they show, or what is said in its
/// place.
pub fn embed_card(state: &EmbedState) -> (result: EmbedCard<'_>)
    ensures
        match state@ {
            StateView::Ready { path, .. } => result.opens is Some && (result.opens->0)@ == path,
            _ => result.opens is None,
        },
        result.content@ == match state@ {
            StateView::Ready { body, .. } => EmbedShown::Note(displayed(body)),
            StateView::Missing => EmbedShown::Line(MISSING_NOTE@),
            StateView::Loading => EmbedShown::Line(LOADING_NOTE@),
        },
{
    match state {
        EmbedState::Ready { body, path } => EmbedCard {
            opens: Some(path),
            content: EmbedContent::Note(wikilink_display_text(body.as_str())),
        },
        EmbedState::Missing => EmbedCard {
            opens: None,
            content: EmbedContent::Line(MISSING_NOTE),
        },
        EmbedState::Loading => EmbedCard {
            opens: None,
            content: EmbedContent::Line(LOADING_NOTE),
        },
    }
}

// ---------------------------------------------------------------------------------------------
// Callouts
// ---------------------------------------------------------------------------------------------

/// The arrow in the title of a callout.
#[derive(Clone, Copy, Debug, PartialEq, Eq, Structural)]
pub enum Chevron {
    /// The body is hidden.
    Right,
    /// The body is shown.
    Down,
}

/// What a callout's card shows besides its title.
#[derive(Debug)]
pub struct CalloutCard {
    /// The arrow of a callout that a click on its title collapses or opens.
    pub chevron: Option<Chevron>,
    /// The body, as markdown to render.
    pub body: Option<String>,
}

/// The body that a callout shows, with its wikilinks as they show: none where it is collapsed, or
/// blank.
pub open spec fn callout_shown(source: Seq<char>, collapsed: bool) -> Option<Seq<char>> {
    let body = displayed(join(body_lines(source), "\n"@));
    if !collapsed && trim(body).len() > 0 {
        Some(body)
    } else {
        None
    }
}

/// What a callout's card shows besides its title. Only one that can be collapsed has an arrow, and a
/// body is shown where there is one and it is not collapsed.
pub fn callout_card(source: &str, collapsible: bool, collapsed: bool) -> (result: CalloutCard)
    ensures
        result.chevron == if !collapsible {
            None
        } else if collapsed {
            Some(Chevron::Right)
        } else {
            Some(Chevron::Down)
        },
        option_view(result.body) == callout_shown(source@, collapsed),
{
    let chevron = if !collapsible {
        None
    } else if collapsed {
        Some(Chevron::Right)
    } else {
        Some(Chevron::Down)
    };
    let body = wikilink_display_text(callout_body(source).as_str());
    let chars = to_chars(body.as_str());
    if !collapsed && trimmed(chars.as_slice()).len() > 0 {
        CalloutCard { chevron, body: Some(body) }
    } else {
        CalloutCard { chevron, body: None }
    }
}

// ---------------------------------------------------------------------------------------------
// Formulas
// ---------------------------------------------------------------------------------------------

/// What stands for a displayed formula.
#[derive(Clone, Copy, Debug, PartialEq, Eq, Structural)]
pub enum MathContent {
    Typeset,
    Nothing,
    Source,
}

/// What stands for a displayed formula. Where the widget stands in for the source, the source is
/// shown until it is typeset, so that no text ever disappears; below the source, nothing is.
pub fn math_content(progress: Option<MathProgress>, below: bool) -> (result: MathContent)
    ensures
        result == if progress == Some(MathProgress::Ready) {
            MathContent::Typeset
        } else if below {
            MathContent::Nothing
        } else {
            MathContent::Source
        },
{
    match progress {
        Some(MathProgress::Ready) => MathContent::Typeset,
        _ => if below {
            MathContent::Nothing
        } else {
            MathContent::Source
        },
    }
}

/// Whether a click on a displayed formula reveals its source: where the widget stands in for it.
pub fn math_reveals_source(below: bool) -> (result: bool)
    ensures
        result == !below,
{
    !below
}

} // verus!
