//! The small editors that open over a table cell or a property: when what was typed is written
//! back, and where the focus goes.

use vstd::prelude::*;

verus! {

/// What happens in an inline editor.
#[derive(Clone, Copy, Debug, PartialEq, Eq, Structural)]
pub enum InlineEvent {
    Blurred,
    Newline,
    Tab,
    Cancel,
}

/// What becomes of the text that was typed.
#[derive(Clone, Copy, Debug, PartialEq, Eq, Structural)]
pub enum TypedText {
    /// It is written back.
    Commit,
    /// It is dropped.
    Discard,
    /// Nothing: another editor has taken over.
    Leave,
}

/// Where the focus goes.
#[derive(Clone, Copy, Debug, PartialEq, Eq, Structural)]
pub enum Focus {
    /// Where it went by itself.
    Stay,
    /// To the note.
    Note,
    /// To the next cell in reading order.
    NextCell,
    /// To the value of the property whose name was just typed.
    NewValue,
}

/// What becomes of the typed text. An editor that loses the focus writes back only while it is the
/// active one: what opens the next editor has written back already, and must not have it closed.
pub open spec fn typed_text(event: InlineEvent, is_active: bool) -> TypedText {
    match event {
        InlineEvent::Cancel => TypedText::Discard,
        InlineEvent::Blurred => if is_active {
            TypedText::Commit
        } else {
            TypedText::Leave
        },
        _ => TypedText::Commit,
    }
}

fn decide_text(event: InlineEvent, is_active: bool) -> (result: TypedText)
    ensures
        result == typed_text(event, is_active),
{
    match event {
        InlineEvent::Cancel => TypedText::Discard,
        InlineEvent::Blurred => if is_active {
            TypedText::Commit
        } else {
            TypedText::Leave
        },
        _ => TypedText::Commit,
    }
}

/// What an event in a cell's editor does: tab goes on to the next cell, where there is one.
pub fn cell_event(event: InlineEvent, is_active: bool, has_next: bool) -> (result: (
    TypedText,
    Focus,
))
    ensures
        result.0 == typed_text(event, is_active),
        result.1 == match event {
            InlineEvent::Blurred => Focus::Stay,
            InlineEvent::Tab if has_next => Focus::NextCell,
            _ => Focus::Note,
        },
{
    let focus = match event {
        InlineEvent::Blurred => Focus::Stay,
        InlineEvent::Tab if has_next => Focus::NextCell,
        _ => Focus::Note,
    };
    (decide_text(event, is_active), focus)
}

/// What an event in a property's editor does: enter behind the name of a new property goes on to its
/// value. `created_key` says whether writing back has made a new property.
pub fn property_event(event: InlineEvent, is_active: bool, created_key: bool) -> (result: (
    TypedText,
    Focus,
))
    ensures
        result.0 == typed_text(event, is_active),
        result.1 == match event {
            InlineEvent::Blurred => Focus::Stay,
            InlineEvent::Newline if created_key => Focus::NewValue,
            _ => Focus::Note,
        },
{
    let focus = match event {
        InlineEvent::Blurred => Focus::Stay,
        InlineEvent::Newline if created_key => Focus::NewValue,
        _ => Focus::Note,
    };
    (decide_text(event, is_active), focus)
}

} // verus!
