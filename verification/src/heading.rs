//! How headings are set, and whether the preview is on.

use vstd::prelude::*;

verus! {

/// How large and how heavy a heading is set. The size is a multiple of the text's own.
#[derive(Clone, Copy, Debug, PartialEq)]
pub struct MarkdownHeadingStyle<S, W> {
    pub font_size: S,
    pub font_weight: W,
}

/// What a user's settings say of a heading. A size that is no positive number is left out.
#[derive(Clone, Copy, Debug, PartialEq)]
pub struct HeadingStyleContent<S, W> {
    pub font_size: Option<S>,
    pub font_weight: Option<W>,
}

/// How the six levels of headings are set.
#[derive(Clone, Copy, Debug, PartialEq)]
pub struct MarkdownHeadingStyles<S, W> {
    pub h1: MarkdownHeadingStyle<S, W>,
    pub h2: MarkdownHeadingStyle<S, W>,
    pub h3: MarkdownHeadingStyle<S, W>,
    pub h4: MarkdownHeadingStyle<S, W>,
    pub h5: MarkdownHeadingStyle<S, W>,
    pub h6: MarkdownHeadingStyle<S, W>,
}

/// What a user's settings say of the six levels.
#[derive(Clone, Copy, Debug, PartialEq)]
pub struct HeadingStylesContent<S, W> {
    pub h1: Option<HeadingStyleContent<S, W>>,
    pub h2: Option<HeadingStyleContent<S, W>>,
    pub h3: Option<HeadingStyleContent<S, W>>,
    pub h4: Option<HeadingStyleContent<S, W>>,
    pub h5: Option<HeadingStyleContent<S, W>>,
    pub h6: Option<HeadingStyleContent<S, W>>,
}

/// The preview's settings.
#[derive(Clone, Copy, Debug, PartialEq)]
pub struct MarkdownLivePreviewSettings<S, W> {
    pub enabled: bool,
    pub heading_styles: MarkdownHeadingStyles<S, W>,
}

/// A style with what the settings say in its place.
pub open spec fn styled<S, W>(
    style: MarkdownHeadingStyle<S, W>,
    content: Option<HeadingStyleContent<S, W>>,
) -> MarkdownHeadingStyle<S, W> {
    match content {
        Some(content) => MarkdownHeadingStyle {
            font_size: match content.font_size {
                Some(size) => size,
                None => style.font_size,
            },
            font_weight: match content.font_weight {
                Some(weight) => weight,
                None => style.font_weight,
            },
        },
        None => style,
    }
}

/// The style of a level; every level behind the fifth is set like the sixth.
pub open spec fn style_at<S, W>(styles: MarkdownHeadingStyles<S, W>, level: int) -> MarkdownHeadingStyle<
    S,
    W,
> {
    if level == 1 {
        styles.h1
    } else if level == 2 {
        styles.h2
    } else if level == 3 {
        styles.h3
    } else if level == 4 {
        styles.h4
    } else if level == 5 {
        styles.h5
    } else {
        styles.h6
    }
}

impl<S: Copy, W: Copy> MarkdownHeadingStyle<S, W> {
    /// The style with what the settings say in its place.
    pub fn with_content(self, content: Option<HeadingStyleContent<S, W>>) -> (result: Self)
        ensures
            result == styled(self, content),
    {
        match content {
            Some(content) => MarkdownHeadingStyle {
                font_size: match content.font_size {
                    Some(size) => size,
                    None => self.font_size,
                },
                font_weight: match content.font_weight {
                    Some(weight) => weight,
                    None => self.font_weight,
                },
            },
            None => self,
        }
    }
}

impl<S: Copy, W: Copy> MarkdownHeadingStyles<S, W> {
    /// The style of a level.
    pub fn for_level(self, level: u8) -> (result: MarkdownHeadingStyle<S, W>)
        ensures
            result == style_at(self, level as int),
    {
        match level {
            1 => self.h1,
            2 => self.h2,
            3 => self.h3,
            4 => self.h4,
            5 => self.h5,
            _ => self.h6,
        }
    }

    /// The styles with what the settings say in their place.
    pub fn with_contents(self, content: HeadingStylesContent<S, W>) -> (result: Self)
        ensures
            result.h1 == styled(self.h1, content.h1),
            result.h2 == styled(self.h2, content.h2),
            result.h3 == styled(self.h3, content.h3),
            result.h4 == styled(self.h4, content.h4),
            result.h5 == styled(self.h5, content.h5),
            result.h6 == styled(self.h6, content.h6),
    {
        MarkdownHeadingStyles {
            h1: self.h1.with_content(content.h1),
            h2: self.h2.with_content(content.h2),
            h3: self.h3.with_content(content.h3),
            h4: self.h4.with_content(content.h4),
            h5: self.h5.with_content(content.h5),
            h6: self.h6.with_content(content.h6),
        }
    }
}

impl<S: Copy, W: Copy> MarkdownLivePreviewSettings<S, W> {
    /// The settings from what a user's settings say: the preview is on unless they turn it off.
    pub fn from_settings(
        defaults: MarkdownHeadingStyles<S, W>,
        enabled: Option<bool>,
        content: HeadingStylesContent<S, W>,
    ) -> (result: Self)
        ensures
            result.enabled == (enabled != Some(false)),
            forall|level: int| #[trigger]
                style_at(result.heading_styles, level) == styled(
                    style_at(defaults, level),
                    content_at(content, level),
                ),
    {
        MarkdownLivePreviewSettings {
            enabled: match enabled {
                Some(enabled) => enabled,
                None => true,
            },
            heading_styles: defaults.with_contents(content),
        }
    }
}

/// What the settings say of a level.
pub open spec fn content_at<S, W>(content: HeadingStylesContent<S, W>, level: int) -> Option<
    HeadingStyleContent<S, W>,
> {
    if level == 1 {
        content.h1
    } else if level == 2 {
        content.h2
    } else if level == 3 {
        content.h3
    } else if level == 4 {
        content.h4
    } else if level == 5 {
        content.h5
    } else {
        content.h6
    }
}

/// The size in percent, and the weight, that a level is set in by default.
pub open spec fn default_style(level: int) -> (u32, u16) {
    if level == 1 {
        (160, 900)
    } else if level == 2 {
        (140, 800)
    } else if level == 3 {
        (120, 700)
    } else if level == 4 {
        (110, 600)
    } else if level == 5 {
        (100, 500)
    } else {
        (90, 400)
    }
}

fn style_of(font_size: u32, font_weight: u16) -> (result: MarkdownHeadingStyle<u32, u16>)
    ensures
        result.font_size == font_size,
        result.font_weight == font_weight,
{
    MarkdownHeadingStyle { font_size, font_weight }
}

impl Default for MarkdownHeadingStyles<u32, u16> {
    /// The default styles, with sizes in percent.
    fn default() -> (result: Self)
        ensures
            forall|level: int|
                (
                    (#[trigger] style_at(result, level)).font_size,
                    style_at(result, level).font_weight,
                ) == default_style(level),
    {
        MarkdownHeadingStyles {
            h1: style_of(160, 900),
            h2: style_of(140, 800),
            h3: style_of(120, 700),
            h4: style_of(110, 600),
            h5: style_of(100, 500),
            h6: style_of(90, 400),
        }
    }
}

/// Whether the preview is on in an editor: what was chosen for the editor, else the setting.
pub open spec fn preview_is_on(enabled_override: Option<bool>, setting: bool) -> bool {
    match enabled_override {
        Some(enabled) => enabled,
        None => setting,
    }
}

/// What is chosen for an editor when the preview is toggled in it: the opposite of what it is.
pub open spec fn toggled(enabled_override: Option<bool>, setting: bool) -> Option<bool> {
    Some(!preview_is_on(enabled_override, setting))
}

/// Toggling the preview twice leaves it as it was, whatever becomes of the setting meanwhile.
pub proof fn law_toggling_twice_changes_nothing(
    enabled_override: Option<bool>,
    setting: bool,
    later: bool,
    last: bool,
)
    ensures
        preview_is_on(toggled(toggled(enabled_override, setting), later), last) == preview_is_on(
            enabled_override,
            setting,
        ),
{
}

/// Whether the preview is on in an editor: what was chosen for the editor, else the setting.
pub fn is_live_preview_enabled(enabled_override: Option<bool>, setting: bool) -> (result: bool)
    ensures
        result == preview_is_on(enabled_override, setting),
{
    match enabled_override {
        Some(enabled) => enabled,
        None => setting,
    }
}

/// What is chosen for an editor when the preview is toggled in it: the opposite of what it is.
pub fn toggle_live_preview(enabled_override: Option<bool>, setting: bool) -> (result: Option<bool>)
    ensures
        result == toggled(enabled_override, setting),
{
    Some(!is_live_preview_enabled(enabled_override, setting))
}

/// Whether an editor's markers are extracted at all: the preview is on, and the text can be
/// edited.
pub fn extracts_markers(enabled_override: Option<bool>, setting: bool, read_only: bool) -> (result:
    bool)
    ensures
        result == (!read_only && preview_is_on(enabled_override, setting)),
{
    is_live_preview_enabled(enabled_override, setting) && !read_only
}

} // verus!
