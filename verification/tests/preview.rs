use std::ops::Range;
use suzuri::addon::LivePreviewAddon;
use suzuri::cards::heading_text;
use suzuri::decorations::{
    atx_heading_marker_offsets, conceal_headings, conceal_inline, desired_blocks, is_touched,
    keep_revealed, placement, rows_intersect, selection_offset_ranges, selection_row_ranges,
    BlockPlacement, DesiredBlock,
};
use suzuri::document::Document;
use suzuri::edits::{
    collapsed_text, content_key, delete_adjacent_to_block, hashed_content, marker_content_key, needs_typesetting,
    reveal_at_source_index, shows_typeset, stale_restored_folds, toggle_task_marker, MathProgress,
    Hashed,
};
use suzuri::embed::EmbedState;
use suzuri::heading::{
    extracts_markers, is_live_preview_enabled, toggle_live_preview, HeadingStyleContent,
    HeadingStylesContent, MarkdownHeadingStyles, MarkdownLivePreviewSettings,
};
use suzuri::highlights::{
    emphasis_highlights, heading_key, heading_line_ranges, highlight_look, Background, TextColor,
    BOLD, CITATION, ITALIC, STRIKE, TAG, UNRESOLVED,
};
use suzuri::markers::{
    BlockMarker, BlockRenderKind, InlineKind, InlineMarker, MarkerSet, MathStyle,
};
use suzuri::reconcile::{reconcile, AppliedBlock};

fn hiding(range: Range<usize>, reveal_span: Range<usize>) -> InlineMarker {
    InlineMarker { range, kind: InlineKind::Hide { reveal_span } }
}

fn block(range: Range<usize>, kind: BlockRenderKind) -> BlockMarker {
    BlockMarker { range, height_estimate: 1, kind, indent_columns: 0 }
}

fn rule(range: Range<usize>) -> BlockMarker {
    block(range, BlockRenderKind::Rule)
}

fn empty_set() -> MarkerSet {
    MarkerSet {
        inline: vec![],
        blocks: vec![],
        strikethrough: vec![],
        italic: vec![],
        bold: vec![],
        link_text: vec![],
        definitions: String::new(),
        definition_ranges: vec![],
        ordered_markers: vec![],
        citations: vec![],
        highlights: vec![],
        tags: vec![],
    }
}

#[test]
fn a_pending_selection_counts() {
    assert_eq!(selection_offset_ranges(&vec![1..2], &Some(5..5)), vec![1..2, 5..5]);
    assert_eq!(selection_offset_ranges(&vec![1..2], &None), vec![1..2]);
    let document = Document::new("ab\ncd\nef");
    assert_eq!(selection_row_ranges(&document, &vec![1..4, 8..8]), vec![0..1, 2..2]);
    assert!(rows_intersect(&vec![1..2], 2, 5));
    assert!(!rows_intersect(&vec![1..2], 3, 5));
    assert!(is_touched(&vec![3..3], 3, 5));
    assert!(is_touched(&vec![5..5], 3, 5));
    assert!(!is_touched(&vec![6..6], 3, 5));
}

#[test]
fn syntax_shows_where_the_selection_touches_it() {
    let markers = vec![hiding(0..2, 0..8), hiding(6..8, 0..8), hiding(20..20, 20..30), hiding(21..22, 20..30)];
    assert_eq!(conceal_inline(&markers, &vec![10..10]), vec![0, 1, 3]);
    assert_eq!(conceal_inline(&markers, &vec![4..4]), vec![3]);
    assert!(conceal_inline(&markers, &vec![0..30]).is_empty());
}

#[test]
fn a_heading_marker_is_concealed_with_its_blanks() {
    assert_eq!(atx_heading_marker_offsets("##  Title", 2), (2, 4));
    assert_eq!(atx_heading_marker_offsets("  # x", 1), (3, 4));
    assert_eq!(atx_heading_marker_offsets("#", 3), (1, 1));
    let text = "# A\ntext\n";
    let document = Document::new(text);
    let blocks = vec![block(0..3, BlockRenderKind::Heading { level: 1 }), rule(4..8)];
    assert_eq!(conceal_headings(&document, &blocks, &vec![6..6], false), vec![(0, 0..2)]);
    assert!(conceal_headings(&document, &blocks, &vec![1..1], false).is_empty());
    // A match that a search jumped to stays styled.
    assert_eq!(conceal_headings(&document, &blocks, &vec![1..1], true), vec![(0, 0..2)]);
}

#[test]
fn the_selection_brings_back_most_sources() {
    let text = "---\n\n$$x$$\n\n![a](b)\n\n> q\n";
    let document = Document::new(text);
    let math = BlockRenderKind::Math { source: "x".to_string() };
    let image = BlockRenderKind::Image {
        display_width: None,
        destination: Some("b".to_string()),
        alt: "a".to_string(),
    };
    let blocks = vec![
        rule(0..3),
        block(5..10, math),
        block(12..19, image),
        block(21..24, BlockRenderKind::Markdown),
    ];
    let wanted = |rows: Vec<Range<u32>>, revealed: Option<Range<usize>>| {
        desired_blocks(&document, &blocks, "[d]: x", &rows, &revealed, &vec![])
            .into_iter()
            .map(|desired| (desired.marker, desired.below))
            .collect::<Vec<(usize, bool)>>()
    };
    let everywhere = vec![0..6];
    assert_eq!(wanted(vec![1..1], None), [(0, false), (1, false), (2, false), (3, false)]);
    // A formula moves below its source; a widget with controls of its own stays.
    assert_eq!(wanted(everywhere.clone(), None), [(1, true), (2, false)]);
    assert_eq!(wanted(everywhere, Some(12..19)), [(1, true)]);
    let drawn = desired_blocks(&document, &blocks, "[d]: x", &vec![1..1], &None, &vec![]);
    assert_eq!(drawn[0].source, "---");
    assert_eq!(drawn[3].source, "> q\n\n[d]: x");
}

#[test]
fn a_heading_keeps_its_widget() {
    let document = Document::new("# A\n\ntext\n");
    let blocks = vec![
        block(0..3, BlockRenderKind::Heading { level: 1 }),
        block(4..4, BlockRenderKind::Heading { level: 1 }),
    ];
    let wanted = |rows: Vec<Range<u32>>, revealed: Option<Range<usize>>| {
        desired_blocks(&document, &blocks, "[d]: x", &rows, &revealed, &vec![])
            .into_iter()
            .map(|desired| (desired.marker, desired.source, desired.below, desired.shows_source))
            .collect::<Vec<(usize, String, bool, bool)>>()
    };
    // The selection only has the widget show the source; a blank heading has none.
    assert_eq!(wanted(vec![2..2], None), [(0, "# A".to_string(), false, false)]);
    assert_eq!(wanted(vec![0..0], None), [(0, "# A".to_string(), false, true)]);
    assert_eq!(wanted(vec![0..0], Some(0..3)), [(0, "# A".to_string(), false, true)]);
    assert_eq!(heading_text("##  B #", 2, false), "B #");
    assert_eq!(heading_text("##  B #", 2, true), "##  B #");
    // A widget that shows the source does not serve where the heading is wanted without it.
    let screen = vec![AppliedBlock {
        range: 0..3,
        source: "# A".to_string(),
        kind: BlockRenderKind::Heading { level: 1 },
        height_estimate: blocks[0].height_estimate,
        indent_columns: blocks[0].indent_columns,
        below: false,
        collapsed: false,
        shows_source: true,
        block_id: 7,
    }];
    let plan = |rows: Vec<Range<u32>>| {
        let desired = desired_blocks(&document, &blocks, "", &rows, &None, &vec![]);
        reconcile(&screen, &vec![true], &desired, &blocks)
    };
    assert_eq!(plan(vec![0..0]).kept, vec![0]);
    assert_eq!(plan(vec![2..2]).removed, vec![7]);
}

#[test]
fn a_revealed_source_hides_when_the_cursor_leaves() {
    let document = Document::new("a\nb\nc");
    assert_eq!(keep_revealed(&document, &Some(2..3), &vec![1..1]), Some(2..3));
    assert_eq!(keep_revealed(&document, &Some(2..3), &vec![0..0]), None);
    assert_eq!(keep_revealed(&document, &None, &vec![1..1]), None);
}

#[test]
fn a_widget_goes_below_or_in_place() {
    assert_eq!(placement(&(3..9), true), BlockPlacement::Below(9));
    assert_eq!(placement(&(3..9), false), BlockPlacement::Replace(3, 9));
}

#[test]
fn an_embed_is_drawn_from_its_note() {
    let mut desired = DesiredBlock {
        marker: 0,
        source: "![[n]]".to_string(),
        below: false,
        collapsed: false,
        shows_source: false,
    };
    desired.show_embed(&EmbedState::Missing);
    assert_eq!(desired.source, EmbedState::Missing.reuse_key());
}

#[test]
fn an_unchanged_widget_stays() {
    let blocks = vec![rule(0..3), rule(5..8)];
    let desired = |marker: usize| DesiredBlock {
        marker,
        source: "---".to_string(),
        below: false,
        collapsed: false,
        shows_source: false,
    };
    let applied = |range: Range<usize>, source: &str, block_id: u64| AppliedBlock {
        range,
        source: source.to_string(),
        kind: BlockRenderKind::Rule,
        height_estimate: 1,
        indent_columns: 0,
        below: false,
        collapsed: false,
        shows_source: false,
        block_id,
    };
    let screen = vec![applied(0..3, "---", 7), applied(5..8, "***", 8), applied(20..23, "---", 9)];
    let plan = reconcile(&screen, &vec![true, true, true], &vec![desired(0), desired(1)], &blocks);
    assert_eq!(plan.kept, vec![0]);
    assert_eq!(plan.removed, vec![8, 9]);
    assert_eq!(plan.inserted, vec![1]);
    let plan = reconcile(&screen, &vec![false, true, true], &vec![desired(0)], &blocks);
    assert_eq!(plan.inserted, vec![0]);
}

#[test]
fn a_task_toggles_and_toggles_back() {
    assert_eq!(toggle_task_marker("- [ ] a", &(2..5), false), Some("[x]"));
    assert_eq!(toggle_task_marker("- [X] a", &(2..5), true), Some("[ ]"));
    assert_eq!(toggle_task_marker("- [x] a", &(2..5), false), None);
    assert_eq!(toggle_task_marker("- [x] a", &(5..2), true), None);
    assert_eq!(toggle_task_marker("é [ ]", &(1..5), false), None);
}

#[test]
fn a_click_lands_on_its_character() {
    assert_eq!(reveal_at_source_index("aé b", &(0..5), 1), 1);
    assert_eq!(reveal_at_source_index("aé b", &(0..5), 2), 1);
    assert_eq!(reveal_at_source_index("abc", &(1..2), 9), 2);
}

#[test]
fn deleting_beside_a_widget_takes_one_character() {
    let text = "a\n---\nb";
    assert_eq!(delete_adjacent_to_block(text, &vec![2..5], &vec![6..6], false), Some(vec![5..6]));
    assert_eq!(delete_adjacent_to_block(text, &vec![2..5], &vec![1..1], true), Some(vec![1..2]));
    assert_eq!(delete_adjacent_to_block(text, &vec![2..5], &vec![7..7], false), None);
    assert_eq!(delete_adjacent_to_block(text, &vec![2..5], &vec![1..3], true), None);
    assert_eq!(delete_adjacent_to_block("é", &vec![0..2], &vec![2..2], false), Some(vec![0..2]));
}

#[test]
fn folds_of_an_old_session_are_undone() {
    let folds = vec![(1..3, false), (1..3, true), (4..6, false)];
    assert_eq!(stale_restored_folds(&folds, &vec![1..3]), vec![1..3]);
}

#[test]
fn placeholders_are_told_apart() {
    let footnote = |label: &str| InlineKind::Footnote { label: label.to_string() };
    let math = |source: &str| InlineKind::Math {
        source: source.to_string(),
        style: MathStyle::Inline,
    };
    assert_eq!(marker_content_key(&InlineKind::Hide { reveal_span: 0..1 }), 0);
    assert_eq!(marker_content_key(&InlineKind::Bullet), 1);
    let task = |checked: bool| InlineKind::Checkbox { checked, marker_range: 0..3 };
    assert_eq!(marker_content_key(&task(false)), 2);
    assert_eq!(marker_content_key(&task(true)), 3);
    assert_eq!(marker_content_key(&footnote("1")), marker_content_key(&footnote("1")));
    assert_ne!(marker_content_key(&footnote("1")), marker_content_key(&footnote("2")));
    assert_ne!(marker_content_key(&math("x")), marker_content_key(&math("y")));
    assert_eq!(content_key(&footnote("1"), 10), 14);
    // A hash near the top stays what it is, so that no footnote or formula has another marker's key.
    assert_eq!(content_key(&footnote("1"), u64::MAX - 4), u64::MAX);
    assert_eq!(content_key(&footnote("1"), u64::MAX - 3), u64::MAX - 3);
    assert_eq!(content_key(&math("x"), u64::MAX), u64::MAX);
    assert!(marker_content_key(&footnote("1")) >= 4);
    assert!(matches!(hashed_content(&footnote("1")), Hashed::Label("1")));
    assert!(matches!(hashed_content(&math("x")), Hashed::Formula("x", MathStyle::Inline)));
    assert!(matches!(hashed_content(&InlineKind::Bullet), Hashed::Nothing));
    assert_eq!(collapsed_text(&InlineKind::Hide { reveal_span: 0..1 }), Some(""));
    assert_eq!(collapsed_text(&footnote("1")), None);
}

#[test]
fn a_formula_is_typeset_once() {
    assert!(needs_typesetting(None));
    assert!(!needs_typesetting(Some(MathProgress::Failed)));
    assert!(shows_typeset(Some(MathProgress::Ready)));
    assert!(!shows_typeset(Some(MathProgress::Pending)));
    assert!(!shows_typeset(None));
}

#[test]
fn every_kind_of_text_has_its_look() {
    assert!(highlight_look(STRIKE).struck);
    assert_eq!(highlight_look(ITALIC).slanted, Some(true));
    assert!(highlight_look(BOLD).bold);
    assert_eq!(highlight_look(CITATION).color, Some(TextColor::Accent));
    assert_eq!(highlight_look(TAG).background, Some(Background::Tag));
    assert_eq!(highlight_look(UNRESOLVED).color, Some(TextColor::Error));
    let mut set = empty_set();
    set.bold = vec![1..2];
    set.citations = vec![3..5, 6..8];
    let highlights = emphasis_highlights(Some(&set), &vec![6..8]);
    assert_eq!(highlights.len(), 10);
    assert_eq!(highlights[BOLD].ranges, vec![1..2]);
    assert_eq!(highlights[CITATION].ranges, vec![3..5]);
    assert_eq!(highlights[UNRESOLVED].ranges, vec![6..8]);
    assert!(emphasis_highlights(None, &vec![6..8]).iter().all(|set| set.ranges.is_empty()));
}

#[test]
fn heading_lines_are_styled_by_level() {
    let blocks = vec![
        block(0..3, BlockRenderKind::Heading { level: 1 }),
        block(5..9, BlockRenderKind::Heading { level: 2 }),
        rule(10..13),
        block(20..23, BlockRenderKind::Heading { level: 1 }),
    ];
    assert_eq!(heading_line_ranges(&blocks, 1), vec![0..3, 20..23]);
    assert!(heading_line_ranges(&blocks, 3).is_empty());
    assert_eq!(heading_key(2), 102);
}

#[test]
fn heading_styles_come_from_settings() {
    let defaults: MarkdownHeadingStyles<u32, u16> = Default::default();
    assert_eq!(defaults.for_level(1).font_size, 160);
    assert_eq!(defaults.for_level(1).font_weight, 900);
    assert_eq!(defaults.for_level(6).font_size, 90);
    assert_eq!(defaults.for_level(9).font_weight, 400);
    let content = HeadingStylesContent {
        h1: None,
        h2: Some(HeadingStyleContent { font_size: Some(200), font_weight: None }),
        h3: None,
        h4: None,
        h5: None,
        h6: None,
    };
    let settings = MarkdownLivePreviewSettings::from_settings(defaults, None, content);
    assert!(settings.enabled);
    assert_eq!(settings.heading_styles.for_level(2).font_size, 200);
    assert_eq!(settings.heading_styles.for_level(2).font_weight, 800);
    assert!(!MarkdownLivePreviewSettings::from_settings(defaults, Some(false), content).enabled);
}

#[test]
fn toggling_twice_leaves_the_preview_as_it_was() {
    assert!(is_live_preview_enabled(None, true));
    let once = toggle_live_preview(None, true);
    assert_eq!(once, Some(false));
    assert_eq!(toggle_live_preview(once, false), Some(true));
    assert!(extracts_markers(None, true, false));
    assert!(!extracts_markers(None, true, true));
    assert!(!extracts_markers(Some(false), true, false));
}

#[test]
fn a_second_pass_changes_nothing() {
    let text = "# T\n\n---\n\n> [!note]-\n> a\n\nsome *b*\n";
    let document = Document::new(text);
    let mut set = empty_set();
    set.inline = vec![hiding(30..31, 30..33), hiding(32..33, 30..33)];
    set.blocks = vec![
        block(0..3, BlockRenderKind::Heading { level: 1 }),
        rule(5..8),
        block(
            10..23,
            BlockRenderKind::Callout {
                kind: suzuri::callout::CalloutKind::Note,
                title: "Note".to_string(),
                collapse: Some(true),
            },
        ),
    ];
    let mut addon = LivePreviewAddon::new();
    addon.callout_collapse = vec![(10..23, false)];
    addon.source_revealed = Some(5..8);
    let folds = vec![(30..31, false), (0..3, false)];
    let plan =
        addon.plan_decorations(&document, Some(&set), &folds, &vec![34..34], &None, false);
    assert_eq!(addon.source_revealed, None);
    assert_eq!(plan.stale_folds, vec![30..31]);
    assert_eq!(plan.inline, vec![0, 1]);
    assert_eq!(plan.headings, vec![(0, 0..2)]);
    assert_eq!(plan.widgets.len(), 3);
    assert!(!plan.widgets[2].collapsed);
    let ranges = [1, 2].map(|index: usize| set.blocks[plan.widgets[index].marker].range.clone());
    assert_ne!(ranges[0], ranges[1]);
    let first = reconcile(&addon.applied_blocks, &vec![], &plan.widgets, &set.blocks);
    assert_eq!(first.inserted, vec![0, 1, 2]);
    addon.record_blocks(&first, &plan.widgets, &set.blocks, &vec![10, 11, 12]);
    let second =
        reconcile(&addon.applied_blocks, &vec![true; 3], &plan.widgets, &set.blocks);
    assert_eq!(second.kept, vec![0, 1, 2]);
    assert!(second.removed.is_empty() && second.inserted.is_empty());
    // The cursor goes into the rule: its widget goes, and the others stay.
    let plan = addon.plan_decorations(&document, Some(&set), &folds, &vec![6..6], &None, false);
    let third = reconcile(&addon.applied_blocks, &vec![true; 3], &plan.widgets, &set.blocks);
    assert_eq!((third.kept.clone(), third.removed.clone()), (vec![0, 2], vec![11]));
    assert!(third.inserted.is_empty());
    addon.record_blocks(&third, &plan.widgets, &set.blocks, &vec![]);
    assert_eq!(addon.applied_blocks.len(), 2);
    assert_eq!(addon.applied_blocks[1].block_id, 12);
    // Without markers nothing is left.
    let plan = addon.plan_decorations(&document, None, &folds, &vec![6..6], &None, false);
    assert!(plan.widgets.is_empty() && plan.inline.is_empty() && plan.headings.is_empty());
    let last = reconcile(&addon.applied_blocks, &vec![true, true], &plan.widgets, &vec![]);
    assert_eq!(last.removed, vec![10, 12]);
}
