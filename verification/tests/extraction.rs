use std::ops::Range;
use suzuri::callout::CalloutKind;
use suzuri::extract::{extract_markers, BufferState, SyntaxLayer};
use suzuri::markers::{BlockRenderKind, InlineKind, MarkerSet, MathStyle};
use suzuri::syntax::{heading_level, NodeKind, SyntaxNode};

fn node(kind: &str, start: usize, end: usize, children: Vec<SyntaxNode>) -> SyntaxNode {
    SyntaxNode { kind: NodeKind::from_name(kind), start, end, children }
}

fn leaf(kind: &str, start: usize, end: usize) -> SyntaxNode {
    node(kind, start, end, Vec::new())
}

fn state() -> BufferState {
    BufferState {
        singleton: true,
        expanded_diff_hunks: false,
        language: Some("Markdown".to_string()),
    }
}

fn layer(language: &str, root: SyntaxNode) -> SyntaxLayer {
    SyntaxLayer { language: language.to_string(), root }
}

/// The markers of a text whose block layer and inline layer have these children.
fn markers(text: &str, blocks: Vec<SyntaxNode>, inline: Vec<SyntaxNode>) -> MarkerSet {
    let layers = vec![
        layer("Markdown", node("document", 0, text.len(), blocks)),
        layer("Markdown-Inline", node("inline", 0, text.len(), inline)),
        layer("HTML", leaf("atx_heading", 0, text.len())),
    ];
    extract_markers(&state(), text, &layers).expect("markdown is previewed")
}

fn prose(text: &str) -> MarkerSet {
    markers(text, vec![leaf("inline", 0, text.len())], Vec::new())
}

fn hidden(markers: &MarkerSet) -> Vec<Range<usize>> {
    markers
        .inline
        .iter()
        .filter(|marker| matches!(marker.kind, InlineKind::Hide { .. }))
        .map(|marker| marker.range.clone())
        .collect()
}

#[test]
fn only_a_whole_markdown_buffer_is_previewed() {
    let layers = Vec::new();
    assert!(extract_markers(&state(), "", &layers).is_some());
    let multi = BufferState { singleton: false, ..state() };
    assert!(extract_markers(&multi, "", &layers).is_none());
    let diff = BufferState { expanded_diff_hunks: true, ..state() };
    assert!(extract_markers(&diff, "", &layers).is_none());
    let rust = BufferState { language: Some("Rust".to_string()), ..state() };
    assert!(extract_markers(&rust, "", &layers).is_none());
    let plain = BufferState { language: None, ..state() };
    assert!(extract_markers(&plain, "", &layers).is_none());
}

#[test]
fn headings_rules_and_code_are_blocks() {
    let text = "## Title\n\n---\n\n```rust\nx\n```\n";
    let set = markers(
        text,
        vec![
            node("atx_heading", 0, 9, vec![leaf("atx_h2_marker", 0, 2)]),
            leaf("thematic_break", 10, 14),
            leaf("fenced_code_block", 15, 29),
        ],
        Vec::new(),
    );
    assert_eq!(set.blocks.len(), 3);
    assert!(matches!(set.blocks[0].kind, BlockRenderKind::Heading { level: 2 }));
    assert_eq!(set.blocks[0].range, 0..8);
    assert!(matches!(set.blocks[1].kind, BlockRenderKind::Rule));
    assert_eq!(set.blocks[1].range, 10..13);
    assert!(matches!(set.blocks[2].kind, BlockRenderKind::Markdown));
    assert_eq!(set.blocks[2].range, 15..28);
    assert_eq!(set.blocks[2].height_estimate, 4);
}

#[test]
fn a_heading_has_the_level_of_its_marker() {
    for level in 1..=6u8 {
        let marker = format!("atx_h{level}_marker");
        assert_eq!(heading_level(&node("atx_heading", 0, 1, vec![leaf(&marker, 0, 1)])), level);
    }
    assert_eq!(heading_level(&leaf("atx_heading", 0, 1)), 6);
}

#[test]
fn a_block_knows_its_indent() {
    let text = "- a\n\t  ```\n\t  ```\n";
    let set = markers(text, vec![leaf("fenced_code_block", 7, 18)], Vec::new());
    assert_eq!(set.blocks[0].range, 4..17);
    assert_eq!(set.blocks[0].indent_columns, 6);
}

#[test]
fn one_table_gives_one_block() {
    let text = "| a | b |\n|---|---|\n|   |   |\n| c | d |\n";
    let set = markers(
        text,
        vec![leaf("pipe_table", 0, 20), leaf("pipe_table", 20, 40)],
        Vec::new(),
    );
    assert_eq!(set.blocks.len(), 1);
    assert_eq!(set.blocks[0].range, 0..39);
    match &set.blocks[0].kind {
        BlockRenderKind::Table(structure) => assert_eq!(structure.rows.len(), 2),
        other => panic!("a table, not {other:?}"),
    }
}

#[test]
fn a_quote_with_a_header_is_a_callout() {
    let text = "> [!warning]- Mind\n> the gap\n\n> plain\n";
    let set = markers(
        text,
        vec![leaf("block_quote", 0, 29), leaf("block_quote", 30, 38)],
        Vec::new(),
    );
    match &set.blocks[0].kind {
        BlockRenderKind::Callout { kind, title, collapse } => {
            assert_eq!(*kind, CalloutKind::Warning);
            assert_eq!(title, "Mind");
            assert_eq!(*collapse, Some(true));
        }
        other => panic!("a callout, not {other:?}"),
    }
    assert!(matches!(set.blocks[1].kind, BlockRenderKind::Markdown));
}

#[test]
fn a_block_inside_another_is_dropped() {
    let text = "> # A\n> b\n";
    let set = markers(
        text,
        vec![node("block_quote", 0, 10, vec![leaf("atx_heading", 2, 6)])],
        Vec::new(),
    );
    assert_eq!(set.blocks.len(), 1);
    assert_eq!(set.blocks[0].range, 0..9);
}

#[test]
fn definitions_are_collected() {
    let text = "[a]: http://x  \n[b]: y\n";
    let set = markers(
        text,
        vec![
            leaf("link_reference_definition", 0, 16),
            leaf("link_reference_definition", 16, 23),
        ],
        Vec::new(),
    );
    // The walk takes the last child first.
    assert_eq!(set.definitions, "[a]: http://x\n[b]: y");
    assert_eq!(set.definition_ranges, vec![0..13, 16..22]);
}

#[test]
fn list_markers_become_bullets_and_boxes() {
    let text = "- a\n* [x] b\n1. c\n";
    let set = markers(
        text,
        vec![
            node("list_item", 0, 4, vec![leaf("list_marker_minus", 0, 2)]),
            node(
                "list_item",
                4,
                12,
                vec![
                    leaf("list_marker_star", 4, 6),
                    leaf("task_list_marker_checked", 6, 9),
                ],
            ),
            node("list_item", 12, 17, vec![leaf("list_marker_dot", 12, 15)]),
        ],
        Vec::new(),
    );
    assert_eq!(set.inline.len(), 2);
    assert!(matches!(set.inline[0].kind, InlineKind::Bullet));
    assert_eq!(set.inline[0].range, 0..1);
    match &set.inline[1].kind {
        InlineKind::Checkbox { checked, marker_range } => {
            assert!(*checked);
            assert_eq!(*marker_range, 6..9);
        }
        other => panic!("a checkbox, not {other:?}"),
    }
    assert_eq!(set.inline[1].range, 4..9);
    assert_eq!(set.ordered_markers, vec![12..14]);
}

#[test]
fn emphasis_hides_its_delimiters() {
    let text = "a *b* **c** ~d~";
    let set = markers(
        text,
        Vec::new(),
        vec![
            node(
                "emphasis",
                2,
                5,
                vec![leaf("emphasis_delimiter", 2, 3), leaf("emphasis_delimiter", 4, 5)],
            ),
            leaf("strong_emphasis", 6, 11),
            leaf("strikethrough", 12, 15),
        ],
    );
    assert_eq!(set.italic, vec![2..5]);
    assert_eq!(set.bold, vec![6..11]);
    assert_eq!(set.strikethrough, vec![12..15]);
    assert_eq!(hidden(&set), vec![2..3, 4..5]);
    match &set.inline[0].kind {
        InlineKind::Hide { reveal_span } => assert_eq!(*reveal_span, 2..5),
        other => panic!("hidden, not {other:?}"),
    }
}

#[test]
fn links_hide_all_but_their_text() {
    let text = "[ab](c) <http://x>";
    let set = markers(
        text,
        Vec::new(),
        vec![
            node("inline_link", 0, 7, vec![leaf("[", 0, 1), leaf("]", 3, 4)]),
            leaf("uri_autolink", 8, 18),
        ],
    );
    assert_eq!(set.link_text, vec![1..3]);
    let mut ranges = hidden(&set);
    ranges.sort_by_key(|range| range.start);
    assert_eq!(ranges, vec![0..1, 3..7, 8..9, 17..18]);
}

#[test]
fn formulas_are_inline_or_blocks() {
    let delimited = |start: usize, end: usize, width: usize| {
        node(
            "latex_block",
            start,
            end,
            vec![
                leaf("latex_span_delimiter", start, start + width),
                leaf("latex_span_delimiter", end - width, end),
            ],
        )
    };
    let text = "a $x$ b $5 and $\n$$\ny\n$$\n$$z$$ w";
    let set = markers(
        text,
        Vec::new(),
        vec![
            delimited(2, 5, 1),
            delimited(8, 16, 1),
            delimited(17, 24, 2),
            delimited(25, 30, 2),
            node("latex_block", 0, 2, vec![leaf("latex_span_delimiter", 0, 1)]),
        ],
    );
    let mut formulas: Vec<(Range<usize>, &str)> = Vec::new();
    for marker in &set.inline {
        if let InlineKind::Math { source, style } = &marker.kind {
            assert_eq!(*style, MathStyle::Inline);
            formulas.push((marker.range.clone(), source.as_str()));
        }
    }
    formulas.sort_by_key(|formula| formula.0.start);
    assert_eq!(formulas, vec![(2..5, "x"), (25..30, "z")]);
    assert_eq!(set.blocks.len(), 1);
    assert_eq!(set.blocks[0].range, 17..24);
    assert_eq!(set.blocks[0].height_estimate, 3);
    match &set.blocks[0].kind {
        BlockRenderKind::Math { source } => assert_eq!(source, "\ny\n"),
        other => panic!("a formula, not {other:?}"),
    }
}

#[test]
fn an_image_alone_on_its_line_is_a_block() {
    let text = "  ![a|640x480](p.png)  \nx ![b](q)";
    let set = markers(
        text,
        Vec::new(),
        vec![
            node(
                "image",
                2,
                21,
                vec![
                    leaf("image_description", 4, 13),
                    leaf("link_destination", 15, 20),
                ],
            ),
            node("image", 26, 33, vec![leaf("image_description", 28, 29)]),
        ],
    );
    assert_eq!(set.blocks.len(), 1);
    assert_eq!(set.blocks[0].range, 0..23);
    match &set.blocks[0].kind {
        BlockRenderKind::Image { display_width, destination, alt } => {
            assert_eq!(display_width.as_deref(), Some("640"));
            assert_eq!(destination.as_deref(), Some("p.png"));
            assert_eq!(alt, "a");
        }
        other => panic!("an image, not {other:?}"),
    }
    // The other one hides all but its alt text.
    assert_eq!(hidden(&set), vec![26..28, 29..33]);
}

#[test]
fn wikilinks_show_their_alias() {
    let set = prose("see [[Note]] and [[Note|this]], not [[a[[b]] or [[]]");
    assert_eq!(set.link_text, vec![6..10, 24..28]);
    assert_eq!(hidden(&set), vec![4..6, 10..12, 17..24, 28..30]);
}

#[test]
fn code_keeps_its_brackets() {
    let text = "`[[a]]` [[b]]";
    let set = markers(
        text,
        vec![leaf("inline", 0, text.len())],
        vec![node(
            "code_span",
            0,
            7,
            vec![leaf("code_span_delimiter", 0, 1), leaf("code_span_delimiter", 6, 7)],
        )],
    );
    assert_eq!(set.link_text, vec![10..11]);
}

#[test]
fn an_embed_alone_on_its_line_is_a_block() {
    let set = prose("![[photo.PNG|64]]");
    match &set.blocks[0].kind {
        BlockRenderKind::Image { display_width, destination, .. } => {
            assert_eq!(display_width.as_deref(), Some("64"));
            assert_eq!(destination.as_deref(), Some("photo.PNG"));
        }
        other => panic!("an image, not {other:?}"),
    }
    let set = prose("![[ Some Note # Part ]]");
    match &set.blocks[0].kind {
        BlockRenderKind::Embed { target, section } => {
            assert_eq!(target, "Some Note");
            assert_eq!(section.as_deref(), Some("Part"));
        }
        other => panic!("an embed, not {other:?}"),
    }
    assert!(prose("![[#Part]]").blocks.is_empty());
    assert!(prose("see ![[Note]]").blocks.is_empty());
}

#[test]
fn citations_are_marked_by_key() {
    let set = prose("see [see @doe2020, p. 3; -@roe] and [mail@x] and [@]");
    assert_eq!(set.citations, vec![9..17, 26..30]);
}

#[test]
fn footnotes_highlights_and_tags_are_found() {
    let text = "a[^n1] ==b== #tag/sub x#no #1 ==c\n==";
    let set = prose(text);
    let mut labels = Vec::new();
    for marker in &set.inline {
        if let InlineKind::Footnote { label } = &marker.kind {
            labels.push((marker.range.clone(), label.as_str()));
        }
    }
    assert_eq!(labels, vec![(1..6, "n1")]);
    assert_eq!(set.highlights, vec![9..10]);
    assert_eq!(set.tags, vec![13..21]);
}

#[test]
fn tags_are_words_in_any_script() {
    let text = "#café #Ⅷ #١٢ #½x #naïve-/ y";
    let tags: Vec<&str> = prose(text).tags.into_iter().map(|range| &text[range]).collect();
    assert_eq!(tags, ["#café", "#½x", "#naïve"]);
}
