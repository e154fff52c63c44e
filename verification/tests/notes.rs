use suzuri::addon::{
    classify_changes, gets_preview, reaction, DeleteAction, FileChange, LivePreviewAddon,
    PathChange, PreviewEvent, Reaction,
};
use suzuri::callout::{
    callout_body, is_callout_collapsed, parse_callout_header, toggle_callout, CalloutAccent,
    CalloutIcon, CalloutKind,
};
use suzuri::cards::{
    callout_card, embed_card, image_content, math_content, math_reveals_source, Chevron,
    EmbedContent, ImageContent, MathContent,
};
use suzuri::citation::{
    citation_boundary, citation_key_at, citation_key_start, citation_keys, is_citation_key_char,
};
use suzuri::edits::MathProgress;
use suzuri::embed::{
    embed_label, embed_section, resolve_embed_target, EmbedCache, EmbedKey, EmbedState,
    ProjectFile, ProjectPath,
};
use suzuri::image::{
    is_image_extension, resize_image_to_width, resolve_image_source, with_image_width, ImagePlace,
};
use suzuri::inline_editor::{cell_event, property_event, Focus, InlineEvent, TypedText};
use suzuri::markers::{BlockMarker, BlockRenderKind};
use suzuri::path::{extension, file_stem};
use suzuri::reconcile::AppliedBlock;
use suzuri::table_edit::TableStructuralChange;
use suzuri::table_widget::TableUnit;
use suzuri::text::{is_whitespace, to_ascii_lower, width_of};
use suzuri::wikilink::{code_span_ranges, wikilink_display_text};

#[test]
fn characters_are_classed_as_unicode_has_them() {
    for c in '\0'..=char::MAX {
        assert_eq!(is_whitespace(c), c.is_whitespace(), "{c:?}");
        assert_eq!(width_of(c), c.len_utf8(), "{c:?}");
        assert_eq!(to_ascii_lower(c), c.to_ascii_lowercase(), "{c:?}");
    }
}

#[test]
fn paths_end_in_stem_and_extension() {
    let paths = [
        "a.md", "dir/a.b.md", "dir.x/a", ".bib", "a.", "..", "dir/", "dir/.", "", "/", "a//b.c",
        "dir/..", "x.md/", "...", "a/..b",
    ];
    for path in paths {
        let std_path = std::path::Path::new(path);
        let std_extension = std_path.extension().and_then(|part| part.to_str());
        let std_stem = std_path.file_stem().and_then(|part| part.to_str());
        assert_eq!(extension(path).as_deref(), std_extension, "{path}");
        assert_eq!(file_stem(path).as_deref(), std_stem, "{path}");
    }
}

#[test]
fn citation_keys_have_their_characters() {
    for c in "azAZ09_:.#$%&-+?<>~/".chars() {
        assert!(is_citation_key_char(c), "{c}");
    }
    for c in "@ ;,[]é!".chars() {
        assert!(!is_citation_key_char(c), "{c}");
    }
    assert!(citation_boundary(None));
    assert!(citation_boundary(Some('[')));
    assert!(citation_boundary(Some('\u{a0}')));
    assert!(!citation_boundary(Some('a')));
}

#[test]
fn a_key_is_found_from_within() {
    let text = "é [@doe.2020.; @x]";
    // Each offset in the key, from behind the `@` to its end.
    for offset in 5..=13 {
        assert_eq!(citation_key_at(text, offset), Some((4..13, "doe.2020".to_string())));
    }
    assert_eq!(citation_key_at(text, 4), None);
    assert_eq!(citation_key_at("a@b", 3), None);
    assert_eq!(citation_key_at("@.", 2), None);
    assert_eq!(citation_key_start(text, 9), Some(5));
    assert_eq!(citation_key_start("a@b", 3), None);
    let long = format!("@{}", "k".repeat(130));
    assert_eq!(citation_key_start(&long, 130), Some(1));
    assert_eq!(citation_key_start(&long, 131), None);
    // A lookup walks back over 129 characters of a key and reads 256 of it.
    let key = "k".repeat(256);
    let text = format!("@{key}");
    assert_eq!(citation_key_at(&text, 130), Some((0..257, key)));
    assert_eq!(citation_key_at(&text, 131), None);
    let ranges = citation_keys("see @doe2020, p. 3; -@roe.; a@b; @_x");
    assert_eq!(ranges, vec![4..12, 21..25, 33..36]);
}

#[test]
fn a_callout_is_read_from_its_header() {
    assert_eq!(
        parse_callout_header("> [!TLDR]+  Short "),
        Some((CalloutKind::Abstract, "Short".to_string(), Some(false)))
    );
    assert_eq!(
        parse_callout_header(">[!recipe]"),
        Some((CalloutKind::Note, "Note".to_string(), None))
    );
    assert_eq!(parse_callout_header("> plain"), None);
    assert_eq!(parse_callout_header("[!note]"), None);
    assert_eq!(CalloutKind::from_name("bug"), CalloutKind::Failure);
    assert_eq!(CalloutKind::Tip.icon(), CalloutIcon::Flame);
    assert_eq!(CalloutKind::Danger.accent(), CalloutAccent::Error);
    assert_eq!(CalloutKind::Todo.default_title(), "Todo");
}

#[test]
fn a_callout_body_loses_its_quotes() {
    assert_eq!(callout_body("> [!note]\n> a\n>b\n> > c\nlazy"), "a\nb\n> c\nlazy");
    assert_eq!(callout_body("> [!note]"), "");
}

#[test]
fn a_toggle_flips_one_callout() {
    let chosen = toggle_callout(vec![(0..9, true), (20..30, true)], 0..9, true);
    assert!(!is_callout_collapsed(&chosen, 0, Some(true)));
    assert!(is_callout_collapsed(&chosen, 20, None));
    assert!(is_callout_collapsed(&chosen, 50, Some(true)));
    assert!(!is_callout_collapsed(&chosen, 50, None));
}

#[test]
fn wikilinks_are_shown_as_text() {
    assert_eq!(wikilink_display_text("a [[b]] [[c|d]] `[[e]]` [[f"), "a b d `[[e]]` [[f");
    assert_eq!(wikilink_display_text("nothing"), "nothing");
    assert_eq!(code_span_ranges("a `b` ``c`d`` `e"), vec![2..5, 6..13]);
}

#[test]
fn a_section_ends_at_its_level() {
    let note = "# A\na\n## B\nb\n### C\nc\n## D\nd\n";
    assert_eq!(embed_section(note, " b ").as_deref(), Some("## B\nb\n### C\nc"));
    assert_eq!(embed_section(note, "D").as_deref(), Some("## D\nd"));
    assert_eq!(embed_section(note, "E"), None);
    // Letters match beyond ASCII.
    assert_eq!(embed_section("# ÄPFEL\nx", "äpfel").as_deref(), Some("# ÄPFEL\nx"));
}

fn project_file(path: &str, beside: bool) -> ProjectFile {
    ProjectFile {
        worktree_id: 1,
        path: path.to_string(),
        absolute: format!("/v/{path}"),
        is_file: true,
        depth: path.split('/').count(),
        beside,
    }
}

#[test]
fn a_target_finds_its_best_note() {
    let files = vec![
        project_file("deep/er/Note.md", false),
        project_file("deep/note.md", false),
        project_file("here/NOTE.md", true),
        project_file("note.txt", true),
    ];
    assert_eq!(resolve_embed_target(&files, "deep/er/note"), Some(0));
    assert_eq!(resolve_embed_target(&files, "Note.md"), Some(2));
    assert_eq!(resolve_embed_target(&files[..2].iter().map(|file| project_file(&file.path, false)).collect(), "note"), Some(1));
    assert_eq!(resolve_embed_target(&files, "other"), None);
    assert_eq!(resolve_embed_target(&files, " .md "), None);
}

#[test]
fn embeds_are_cached_until_their_notes_change() {
    let key = |target: &str, section: Option<&str>| EmbedKey {
        source_directory: None,
        target: target.to_string(),
        section: section.map(str::to_string),
    };
    let path = || ProjectPath { worktree_id: 1, path: "n.md".to_string() };
    let mut cache = EmbedCache::new();
    assert!(matches!(cache.embed_state(&key("n", None), false, true), (EmbedState::Missing, false)));
    assert!(cache.lookup(&key("n", None)).is_none());
    assert!(matches!(cache.embed_state(&key("n", None), true, true), (EmbedState::Loading, true)));
    assert!(matches!(cache.embed_state(&key("n", None), true, true), (EmbedState::Loading, false)));
    cache.record_loaded(key("n", None), Some("text".to_string()), path(), "/v/n.md".to_string());
    match cache.lookup(&key("n", None)) {
        Some(EmbedState::Ready { body, .. }) => assert_eq!(body, "text"),
        other => panic!("ready, not {other:?}"),
    }
    cache.record_loaded(key("n", Some("S")), Some("x".to_string()), path(), "/v/n.md".to_string());
    assert!(matches!(cache.lookup(&key("n", Some("S"))), Some(EmbedState::Missing)));
    cache.embed_state(&key("gone", None), true, false);
    assert!(!cache.evict_embeds(&vec!["/v/other.md".to_string()], false));
    assert!(cache.evict_embeds(&vec!["/v/n.md".to_string()], false));
    assert!(cache.lookup(&key("n", None)).is_none());
    assert!(matches!(cache.lookup(&key("gone", None)), Some(EmbedState::Missing)));
    assert!(cache.evict_embeds(&vec!["/v/new.md".to_string()], true));
    assert!(cache.lookup(&key("gone", None)).is_none());
    assert_eq!(embed_label("n", &Some("S".to_string())), "n › S");
    assert_eq!(embed_label("n", &None), "n");
    let states = [
        EmbedState::Loading,
        EmbedState::Missing,
        EmbedState::Ready { body: String::new(), path: path() },
    ];
    assert_ne!(states[0].reuse_key(), states[1].reuse_key());
    assert_ne!(states[1].reuse_key(), states[2].reuse_key());
}

#[test]
fn a_width_replaces_a_width() {
    assert_eq!(with_image_width("![a](p)", 64).as_deref(), Some("![a|64](p)"));
    assert_eq!(with_image_width("![a|640x480](p)", 64).as_deref(), Some("![a|64](p)"));
    assert_eq!(with_image_width("![a|b](p)", 7).as_deref(), Some("![a|b|7](p)"));
    assert_eq!(with_image_width("![a|](p)", 7).as_deref(), Some("![a||7](p)"));
    assert_eq!(with_image_width("[a](p)", 7), None);
    assert_eq!(with_image_width("![a", 7), None);
    let twice = with_image_width(&with_image_width("![a](p)", 640).unwrap(), u32::MAX);
    assert_eq!(twice.as_deref(), Some("![a|4294967295](p)"));
    let text = "x\n ![a](p)\n";
    assert_eq!(resize_image_to_width(text, &(2..10), 8).as_deref(), Some("![a|8](p)"));
    assert_eq!(resize_image_to_width("![a|8](p)", &(0..9), 8), None);
    assert_eq!(resize_image_to_width(text, &(5..5), 8), None);
    assert_eq!(resize_image_to_width(text, &(2..99), 8), None);
}

fn place(destination: &str) -> (bool, String) {
    match resolve_image_source(destination) {
        Some(ImagePlace::Remote(address)) => (true, address),
        Some(ImagePlace::Local(path)) => (false, path),
        None => panic!("a place"),
    }
}

#[test]
fn a_destination_leads_somewhere() {
    assert!(resolve_image_source("data:image/png;base64,x").is_none());
    assert_eq!(place("https://x/%20"), (true, "https://x/%20".to_string()));
    assert_eq!(place("http://x"), (true, "http://x".to_string()));
    assert_eq!(place("my%20image%C3%A9.png"), (false, "my imageé.png".to_string()));
    assert_eq!(place("100%/a+b%2"), (false, "100%/a+b%2".to_string()));
    assert_eq!(place("%%34%zz"), (false, "%4%zz".to_string()));
    // Bytes that are no text are left encoded.
    assert_eq!(place("%ff.png"), (false, "%ff.png".to_string()));
    assert!(is_image_extension("JPeG"));
    assert!(!is_image_extension("md"));
}

#[test]
fn changed_files_are_sorted_out() {
    let change = |path: &str, change: PathChange| FileChange {
        path: path.to_string(),
        absolute: format!("/v/{path}"),
        change,
    };
    let changed = classify_changes(&vec![
        change("a.png", PathChange::Updated),
        change("b.md", PathChange::Updated),
        change("c.PNG", PathChange::Loaded),
        change("d.md", PathChange::Removed),
        change("e", PathChange::Added),
        change("f.rs", PathChange::Added),
    ]);
    assert_eq!(changed.images, ["/v/a.png"]);
    assert_eq!(changed.notes, ["/v/b.md", "/v/d.md"]);
    assert!(!changed.note_created);
    assert!(classify_changes(&vec![change("b.md", PathChange::AddedOrUpdated)]).note_created);
    assert!(!classify_changes(&vec![change("b.md", PathChange::Loaded)]).note_created);
}

#[test]
fn events_are_answered() {
    assert_eq!(reaction(PreviewEvent::Reparsed), Reaction::Recompute);
    assert_eq!(reaction(PreviewEvent::SelectionsChanged), Reaction::ApplyDecorations);
    assert_eq!(reaction(PreviewEvent::ThemeChanged), Reaction::ApplyHighlights);
    assert_eq!(reaction(PreviewEvent::BibliographyChanged), Reaction::ApplyHighlights);
    assert!(gets_preview(true, true));
    assert!(!gets_preview(true, false));
}

#[test]
fn a_resize_keeps_the_image_selected() {
    let mut addon = LivePreviewAddon::new();
    addon.select_image(0..7);
    assert!(addon.is_image_selected(&(0..7)));
    assert_eq!(addon.resize_image("![a](p)", 0..7, 64, 1000).as_deref(), Some("![a|64](p)"));
    addon.selections_changed(1499);
    assert!(addon.is_image_selected(&(0..7)));
    addon.selections_changed(1500);
    assert!(!addon.is_image_selected(&(0..7)));
    assert_eq!(addon.reveal_source(3..9), 3);
    assert_eq!(addon.source_revealed, Some(3..9));
    assert!(addon.is_enabled(true));
    addon.toggle(true);
    assert!(!addon.is_enabled(true));
}

#[test]
fn a_selected_row_goes_before_text() {
    let mut addon = LivePreviewAddon::new();
    addon.tables.select_unit(0..9, TableUnit::Row(2));
    addon.applied_blocks.push(AppliedBlock {
        range: 2..5,
        source: "---".to_string(),
        kind: BlockRenderKind::Rule,
        height_estimate: 1,
        indent_columns: 0,
        below: false,
        collapsed: false,
        shows_source: false,
        block_id: 1,
    });
    let text = "a\n---\nb\n# c";
    let heading = vec![BlockMarker {
        range: 8..11,
        height_estimate: 1,
        kind: BlockRenderKind::Heading { level: 1 },
        indent_columns: 0,
    }];
    match addon.delete_pressed(text, &heading, &vec![6..6], false) {
        DeleteAction::Table(range, TableStructuralChange::DeleteRow(2)) => assert_eq!(range, 0..9),
        other => panic!("the row, not {other:?}"),
    }
    match addon.delete_pressed(text, &heading, &vec![6..6], false) {
        DeleteAction::Text(ranges) => assert_eq!(ranges, vec![5..6]),
        other => panic!("a character, not {other:?}"),
    }
    match addon.delete_pressed(text, &heading, &vec![7..7], true) {
        DeleteAction::Text(ranges) => assert_eq!(ranges, vec![7..8]),
        other => panic!("a character, not {other:?}"),
    }
    assert!(matches!(
        addon.delete_pressed(text, &vec![], &vec![7..7], true),
        DeleteAction::Default
    ));
}

#[test]
fn inline_editors_write_back_once() {
    assert_eq!(cell_event(InlineEvent::Tab, true, true), (TypedText::Commit, Focus::NextCell));
    assert_eq!(cell_event(InlineEvent::Tab, true, false), (TypedText::Commit, Focus::Note));
    assert_eq!(cell_event(InlineEvent::Blurred, false, true), (TypedText::Leave, Focus::Stay));
    assert_eq!(cell_event(InlineEvent::Cancel, true, true), (TypedText::Discard, Focus::Note));
    assert_eq!(
        property_event(InlineEvent::Newline, true, true),
        (TypedText::Commit, Focus::NewValue)
    );
    assert_eq!(property_event(InlineEvent::Tab, true, true), (TypedText::Commit, Focus::Note));
    assert_eq!(property_event(InlineEvent::Blurred, true, true), (TypedText::Commit, Focus::Stay));
}

#[test]
fn cards_show_what_there_is() {
    assert_eq!(image_content(true, true), ImageContent::Image);
    assert_eq!(image_content(true, false), ImageContent::AltText);
    assert_eq!(image_content(false, true), ImageContent::Markdown);
    let ready = EmbedState::Ready {
        body: "see [[x|y]]".to_string(),
        path: ProjectPath { worktree_id: 1, path: "n.md".to_string() },
    };
    let card = embed_card(&ready);
    assert_eq!(card.opens.map(|path| path.path.as_str()), Some("n.md"));
    assert!(matches!(card.content, EmbedContent::Note(text) if text == "see y"));
    let card = embed_card(&EmbedState::Loading);
    assert!(card.opens.is_none());
    assert!(matches!(card.content, EmbedContent::Line("Loading…")));
    assert!(matches!(
        embed_card(&EmbedState::Missing).content,
        EmbedContent::Line("No note in this project answers to that name.")
    ));
    let card = callout_card("> [!note]\n> a [[b]]", true, false);
    assert_eq!((card.chevron, card.body.as_deref()), (Some(Chevron::Down), Some("a b")));
    let card = callout_card("> [!note]\n> a", true, true);
    assert_eq!((card.chevron, card.body), (Some(Chevron::Right), None));
    let card = callout_card("> [!note]\n>  ", false, false);
    assert_eq!((card.chevron, card.body), (None, None));
    assert_eq!(math_content(Some(MathProgress::Ready), true), MathContent::Typeset);
    assert_eq!(math_content(Some(MathProgress::Failed), false), MathContent::Source);
    assert_eq!(math_content(None, true), MathContent::Nothing);
    assert!(math_reveals_source(false));
}

#[test]
fn a_bare_target_goes_by_the_file_name() {
    let files = vec![project_file("Note.md", false), project_file("sub/Note.md", true)];
    assert_eq!(resolve_embed_target(&files, "Note"), Some(1));
    // One that spells out a path goes by the path.
    let files = vec![project_file("sub/Note.md", true), project_file("a/sub/Note.md", false)];
    assert_eq!(resolve_embed_target(&files, "a/sub/Note"), Some(1));
    // Beside none, the shallowest one is taken, and at the root the one with the whole name.
    let files = vec![project_file("x/Note.md", false), project_file("Note.md", false)];
    assert_eq!(resolve_embed_target(&files, "Note"), Some(1));
    let files = vec![project_file("v1.md", false), project_file("v1.2.md", false)];
    assert_eq!(resolve_embed_target(&files, "v1.2"), Some(1));
    assert_eq!(resolve_embed_target(&files, "v1.3"), Some(0));
}

#[test]
fn a_bracketed_key_is_found_from_within() {
    let inner = "see @\u{e9}; @doe2020.; -@roe";
    let text = format!("[{inner}]");
    let keys = citation_keys(inner);
    assert_eq!(keys.len(), 2);
    for range in keys {
        for offset in range.start + 2..=range.end + 1 {
            let key = inner[range.start + 1..range.end].to_string();
            let found = Some((range.start + 1..range.end + 1, key));
            assert_eq!(citation_key_at(&text, offset), found);
        }
    }
    assert_eq!(citation_key_at("[@doe]", 2), Some((1..5, "doe".to_string())));
}
