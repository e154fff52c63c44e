use suzuri::frontmatter::{
    adds_property, commit_active_property, parse_frontmatter_properties, property_row,
    resolve_property_value_span, set_property_value, start_property_edit, unquote,
    FrontmatterProperty, FrontmatterValue, PropertyEditTarget, PropertyRow,
};

const YAML: &str = "---\ntitle: \"A note\"\ntags: [a, 'b', ]\nlist:\n  - one\n  - \"two\"\ndone: false\nempty:\n---\n";

fn scalar(property: &FrontmatterProperty) -> &str {
    match &property.value {
        FrontmatterValue::Scalar(text) => text,
        FrontmatterValue::List(_) => panic!("a list"),
    }
}

fn list(property: &FrontmatterProperty) -> &[String] {
    match &property.value {
        FrontmatterValue::Scalar(_) => panic!("a scalar"),
        FrontmatterValue::List(items) => items,
    }
}

#[test]
fn quotes_come_off_in_pairs() {
    assert_eq!(unquote("\"a\""), "a");
    assert_eq!(unquote("'a'"), "a");
    assert_eq!(unquote("'a\""), "'a\"");
    assert_eq!(unquote("\""), "\"");
    assert_eq!(unquote("plain"), "plain");
}

#[test]
fn properties_are_read_in_order() {
    let properties = parse_frontmatter_properties(YAML);
    let keys: Vec<&str> = properties.iter().map(|property| property.key.as_str()).collect();
    assert_eq!(keys, ["title", "tags", "list", "done", "empty"]);
    assert_eq!(scalar(&properties[0]), "A note");
    assert_eq!(&YAML[properties[0].value_span.clone()], " \"A note\"");
    assert_eq!(list(&properties[1]), ["a", "b"]);
    assert_eq!(list(&properties[2]), ["one", "two"]);
    assert_eq!(scalar(&properties[3]), "false");
    assert_eq!(scalar(&properties[4]), "");
    let toml = parse_frontmatter_properties("+++\nkey = 'v'\n+++\n");
    assert_eq!(scalar(&toml[0]), "v");
}

#[test]
fn a_value_is_found_and_replaced() {
    let (range, value) = resolve_property_value_span(YAML, 0, YAML.len(), "done").expect("done");
    assert_eq!((&YAML[range], value.as_str()), (" false", " false"));
    assert!(resolve_property_value_span(YAML, 0, YAML.len(), "none").is_none());
    let (range, new) = set_property_value(YAML, 0, YAML.len(), "done", "true").expect("done");
    let mut text = YAML.to_string();
    text.replace_range(range, &new);
    let properties = parse_frontmatter_properties(&text);
    assert_eq!(scalar(&properties[3]), "true");
    assert_eq!(list(&properties[2]), ["one", "two"]);
    assert_eq!(start_property_edit(YAML, 0, YAML.len(), "title").as_deref(), Some("\"A note\""));
}

#[test]
fn an_edited_value_is_written_back() {
    let target = PropertyEditTarget::Value { key: "done".to_string() };
    let edit = commit_active_property(YAML, 0, YAML.len() - 1, &target, " a\nb ").expect("an edit");
    assert_eq!(edit.text, " a b");
    assert!(edit.created_key.is_none());
    assert!(commit_active_property(YAML, 0, YAML.len() - 1, &target, "false").is_none());
    let gone = PropertyEditTarget::Value { key: "none".to_string() };
    assert!(commit_active_property(YAML, 0, YAML.len() - 1, &gone, "x").is_none());
}

#[test]
fn an_emptied_value_reads_back_empty() {
    let target = PropertyEditTarget::Value { key: "title".to_string() };
    let edit = commit_active_property(YAML, 0, YAML.len() - 1, &target, " ").expect("an edit");
    assert_eq!(edit.text, "");
    let mut text = YAML.to_string();
    text.replace_range(edit.range, &edit.text);
    let properties = parse_frontmatter_properties(&text);
    assert_eq!(properties[0].key, "title");
    assert_eq!(scalar(&properties[0]), "");
    assert_eq!(list(&properties[1]), ["a", "b"]);
}

#[test]
fn a_new_property_goes_before_the_closing_delimiter() {
    let end = YAML.len() - 1;
    let edit = commit_active_property(YAML, 0, end, &PropertyEditTarget::NewKey, "new:")
        .expect("an edit");
    assert_eq!(edit.text, "new: \n");
    assert_eq!(edit.created_key.as_deref(), Some("new"));
    assert_eq!(&YAML[edit.range.start..], "---\n");
    for edited in ["", " : ", "a: b"] {
        assert!(commit_active_property(YAML, 0, end, &PropertyEditTarget::NewKey, edited).is_none());
    }
}

#[test]
fn a_value_shows_by_what_it_is() {
    let properties = parse_frontmatter_properties(YAML);
    assert!(matches!(property_row(&properties[0], &None), PropertyRow::Text));
    assert!(matches!(property_row(&properties[1], &None), PropertyRow::Pills));
    assert!(matches!(
        property_row(&properties[3], &None),
        PropertyRow::Checkbox { checked: false, toggled: "true" }
    ));
    assert!(matches!(property_row(&properties[4], &None), PropertyRow::Empty));
    let editing = Some(PropertyEditTarget::Value { key: "title".to_string() });
    assert!(matches!(property_row(&properties[0], &editing), PropertyRow::Editor));
    assert!(!adds_property(&editing));
    assert!(adds_property(&Some(PropertyEditTarget::NewKey)));
}

#[test]
fn a_value_in_toml_may_hold_a_colon() {
    let source = "+++\nurl = \"http://x\"\n+++";
    let properties = parse_frontmatter_properties(source);
    assert_eq!(properties.len(), 1);
    assert_eq!(properties[0].key, "url");
    assert_eq!(properties[0].value_span, 9..20);
    assert_eq!(scalar(&properties[0]), "http://x");
    // A line with a colon first is split there.
    let properties = parse_frontmatter_properties("+++\nkey: a=b\n+++");
    assert_eq!((properties[0].key.as_str(), scalar(&properties[0])), ("key", "a=b"));
    // In YAML a colon parts the key from the value wherever it stands.
    let properties = parse_frontmatter_properties("---\na=b: c\nd = e\n---");
    assert_eq!((properties[0].key.as_str(), scalar(&properties[0])), ("a=b", "c"));
    assert_eq!((properties[1].key.as_str(), scalar(&properties[1])), ("d", "e"));
}

#[test]
fn a_rewritten_value_in_toml_reads_back() {
    let text = "+++\nurl = x\n+++\n";
    let target = PropertyEditTarget::Value { key: "url".to_string() };
    let edit = commit_active_property(text, 0, 15, &target, "http://y: z").expect("an edit");
    let mut new = text.to_string();
    new.replace_range(edit.range, &edit.text);
    assert_eq!(new, "+++\nurl = http://y: z\n+++\n");
    assert_eq!(scalar(&parse_frontmatter_properties(&new)[0]), "http://y: z");
}

#[test]
fn an_added_property_can_be_edited() {
    for (text, end) in [("---\na: 1\nlist:\n---\n", 16), ("+++\na = 1\n+++\n", 12)] {
        let edit = commit_active_property(text, 0, end, &PropertyEditTarget::NewKey, " due :")
            .expect("an edit");
        assert_eq!(edit.created_key.as_deref(), Some("due"));
        let mut new = text.to_string();
        new.replace_range(edit.range, &edit.text);
        let properties = parse_frontmatter_properties(&new);
        let added = properties.iter().find(|property| property.key == "due").expect("added");
        assert_eq!(scalar(added), "");
        assert_eq!(&new[added.value_span.clone()], " ");
    }
}
