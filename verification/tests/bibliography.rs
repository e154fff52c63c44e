use suzuri::bib_dates::{check_date, check_month, check_year, finds_open_end};
use suzuri::bib_links::{check_links, ParsedField};
use suzuri::bib_source::{
    check_abbreviations, find_longest_name, find_references, mark_at, marked_name, BibSource,
    SourceChunk, SourceEntry, SourceField,
};
use suzuri::bibliography::{
    collapse_whitespace, first_year, load_bib, load_file, parse_bib, reduce_entry, Author, BibEntry,
    Bibliography, LoadedFile, ParsedEntry, WorktreeFile,
};
use suzuri::chains::{all_chains_end, which_end};
use suzuri::cite_menu::{
    buffer_is_markdown, unresolved_citations, CitationCompletionProvider,
    CitationSemanticsProvider,
};

fn entry(key: &str, title: &str) -> BibEntry {
    BibEntry {
        key: key.to_string(),
        title: Some(title.to_string()),
        authors: None,
        year: None,
        entry_type: "book".to_string(),
    }
}

fn file(path: &str, keys: &[&str]) -> LoadedFile {
    LoadedFile {
        path: path.to_string(),
        entries: Some(keys.iter().map(|key| entry(key, path)).collect()),
    }
}

fn shelf(files: Vec<LoadedFile>) -> Bibliography {
    let mut bibliography = Bibliography::new();
    bibliography.reload_paths(files);
    bibliography
}

#[test]
fn parses_entries_with_display_fields() {
    let entries = parse_bib(
        r#"
@article{smith2020,
  title = {A Study of
           Wrapped Titles},
  author = {Smith, Jane and Doe, John},
  year = {2020},
  journal = {Journal of Tests},
}

@book{knuth1984,
  title = {The {\TeX}book},
  author = {Knuth, Donald E.},
  date = {1984-01-01},
}
"#,
    );
    assert_eq!(entries.len(), 2);
    let smith = entries
        .iter()
        .find(|entry| entry.key.as_str() == "smith2020")
        .expect("smith2020 parsed");
    assert_eq!(
        smith.title.as_deref(),
        Some("A Study of Wrapped Titles"),
        "wrapped title collapses to one line"
    );
    assert_eq!(smith.authors.as_deref(), Some("Jane Smith, John Doe"));
    assert_eq!(smith.year.as_deref(), Some("2020"));
    assert_eq!(smith.entry_type.as_str(), "article");
    let knuth = entries
        .iter()
        .find(|entry| entry.key.as_str() == "knuth1984")
        .expect("knuth1984 parsed");
    assert_eq!(
        knuth.year.as_deref(),
        Some("1984"),
        "date field yields a year"
    );
}

#[test]
fn malformed_bib_parses_to_nothing() {
    assert_eq!(parse_bib("@article{unclosed,"), Vec::new());
    assert_eq!(parse_bib(""), Vec::new());
}

#[test]
fn first_year_finds_four_digit_runs() {
    assert_eq!(first_year("2024"), Some("2024".to_string()));
    assert_eq!(first_year("2024-03-01"), Some("2024".to_string()));
    assert_eq!(first_year("about 1984, maybe"), Some("1984".to_string()));
    assert_eq!(first_year("no digits"), None);
    assert_eq!(first_year("123"), None);
}

#[test]
fn a_year_is_the_first_four_digits_of_a_longer_run() {
    assert_eq!(first_year("v123 20245"), Some("2024".to_string()));
    assert_eq!(first_year("19-84"), None);
    assert_eq!(first_year("in \u{665}\u{666}\u{667}\u{668}"), None);
}

#[test]
fn whitespace_collapses_to_single_blanks() {
    assert_eq!(collapse_whitespace("  a\n\t b  c\u{a0}d "), "a b c d");
    assert_eq!(collapse_whitespace(" \n "), "");
    assert_eq!(collapse_whitespace("a b c d"), "a b c d");
}

fn plain_field(name: &str, text: &str) -> ParsedField {
    ParsedField {
        name: name.to_string(),
        text: text.to_string(),
        items: text.split(", ").map(str::to_string).collect(),
    }
}

#[test]
fn an_entry_is_reduced_to_what_is_shown() {
    let parsed = ParsedEntry {
        key: "k".to_string(),
        title: Some("  ".to_string()),
        authors: Some(vec![
            Author { given_name: String::new(), name: "Plato".to_string() },
            Author { given_name: "Ada".to_string(), name: "Lovelace".to_string() },
        ]),
        entry_type: "misc".to_string(),
        fields: vec![plain_field("date", "1843-10-01"), plain_field("year", "n.d.")],
    };
    let shown = reduce_entry(&parsed);
    assert_eq!(shown.title, None);
    assert_eq!(shown.authors.as_deref(), Some("Plato, Ada Lovelace"));
    // A `year` field without a year does not fall back to the date.
    assert_eq!(shown.year, None);
    let nobody = ParsedEntry {
        authors: Some(vec![Author { given_name: String::new(), name: String::new() }]),
        fields: vec![plain_field("date", "1843-10-01")],
        ..parsed
    };
    let shown = reduce_entry(&nobody);
    assert_eq!(shown.authors, None);
    assert_eq!(shown.year.as_deref(), Some("1843"));
}

#[test]
fn inherited_fields_are_read() {
    let entries = load_bib(
        "@book{whole, title = {All}, author = {Roe, Jane}, year = {1999}}\n\
         @inbook{part, title = {Some}, crossref = {whole}}",
    )
    .expect("the reference ends");
    let part = entries.iter().find(|entry| entry.key == "part").expect("part is read");
    assert_eq!(part.authors.as_deref(), Some("Jane Roe"));
    assert_eq!(part.title.as_deref(), Some("Some"));
}

#[test]
fn chains_of_references_are_followed() {
    let source = "@string{pub = {Press}}\n@string{house = pub # { House}}\n\
                  @mvbook{set, title = {Set}, author = {Roe, Jane}, publisher = house}\n\
                  @book{volume, title = {Volume}, crossref = {set}, month = jan}\n\
                  @inbook{chapter, title = {Chapter}, crossref = {volume}, date = {2001-02}}";
    assert_eq!(load_bib(source).expect("the references end").len(), 3);
}

#[test]
fn a_source_that_refers_in_a_circle_is_not_read() {
    assert!(load_bib("@book{a, crossref = {a}}").is_none());
    assert!(load_bib("@book{a, crossref = {b}}\n@book{b, xdata = {c, a}}").is_none());
    assert!(load_bib("@book{a, ids = {x}, crossref = {x}}").is_none());
    assert!(load_bib("@string{a = b}\n@string{b = a}\n@book{k, title = a}").is_none());
    assert!(load_bib("@book{, crossref = {}}").is_none());
}

#[test]
fn references_are_followed_however_they_are_written() {
    let part = |source: &str| {
        let entries = load_bib(source).expect("the references end");
        let part = entries.into_iter().find(|entry| entry.key == "part").expect("part is read");
        part.authors
    };
    // A name with an escape, with a command, and behind an abbreviation.
    let whole = |key: &str| format!("@book{{{key}, title = {{All}}, author = {{Roe, Jane}}}}\n");
    let source = whole("a_b") + "@inbook{part, crossref = {a\\_b}}";
    assert_eq!(part(&source).as_deref(), Some("Jane Roe"));
    let source = whole("m\u{fc}ller") + "@inbook{part, crossref = {m\\\"uller}}";
    assert_eq!(part(&source).as_deref(), Some("Jane Roe"));
    let source = whole("whole") + "@string{w = {who}}\n@inbook{part, CrossRef = w # {le}}";
    assert_eq!(part(&source).as_deref(), Some("Jane Roe"));
    // A name that no entry goes by leads nowhere.
    assert_eq!(part("@inbook{part, crossref = {\\foo}}"), None);
    // So does one that differs in a hyphen or a blank only.
    assert_eq!(part("@inbook{part, crossref = {p art}}"), None);
}

#[test]
fn further_names_and_lists_are_followed() {
    assert!(load_bib("@book{a, ids = {x, y}}\n@book{b, xdata = {n, y}}").is_some());
    assert!(load_bib("@book{a, ids = {x, y}, xdata = {b}}\n@book{b, xdata = {n, y}}").is_none());
    assert!(load_bib("@string{s = {a}}\n@book{a, crossref = s}").is_none());
    assert!(load_bib("@book{a_b, crossref = {a\\_b}}").is_none());
}

#[test]
fn only_what_is_used_of_the_abbreviations_has_to_end() {
    assert!(load_bib("@string{a = a}\n@book{k, title = {T}}").is_some());
    assert!(load_bib("@string{a = a}\n@string{a = {x}}\n@book{k, title = a}").is_some());
    assert!(load_bib("@string{a = {x}}\n@string{a = a}\n@book{k, title = a}").is_none());
    assert!(load_bib("@string{a = b}\n@string{b = b}\n@book{k, title = a}").is_none());
}

#[test]
fn unrelated_dates_do_not_matter() {
    let others = "@book{c, date = {2019\u{2013}2020}}\n@book{d, year = {- 5}}\n\
                  @book{e, date = {20190X}}\n@book{f, year = {1999}, month = {0}}\n";
    let source = format!("{others}@book{{a, year = {{1999}}}}\n@inbook{{b, crossref = {{a}}}}");
    assert_eq!(load_bib(&source).expect("the dates are not taken over").len(), 6);
}

#[test]
fn dates_that_are_taken_over_can_be_read() {
    let with = |fields: &str| {
        let source = format!("@book{{a, title = {{A}}, {fields}}}\n@inbook{{b, crossref = {{a}}}}");
        load_bib(&source).is_some()
    };
    assert!(with("year = {1999}, month = {12}"));
    assert!(with("year = {1999}, month = {March}"));
    assert!(with("date = {1999-03-01/2001}"));
    assert!(with("date = {19XX}"));
    assert!(with("date = {2019\u{2013}2020}"));
    assert!(with("year = {-500}"));
    assert!(with("year = {1999}, month = {June 12}"));
    assert!(!with("year = {1999}, month = {0}"));
    assert!(!with("year = {1999}, month = {January 999}"));
    assert!(!with("year = {- 5}"));
    assert!(!with("date = {123456X}"));
    assert!(!with("date = {2019-00-XX}"));
    // What is not read does not matter: the year and the month beside a date, a month without a
    // year, a day behind a month where there is a field for it.
    assert!(with("date = {1999}, year = {- 5}, month = {0}"));
    assert!(with("month = {0}"));
    assert!(with("year = {1999}, month = {January 999}, day = {5}"));
    // Numbers beyond ASCII only matter where digits are read.
    assert!(with("date = {2019\u{b2}}"));
    assert!(with("date = {spring \u{bd}}"));
    assert!(with("year = {1999}, month = {\u{ff11}\u{ff12}}"));
    assert!(!with("date = {20\u{b2}}"));
    assert!(!with("date = {2019-\u{b2}}"));
    assert!(!with("year = {1999}, month = {\u{b2}}"));
    // Where nothing is inherited, dates are free.
    assert!(load_bib("@book{a, year = {1999}, month = {January 999}}").is_some());
}

#[test]
fn the_parts_of_a_date_are_judged_by_their_text() {
    let chars = |text: &str| text.chars().collect::<Vec<char>>();
    for date in [
        "", "2019", "19XX", "199x~", "2019-XX", "2019-12-XX", "x", "2019\u{2013}20", "00-XX",
        "2019\u{b2}", "2019-02\u{b2}", "2019-02-03T10:20:30+\u{b9}\u{b9}", "a\u{b2}", "../2019",
    ] {
        assert!(check_date(date), "{date:?}");
    }
    for date in [
        "20190X", " 12345-X", "2019-00-XX", "2019 -- 00 X", "\u{b2}", "- 20\u{b2}", "2019-\u{b2}",
        "2019-02-\u{b2}", "2019-02-03t\u{b2}", "2019-02-03T10:\u{b2}", "2019/\u{b2}", "\u{1d7d8}",
        "2019-02-03T10:20:30+\u{b9}", "2019-02-03T10:20:30-01:\u{b9}",
    ] {
        assert!(!check_date(date), "{date:?}");
    }
    for date in ["2020-02-XX", " 2020 - 04 - xX ~ ", "2020-06-XX?", "2020--09--XX%", "2020-11-xx"] {
        assert!(finds_open_end(&chars(date)) && check_date(date), "{date:?}");
    }
    for date in [
        "2020-01-XX", "2020-12-XX", "2020-XX", "2020-02", "2020-02-X", "2020-02-XXX", "2020-02-XX~~",
        "2020-2-XX", "202-02-XX", "2020-02-XX x",
    ] {
        assert!(!finds_open_end(&chars(date)), "{date:?}");
    }
    for year in ["", "-500", " +5", "- ", "- x", "- 12345", "\u{2013} 5", "1999 - 5"] {
        assert!(check_year(&chars(year)), "{year:?}");
    }
    for year in ["- 5", " +\t1999 BC"] {
        assert!(!check_year(&chars(year)), "{year:?}");
    }
    for month in ["", "1", "12", "10", "March", "June 255", "300", "000", "Jan", "4 - 3", "June300"] {
        assert!(check_month(month, false), "{month:?}");
    }
    for month in ["0", " 00", "0 5", "\u{bd}"] {
        assert!(!check_month(month, false) && !check_month(month, true), "{month:?}");
    }
    for month in ["June 256", "3-1000", "300 999"] {
        assert!(!check_month(month, false) && check_month(month, true), "{month:?}");
    }
}

#[test]
fn a_source_is_judged_by_its_fields() {
    let field = |name: &str, text: &str, is_abbreviation: bool| SourceField {
        name: name.to_string(),
        start: 3,
        chunks: vec![if is_abbreviation {
            SourceChunk::Abbreviation(text.to_string())
        } else {
            SourceChunk::Text(text.to_string())
        }],
    };
    let source = |fields: Vec<SourceField>, abbreviations: Vec<SourceField>| BibSource {
        entries: vec![SourceEntry { fields }],
        abbreviations,
    };
    let own = source(vec![field("t", "s", true)], vec![field("s", "s", true)]);
    assert!(!check_abbreviations(&own));
    let unused = source(vec![field("t", "s", false)], vec![field("s", "s", true)]);
    assert!(check_abbreviations(&unused));
    let linked = source(vec![field("t", "", false), field("XData", "", false)], vec![]);
    assert_eq!(find_references(&linked), [3]);
    assert_eq!(find_longest_name(&linked), 5);
    assert_eq!(marked_name("xdata", 3), "zzzxdata");
    let renamed: String = mark_at("\u{e9} crossref = {x}, xdata = y", &vec![3, 19, 99, 1], 2)
        .into_iter()
        .collect();
    assert_eq!(renamed, "\u{e9} zzcrossref = {x}, zzxdata = y");
    // A field is never taken for a reference on account of its name.
    assert!(load_bib("@book{a, zdata = {a}, zzzzzxdata = {a}}").is_some());
    assert!(load_bib("@book{a, zxdata = {a}}\n@book{b, zcrossref = {b}, xdata = {a}}").is_some());
    assert!(load_bib("@book{a, zxdata = {x}, xdata = {b}}\n@book{b, xdata = {a}}").is_none());
}

#[test]
fn links_are_judged_by_the_names_that_entries_go_by() {
    let typed = |entry_type: &str, key: &str, fields: Vec<ParsedField>| ParsedEntry {
        key: key.to_string(),
        title: None,
        authors: None,
        entry_type: entry_type.to_string(),
        fields,
    };
    let entry = |key: &str, fields: Vec<ParsedField>| typed("book", key, fields);
    let whole = |text: &str| plain_field("zzcrossref", text);
    let list = |text: &str| plain_field("zzxdata", text);
    let check_links = |entries: &Vec<ParsedEntry>| check_links(entries, 2);
    assert!(check_links(&vec![]));
    assert!(check_links(&vec![entry("a", vec![whole("b")]), entry("b", vec![list("c, d")])]));
    assert!(!check_links(&vec![entry("a", vec![whole("b")]), entry("b", vec![list("c, a")])]));
    // A name that two entries go by stands for the later one.
    let further = plain_field("ids", "a, z");
    assert!(check_links(&vec![entry("a", vec![whole("a")]), entry("b", vec![further])]));
    // A reference made of commas is one name.
    assert!(check_links(&vec![entry("a", vec![whole("b, a")])]));
    let bad = || entry("b", vec![plain_field("year", "- 5")]);
    assert!(check_links(&vec![bad(), entry("a", vec![])]));
    assert!(!check_links(&vec![bad(), entry("a", vec![whole("b")])]));
    // Some entries have no use for a date, or only hand it on.
    assert!(check_links(&vec![bad(), typed("misc", "a", vec![whole("b")])]));
    let data = || typed("xdata", "x", vec![list("b")]);
    assert!(check_links(&vec![bad(), data()]));
    assert!(!check_links(&vec![bad(), data(), entry("a", vec![list("x")])]));
    // A month may come together with the year of another entry.
    let month = || entry("b", vec![plain_field("month", "0")]);
    assert!(check_links(&vec![month(), entry("a", vec![whole("b")])]));
    assert!(!check_links(&vec![month(), data(), entry("a", vec![list("x")])]));
    // A date whose last day is none can be taken over once.
    let open = || entry("c", vec![plain_field("date", "2020-02-XX")]);
    let middle = || entry("b", vec![whole("c")]);
    assert!(check_links(&vec![open(), middle()]));
    assert!(!check_links(&vec![open(), middle(), entry("a", vec![whole("b")])]));
}

#[test]
fn a_date_with_an_open_day_is_taken_over_once() {
    let chain = |month: &str| {
        format!(
            "@book{{c, date = {{2020-{month}-XX}}}}\n@book{{b, crossref = {{c}}}}\n\
             @book{{a, crossref = {{b}}}}"
        )
    };
    assert!(load_bib(&chain("02")).is_none());
    assert!(load_bib(&chain("01")).is_some());
    assert!(load_bib("@book{c, date = {2020-02-XX}}\n@book{b, crossref = {c}}").is_some());
    // What is written anew and is no date is only refused.
    let source = "@book{c, year = {2020}, month = {2}, day = {31}}\n@book{b, crossref = {c}}\n\
                  @book{a, crossref = {b}}";
    assert!(load_bib(source).is_some());
    assert!(load_bib(&source.replace("{2}", "{13}")).is_some());
}

#[test]
fn each_chain_is_told_whether_it_ends() {
    assert_eq!(which_end(&vec![vec![1], vec![], vec![2], vec![2, 0]]), [true, true, false, false]);
}

#[test]
fn chains_end_unless_they_come_back() {
    assert!(all_chains_end(&vec![]));
    assert!(all_chains_end(&vec![vec![1, 2], vec![2], vec![]]));
    assert!(!all_chains_end(&vec![vec![1], vec![2], vec![0]]));
    assert!(!all_chains_end(&vec![vec![], vec![1]]));
}

#[test]
fn a_card_holds_what_is_known() {
    let mut book = entry("k", "Title");
    book.authors = Some("Ann".to_string());
    book.year = Some("1999".to_string());
    assert_eq!(
        book.reference_markdown().as_deref(),
        Some("**Title**\n\nAnn, 1999\n\n*book*")
    );
    book.title = None;
    assert_eq!(book.reference_markdown().as_deref(), Some("Ann, 1999\n\n*book*"));
    book.authors = None;
    assert_eq!(book.documentation().as_deref(), Some("1999\n\n*book*"));
    book.year = None;
    assert_eq!(book.reference_markdown(), None);
}

#[test]
fn a_bibliography_knows_the_keys_of_its_files() {
    let mut bibliography = Bibliography::new();
    assert!(!bibliography.has_entries());
    assert!(!bibliography.reload_paths(Vec::new()));
    assert!(bibliography.reload_paths(vec![file("/a.bib", &["x", "y"]), file("/b.bib", &["x"])]));
    assert!(bibliography.has_entries());
    assert!(bibliography.contains_key("y"));
    assert!(!bibliography.contains_key("z"));
    assert_eq!(bibliography.entries().len(), 3);
    // The file that came first wins.
    assert_eq!(bibliography.resolve("x").and_then(|entry| entry.title.as_deref()), Some("/a.bib"));
    assert!(bibliography.resolve("z").is_none());
    assert!(bibliography.reload_paths(vec![file("/a.bib", &[])]));
    assert!(!bibliography.contains_key("y"));
    assert_eq!(bibliography.resolve("x").and_then(|entry| entry.title.as_deref()), Some("/b.bib"));
    assert!(bibliography.remove_path("/b.bib"));
    assert!(!bibliography.remove_path("/b.bib"));
    assert!(!bibliography.contains_key("x"));
    assert!(!bibliography.has_entries());
}

#[test]
fn a_file_that_does_not_parse_keeps_its_entries() {
    let load = |path: &str, source: Option<&str>| load_file(path.to_string(), source);
    let mut bibliography = Bibliography::new();
    bibliography.reload_paths(vec![
        load("/a.bib", Some("@book{x, title = {X}}")),
        load("/b.bib", Some("@book{y, title = {Y}}")),
        load("/c.bib", Some("@book{z, title = ")),
    ]);
    assert!(bibliography.contains_key("x") && bibliography.contains_key("y"));
    assert!(!bibliography.contains_key("z"));
    // In the middle of an edit, and where a reference leads back.
    for broken in ["@book{x, title = {X}", "@book{x, title = {X}, crossref = {x}}"] {
        assert!(load("/a.bib", Some(broken)).entries.is_none());
        assert!(bibliography.reload_paths(vec![load("/a.bib", Some(broken))]));
        assert!(bibliography.contains_key("x") && bibliography.contains_key("y"));
        assert_eq!(bibliography.entries().len(), 2);
    }
    bibliography.reload_paths(vec![load("/a.bib", Some("@book{w, title = {W}}"))]);
    assert!(bibliography.contains_key("w") && !bibliography.contains_key("x"));
    // A file without entries parses, and one that does not load has none.
    bibliography.reload_paths(vec![load("/a.bib", Some("nothing here"))]);
    assert!(!bibliography.contains_key("w"));
    bibliography.reload_paths(vec![load("/b.bib", None)]);
    assert!(!bibliography.has_entries());
    assert!(load_bib("@book{x, title = ").is_none());
    assert!(load_bib("nothing here").expect("it parses").is_empty());
}

#[test]
fn a_project_is_searched_once() {
    let files = vec![
        WorktreeFile { path: "refs.bib".to_string(), absolute: "/v/refs.bib".to_string() },
        WorktreeFile { path: "note.md".to_string(), absolute: "/v/note.md".to_string() },
        WorktreeFile { path: "x/more.bib".to_string(), absolute: "/v/x/more.bib".to_string() },
        WorktreeFile { path: "old.BIB".to_string(), absolute: "/v/old.BIB".to_string() },
        WorktreeFile { path: ".bib".to_string(), absolute: "/v/.bib".to_string() },
    ];
    let mut bibliography = Bibliography::new();
    assert_eq!(bibliography.ensure_project(7, &files), ["/v/refs.bib", "/v/x/more.bib"]);
    assert!(bibliography.ensure_project(7, &files).is_empty());
    assert_eq!(bibliography.ensure_project(8, &files).len(), 2);
}

#[test]
fn the_menu_has_one_row_per_key() {
    let bibliography = shelf(vec![file("/a.bib", &["x", "y"]), file("/b.bib", &["y", "z"])]);
    let provider = CitationCompletionProvider::new(&bibliography);
    let text = "see [@sm";
    let rows = provider.completions(text, text.len(), true).expect("a citation");
    let keys: Vec<&str> = rows.iter().map(|row| row.new_text.as_str()).collect();
    assert_eq!(keys, ["x", "y", "z"]);
    assert_eq!(rows[0].replace_range, 6..8);
    assert_eq!(rows[1].documentation.as_deref(), Some("**/a.bib**\n\n*book*"));
    assert!(provider.completions(text, text.len(), false).is_none());
    assert!(provider.completions("mail a@b", 8, true).is_none());
    let empty = Bibliography::new();
    let provider = CitationCompletionProvider::new(&empty);
    assert!(provider.completions(text, text.len(), true).is_none());
}

#[test]
fn an_at_sign_opens_the_menu() {
    let bibliography = shelf(vec![file("/a.bib", &["x"])]);
    let provider = CitationCompletionProvider::new(&bibliography);
    assert!(provider.is_completion_trigger("@", true));
    assert!(!provider.is_completion_trigger("@", false));
    assert!(!provider.is_completion_trigger("@x", true));
    let empty = Bibliography::new();
    assert!(!CitationCompletionProvider::new(&empty).is_completion_trigger("@", true));
}

#[test]
fn hovering_a_key_shows_its_card() {
    let bibliography = shelf(vec![file("/a.bib", &["x1"])]);
    let provider = CitationSemanticsProvider::new(&bibliography);
    let text = "as [@x1, p. 3] says";
    assert_eq!(
        provider.hover(text, 6, true),
        Some((4..7, "**/a.bib**\n\n*book*".to_string()))
    );
    assert_eq!(provider.hover(text, 6, false), None);
    assert_eq!(provider.hover(text, 1, true), None);
    assert_eq!(provider.hover("[@y]", 3, true), None);
}

#[test]
fn keys_without_an_entry_are_flagged() {
    let bibliography = shelf(vec![file("/a.bib", &["x"])]);
    let text = "é [@x; @y]";
    let citations = vec![4..6, 8..10, 1..2];
    assert_eq!(unresolved_citations(text, &citations, &bibliography), vec![8..10]);
    // Without entries, nothing is flagged.
    assert!(unresolved_citations(text, &citations, &Bibliography::new()).is_empty());
}

#[test]
fn markdown_is_told_by_its_name() {
    assert!(buffer_is_markdown(Some("Markdown")));
    assert!(!buffer_is_markdown(Some("Markdown-Inline")));
    assert!(!buffer_is_markdown(None));
}
