//! The bibliography behind `[@key]` citations: the entries of every `.bib` file of the open
//! projects, the completions and cards that they give, and the keys that none of them has.

use crate::bib_links::{
    check_links, field_named, field_texts, find_field, links_hold, FieldText, ParsedField,
};
use crate::bib_source::{
    abbreviations_end, as_offsets, check_abbreviations, find_longest_name, find_references,
    longest_name, mark_at, reference_starts, unlinked, BibSource, Source, SourceChunk, SourceEntry,
    SourceField,
};
use crate::path::{extension, extension_of};
use crate::text::{
    ascii_digit, found, is_ascii_digit, is_whitespace, join, joined, option_view, push_text,
    same_text, string_of, to_chars, views, white_space,
};
use biblatex::{ChunksExt, Pair, RawBibliography, RawChunk};
use std::collections::HashSet;
use vstd::hash_set::StringHashSet;
use vstd::prelude::*;

verus! {

// ---------------------------------------------------------------------------------------------
// Entries
// ---------------------------------------------------------------------------------------------

/// One entry of a `.bib` file, reduced to what a citation shows of it.
#[derive(Clone, Debug, PartialEq, Eq)]
pub struct BibEntry {
    pub key: String,
    pub title: Option<String>,
    pub authors: Option<String>,
    pub year: Option<String>,
    pub entry_type: String,
}

/// What a [`BibEntry`] holds.
#[verifier::ext_equal]
pub struct Reference {
    pub key: Seq<char>,
    pub title: Option<Seq<char>>,
    pub authors: Option<Seq<char>>,
    pub year: Option<Seq<char>>,
    pub entry_type: Seq<char>,
}

impl View for BibEntry {
    type V = Reference;

    open spec fn view(&self) -> Reference {
        Reference {
            key: self.key@,
            title: option_view(self.title),
            authors: option_view(self.authors),
            year: option_view(self.year),
            entry_type: self.entry_type@,
        }
    }
}

/// What several entries hold.
pub open spec fn references(entries: Seq<BibEntry>) -> Seq<Reference> {
    Seq::new(entries.len(), |i: int| entries[i]@)
}

/// The line of a reference card below its title: the authors and the year, with a comma between
/// them where there are both.
pub open spec fn byline(entry: Reference) -> Seq<char> {
    let authors = match entry.authors {
        Some(authors) => authors,
        None => Seq::empty(),
    };
    match entry.year {
        Some(year) => if authors.len() > 0 {
            authors + ", "@ + year
        } else {
            year
        },
        None => authors,
    }
}

/// A reference as markdown: the title in bold, the authors and the year, and the type of the entry.
/// Nothing where there is neither a title nor a byline.
pub open spec fn card(entry: Reference) -> Option<Seq<char>> {
    let title = match entry.title {
        Some(title) => "**"@ + title + "**"@,
        None => Seq::empty(),
    };
    let line = byline(entry);
    let text = if line.len() == 0 {
        title
    } else if title.len() == 0 {
        line
    } else {
        title + "\n\n"@ + line
    };
    if text.len() == 0 {
        None
    } else {
        Some(text + "\n\n*"@ + entry.entry_type + "*"@)
    }
}

impl BibEntry {
    /// The reference as markdown, for the completion card and the hover card: the title in bold,
    /// the authors and the year, and the type of the entry.
    pub fn reference_markdown(&self) -> (result: Option<String>)
        ensures
            option_view(result) == card(self@),
    {
        let mut text = String::new();
        if let Some(title) = &self.title {
            push_text(&mut text, "**");
            push_text(&mut text, title.as_str());
            push_text(&mut text, "**");
            assert(text@ =~= "**"@ + title@ + "**"@);
        }
        let mut line = String::new();
        if let Some(authors) = &self.authors {
            push_text(&mut line, authors.as_str());
            assert(line@ =~= authors@);
        }
        if let Some(year) = &self.year {
            if !is_empty(line.as_str()) {
                push_text(&mut line, ", ");
            }
            push_text(&mut line, year.as_str());
        }
        assert(line@ =~= byline(self@));
        if !is_empty(line.as_str()) {
            if !is_empty(text.as_str()) {
                push_text(&mut text, "\n\n");
            }
            push_text(&mut text, line.as_str());
        }
        if is_empty(text.as_str()) {
            return None;
        }
        push_text(&mut text, "\n\n*");
        push_text(&mut text, self.entry_type.as_str());
        push_text(&mut text, "*");
        assert(text@ =~= card(self@)->0);
        Some(text)
    }

    /// What a completion shows of the entry: its reference card.
    pub fn documentation(&self) -> (result: Option<String>)
        ensures
            option_view(result) == card(self@),
    {
        self.reference_markdown()
    }
}

fn is_empty(text: &str) -> (result: bool)
    ensures
        result == (text@.len() == 0),
{
    to_chars(text).len() == 0
}

// ---------------------------------------------------------------------------------------------
// Reading a source
// ---------------------------------------------------------------------------------------------

/// A person as a source names them.
#[derive(Debug)]
pub struct Author {
    pub given_name: String,
    pub name: String,
}

/// What a source says of one entry.
#[derive(Debug)]
pub struct ParsedEntry {
    pub key: String,
    pub title: Option<String>,
    pub authors: Option<Vec<Author>>,
    pub entry_type: String,
    pub fields: Vec<ParsedField>,
}

/// What a [`ParsedEntry`] holds, with the given name and the name of every author.
#[verifier::ext_equal]
pub struct Parsed {
    pub key: Seq<char>,
    pub title: Option<Seq<char>>,
    pub authors: Option<Seq<(Seq<char>, Seq<char>)>>,
    pub entry_type: Seq<char>,
    pub fields: Seq<FieldText>,
}

/// What a list of authors holds.
pub open spec fn people(authors: Seq<Author>) -> Seq<(Seq<char>, Seq<char>)> {
    Seq::new(authors.len(), |i: int| (authors[i].given_name@, authors[i].name@))
}

impl View for ParsedEntry {
    type V = Parsed;

    open spec fn view(&self) -> Parsed {
        Parsed {
            key: self.key@,
            title: option_view(self.title),
            authors: match self.authors {
                Some(authors) => Some(people(authors@)),
                None => None,
            },
            entry_type: self.entry_type@,
            fields: field_texts(self.fields@),
        }
    }
}

/// Where the word that holds index `i` ends.
pub open spec fn word_end(s: Seq<char>, i: int) -> int
    decreases s.len() - i,
{
    if i >= s.len() || white_space(s[i]) {
        i
    } else {
        word_end(s, i + 1)
    }
}

/// The words of a text from index `i` on: its runs of characters that are not white space.
pub open spec fn words_from(s: Seq<char>, i: int) -> Seq<Seq<char>>
    decreases s.len() - i,
{
    if i >= s.len() {
        Seq::empty()
    } else if white_space(s[i]) {
        words_from(s, i + 1)
    } else {
        let end = word_end(s, i);
        if i < end <= s.len() {
            seq![s.subrange(i, end)] + words_from(s, end)
        } else {
            Seq::empty()
        }
    }
}

/// A text on one line: its words with a blank between each two.
pub open spec fn collapsed(s: Seq<char>) -> Seq<char> {
    join(words_from(s, 0), " "@)
}

/// Whether four digits stand from index `i` on.
pub open spec fn year_at(s: Seq<char>, i: int) -> bool {
    0 <= i && i + 4 <= s.len() && forall|k: int| i <= k < i + 4 ==> ascii_digit(#[trigger] s[k])
}

/// The first four digits in a row from index `i` on.
pub open spec fn year_from(s: Seq<char>, i: int) -> Option<Seq<char>>
    decreases s.len() - i,
{
    if i >= s.len() {
        None
    } else if year_at(s, i) {
        Some(s.subrange(i, i + 4))
    } else {
        year_from(s, i + 1)
    }
}

/// A person's name in the order it is read.
pub open spec fn full_name(person: (Seq<char>, Seq<char>)) -> Seq<char> {
    if person.0.len() > 0 {
        person.0 + " "@ + person.1
    } else {
        person.1
    }
}

/// The names of several people.
pub open spec fn full_names(authors: Seq<(Seq<char>, Seq<char>)>) -> Seq<Seq<char>> {
    Seq::new(authors.len(), |i: int| full_name(authors[i]))
}

/// The text where it has one character or more.
pub open spec fn unless_empty(text: Seq<char>) -> Option<Seq<char>> {
    if text.len() > 0 {
        Some(text)
    } else {
        None
    }
}

/// What is shown of an entry: its title on one line, its authors with commas between them, and the
/// first year in its `year` field, or in its `date` field where it has no `year`.
pub open spec fn reduced(entry: Parsed) -> Reference {
    Reference {
        key: entry.key,
        title: match entry.title {
            Some(title) => unless_empty(collapsed(title)),
            None => None,
        },
        authors: match entry.authors {
            Some(authors) => unless_empty(join(full_names(authors), ", "@)),
            None => None,
        },
        year: match field_named(entry.fields, "year"@, 0) {
            Some(year) => year_from(year.text, 0),
            None => match field_named(entry.fields, "date"@, 0) {
                Some(date) => year_from(date.text, 0),
                None => None,
            },
        },
        entry_type: entry.entry_type,
    }
}

/// What is shown of several entries.
pub open spec fn all_reduced(entries: Seq<Parsed>) -> Seq<Reference> {
    Seq::new(entries.len(), |i: int| reduced(entries[i]))
}

proof fn lemma_word_end(s: Seq<char>, i: int)
    requires
        0 <= i <= s.len(),
    ensures
        i <= word_end(s, i) <= s.len(),
        i < s.len() && !white_space(s[i]) ==> i < word_end(s, i),
    decreases s.len() - i,
{
    if i < s.len() && !white_space(s[i]) {
        lemma_word_end(s, i + 1);
    }
}

/// A text on one line: its words with a blank between each two.
pub fn collapse_whitespace(text: &str) -> (result: String)
    ensures
        result@ == collapsed(text@),
{
    let chars = to_chars(text);
    let s = chars.as_slice();
    let length: usize = s.len();
    let mut words: Vec<String> = Vec::new();
    let mut i: usize = 0;
    assert(views(words@) + words_from(s@, 0) =~= words_from(s@, 0));
    while i < length
        invariant
            length == s@.len(),
            i <= length,
            views(words@) + words_from(s@, i as int) == words_from(s@, 0),
        decreases length - i,
    {
        if is_whitespace(s[i]) {
            i += 1;
        } else {
            let start: usize = i;
            while i < length && !is_whitespace(s[i])
                invariant
                    length == s@.len(),
                    start <= i <= length,
                    word_end(s@, start as int) == word_end(s@, i as int),
                decreases length - i,
            {
                i += 1;
            }
            proof {
                lemma_word_end(s@, start as int);
            }
            let word = string_of(&s[start..i]);
            let ghost before = views(words@);
            words.push(word);
            assert(views(words@) =~= before.push(word@));
            assert(before + words_from(s@, start as int) =~= views(words@) + words_from(
                s@,
                i as int,
            ));
        }
    }
    assert(views(words@) =~= words_from(s@, 0));
    joined(&words, " ")
}

/// The first four digits in a row, so that `2024` and `2024-03-01` both give a year.
pub fn first_year(value: &str) -> (result: Option<String>)
    ensures
        option_view(result) == year_from(value@, 0),
{
    let chars = to_chars(value);
    let s = chars.as_slice();
    let length: usize = s.len();
    let mut start: usize = 0;
    let mut i: usize = 0;
    while i < length
        invariant
            s@ == value@,
            length == s@.len(),
            start <= i <= length,
            i - start < 4,
            forall|k: int| start <= k < i ==> ascii_digit(#[trigger] s@[k]),
            year_from(s@, 0) == year_from(s@, start as int),
        decreases length - i,
    {
        if is_ascii_digit(s[i]) {
            if i - start + 1 == 4 {
                assert(year_at(s@, start as int));
                assert(s@.subrange(start as int, i + 1) =~= s@.subrange(start as int, start + 4));
                return Some(string_of(&s[start..i + 1]));
            }
        } else {
            proof {
                lemma_no_year(s@, start as int, i as int);
            }
            start = i + 1;
        }
        i += 1;
    }
    proof {
        lemma_no_year_at_end(s@, start as int);
    }
    None
}

proof fn lemma_no_year(s: Seq<char>, from: int, i: int)
    requires
        0 <= from <= i < s.len(),
        i - from < 4,
        !ascii_digit(s[i]),
    ensures
        year_from(s, from) == year_from(s, i + 1),
    decreases i - from,
{
    assert(!year_at(s, from)) by {
        if year_at(s, from) {
            assert(ascii_digit(s[i]));
        }
    }
    if from < i {
        lemma_no_year(s, from + 1, i);
    }
}

proof fn lemma_no_year_at_end(s: Seq<char>, from: int)
    requires
        0 <= from <= s.len(),
        s.len() - from < 4,
    ensures
        year_from(s, from) is None,
    decreases s.len() - from,
{
    if from < s.len() {
        lemma_no_year_at_end(s, from + 1);
    }
}

fn author_names(authors: &Vec<Author>) -> (result: String)
    ensures
        result@ == join(full_names(people(authors@)), ", "@),
{
    let mut names: Vec<String> = Vec::new();
    let mut k: usize = 0;
    while k < authors.len()
        invariant
            k <= authors@.len(),
            names@.len() == k,
            forall|m: int|
                0 <= m < k ==> (#[trigger] names@[m])@ == full_name(people(authors@)[m]),
        decreases authors@.len() - k,
    {
        let author = &authors[k];
        assert(people(authors@)[k as int] == (author.given_name@, author.name@));
        let mut name = String::new();
        if !is_empty(author.given_name.as_str()) {
            push_text(&mut name, author.given_name.as_str());
            push_text(&mut name, " ");
        }
        push_text(&mut name, author.name.as_str());
        assert(name@ =~= full_name(people(authors@)[k as int]));
        names.push(name);
        k += 1;
    }
    assert(views(names@) =~= full_names(people(authors@)));
    joined(&names, ", ")
}

/// What is shown of an entry that a source holds: its title on one line, its authors with commas
/// between them, and the first year in its `year` field, or in its `date` field where it has no
/// `year`.
pub fn reduce_entry(entry: &ParsedEntry) -> (result: BibEntry)
    ensures
        result@ == reduced(entry@),
{
    let title = match &entry.title {
        Some(title) => {
            let line = collapse_whitespace(title.as_str());
            if is_empty(line.as_str()) {
                None
            } else {
                Some(line)
            }
        },
        None => None,
    };
    let authors = match &entry.authors {
        Some(authors) => {
            let names = author_names(authors);
            if is_empty(names.as_str()) {
                None
            } else {
                Some(names)
            }
        },
        None => None,
    };
    let year = match find_field(&entry.fields, "year") {
        Some(year) => first_year(year.text.as_str()),
        None => match find_field(&entry.fields, "date") {
            Some(date) => first_year(date.text.as_str()),
            None => None,
        },
    };
    BibEntry {
        key: entry.key.clone(),
        title,
        authors,
        year,
        entry_type: entry.entry_type.clone(),
    }
}

/// What is shown of every entry that a source holds.
pub fn reduce_entries(entries: &Vec<ParsedEntry>) -> (result: Vec<BibEntry>)
    ensures
        references(result@) == all_reduced(parsed(entries@)),
{
    let mut result: Vec<BibEntry> = Vec::new();
    while result.len() < entries.len()
        invariant
            result@.len() <= entries@.len(),
            forall|k: int| 0 <= k < result@.len() ==> (#[trigger] result@[k])@ == reduced(entries@[k]@),
        decreases entries@.len() - result@.len(),
    {
        let entry = reduce_entry(&entries[result.len()]);
        result.push(entry);
    }
    assert(references(result@) =~= all_reduced(parsed(entries@)));
    result
}

/// What a list of parsed entries holds.
pub open spec fn parsed(entries: Seq<ParsedEntry>) -> Seq<Parsed> {
    Seq::new(entries.len(), |i: int| entries[i]@)
}

/// What an optional source holds.
pub open spec fn source_view(source: Option<BibSource>) -> Option<Source> {
    match source {
        Some(source) => Some(source@),
        None => None,
    }
}

/// What optional parsed entries hold.
pub open spec fn parsed_view(entries: Option<Vec<ParsedEntry>>) -> Option<Seq<Parsed>> {
    match entries {
        Some(entries) => Some(parsed(entries@)),
        None => None,
    }
}

/// What `biblatex::RawBibliography::parse` reads of a source, nothing resolved. `None` where the
/// source is malformed.
pub uninterp spec fn written_source(source: Seq<char>) -> Option<Source>;

/// What `biblatex::Bibliography::parse` reads of a source, with everything resolved: of every entry,
/// in the order of the source, its key, what `Entry::title` gives, formatted verbatim, the people of
/// `Entry::author`, the name of its type, and every field with its name in small letters, formatted
/// verbatim, and taken as a list. `None` where the source is malformed.
pub uninterp spec fn resolved_source(source: Seq<char>) -> Option<Seq<Parsed>>;

/// `biblatex::RawBibliography::parse` reads the entries and abbreviations of a source as they are
/// written, which depend on the source alone.
#[verifier::external_body]
fn read_source(source: &str) -> (result: Option<BibSource>)
    ensures
        source_view(result) == written_source(source@),
{
    let raw = RawBibliography::parse(source).ok()?;
    let field = |pair: Pair<'_>| SourceField {
        name: pair.key.v.to_owned(),
        start: pair.key.span.start,
        chunks: pair.value.v.into_iter().map(|chunk| match chunk.v {
            RawChunk::Normal(text) => SourceChunk::Text(text.to_owned()),
            RawChunk::Abbreviation(name) => SourceChunk::Abbreviation(name.to_owned()),
        }).collect(),
    };
    let entries = raw.entries.into_iter().map(|entry| SourceEntry {
        fields: entry.v.fields.into_iter().map(field).collect(),
    }).collect();
    Some(BibSource { entries, abbreviations: raw.abbreviations.into_iter().map(field).collect() })
}

/// Whether resolving a source follows nothing but abbreviations, and each of them to its end.
pub open spec fn is_unlinked(source: Seq<char>) -> bool {
    written_source(source) matches Some(written) ==> abbreviations_end(written)
        && reference_starts(written).len() == 0
}

/// Whether the references of a source, which is written like this, can be followed: with them
/// renamed to names that no field of it has, it is malformed or resolves to entries whose references
/// can be.
pub open spec fn references_hold(source: Seq<char>, written: Source) -> bool {
    let plain = unlinked(source, written);
    &&& is_unlinked(plain)
    &&& resolved_source(plain) matches Some(entries) ==> links_hold(entries, longest_name(written))
}

/// Whether a source is malformed, or every abbreviation and every reference in it can be followed.
pub open spec fn can_be_read(source: Seq<char>) -> bool {
    written_source(source) matches Some(written) ==> abbreviations_end(written) && (
    reference_starts(written).len() > 0 ==> references_hold(source, written))
}

/// `biblatex::Bibliography::parse` reads the entries of a source, which depend on the source alone.
/// It follows every abbreviation and every reference from an entry to another one, does not return
/// where one leads back to where it came from, and panics on some texts in place of a date in an
/// entry that a reference leads to. It finds the same keys, names and texts in a source whose
/// references are renamed. It calls itself once for each step of a chain of references, and follows
/// a reference anew on every path to it, so that the stack and the time it takes grow with the
/// chains; neither is bounded here.
#[verifier::external_body]
fn resolve_source(source: &str) -> (result: Option<Vec<ParsedEntry>>)
    requires
        can_be_read(source@),
    ensures
        parsed_view(result) == resolved_source(source@),
{
    let parsed = biblatex::Bibliography::parse(source).ok()?;
    Some(parsed.into_iter().map(|entry| ParsedEntry {
        title: entry.title().ok().map(ChunksExt::format_verbatim),
        authors: entry.author().ok().map(|people| people.into_iter().map(|person| Author {
            given_name: person.given_name, name: person.name }).collect()),
        entry_type: entry.entry_type.to_string(),
        fields: entry.fields.iter().map(|(name, chunks)| ParsedField {
            name: name.clone(),
            text: chunks.format_verbatim(),
            items: chunks.parse().unwrap_or_default(),
        }).collect(),
        key: entry.key,
    }).collect())
}

/// What is shown of a source's entries. A malformed source has none.
pub open spec fn shown_entries(source: Seq<char>) -> Seq<Reference> {
    match resolved_source(source) {
        Some(entries) => all_reduced(entries),
        None => Seq::empty(),
    }
}

/// What is shown of the entries of a source that can be resolved. A malformed source has none; see
/// [`load_bib`] for telling it from a source without entries.
pub fn parse_bib(source: &str) -> (result: Vec<BibEntry>)
    requires
        can_be_read(source@),
    ensures
        references(result@) == shown_entries(source@),
{
    match resolve_source(source) {
        Some(entries) => reduce_entries(&entries),
        None => {
            let none: Vec<BibEntry> = Vec::new();
            assert(references(none@) =~= Seq::empty());
            none
        },
    }
}

/// Whether the references of a source, which is written like this, can be followed.
fn check_references(source: &str, written: &BibSource, starts: &Vec<usize>) -> (result: bool)
    requires
        as_offsets(starts@) == reference_starts(written@),
        starts@.len() == reference_starts(written@).len(),
    ensures
        result == references_hold(source@, written@),
{
    let marks = find_longest_name(written);
    let plain = string_of(mark_at(source, starts, marks).as_slice());
    let plain_written = read_source(plain.as_str());
    let unlinked = match &plain_written {
        Some(plain_written) => check_abbreviations(plain_written) && find_references(
            plain_written,
        ).len() == 0,
        None => true,
    };
    if !unlinked {
        return false;
    }
    match resolve_source(plain.as_str()) {
        Some(entries) => check_links(&entries, marks),
        None => true,
    }
}

/// Whether a source can be resolved.
fn check_source(source: &str) -> (result: bool)
    ensures
        result == can_be_read(source@),
{
    match read_source(source) {
        Some(written) => {
            let starts = find_references(&written);
            check_abbreviations(&written) && (starts.len() == 0 || check_references(
                source,
                &written,
                &starts,
            ))
        },
        None => true,
    }
}

/// What is shown of a source's entries, where it parses.
pub open spec fn loaded_entries(source: Seq<char>) -> Option<Seq<Reference>> {
    match resolved_source(source) {
        Some(entries) => if can_be_read(source) {
            Some(all_reduced(entries))
        } else {
            None
        },
        None => None,
    }
}

/// What is shown of a source's entries. `None` where it does not parse: it is malformed, or cannot
/// be resolved, since an abbreviation that a field uses, or a reference, leads back to where it came
/// from, or a reference leads to an entry with a date that cannot be taken over.
pub fn load_bib(source: &str) -> (result: Option<Vec<BibEntry>>)
    ensures
        match result {
            Some(entries) => loaded_entries(source@) == Some(references(entries@)),
            None => loaded_entries(source@) is None,
        },
{
    if !check_source(source) {
        return None;
    }
    let entries = parse_bib(source);
    assert(references(entries@).len() == entries@.len());
    if entries.len() == 0 && resolve_source(source).is_none() {
        None
    } else {
        Some(entries)
    }
}

// ---------------------------------------------------------------------------------------------
// The bibliography
// ---------------------------------------------------------------------------------------------

/// The entries of one `.bib` file: those of when it last parsed. One that never did, or that no
/// longer loads, has none.
#[derive(Debug)]
pub struct BibFile {
    pub path: String,
    pub entries: Vec<BibEntry>,
}

/// What a [`BibFile`] holds.
#[verifier::ext_equal]
pub struct File {
    pub path: Seq<char>,
    pub entries: Seq<Reference>,
}

impl View for BibFile {
    type V = File;

    open spec fn view(&self) -> File {
        File { path: self.path@, entries: references(self.entries@) }
    }
}

/// What several files hold.
pub open spec fn files_view(files: Seq<BibFile>) -> Seq<File> {
    Seq::new(files.len(), |i: int| files[i]@)
}

/// What loading a `.bib` file gave: its entries, or none where it does not parse.
#[derive(Debug)]
pub struct LoadedFile {
    pub path: String,
    pub entries: Option<Vec<BibEntry>>,
}

/// What a [`LoadedFile`] holds.
#[verifier::ext_equal]
pub struct Loaded {
    pub path: Seq<char>,
    pub entries: Option<Seq<Reference>>,
}

impl View for LoadedFile {
    type V = Loaded;

    open spec fn view(&self) -> Loaded {
        Loaded {
            path: self.path@,
            entries: match self.entries {
                Some(entries) => Some(references(entries@)),
                None => None,
            },
        }
    }
}

/// What several loads gave.
pub open spec fn loads_view(loaded: Seq<LoadedFile>) -> Seq<Loaded> {
    Seq::new(loaded.len(), |i: int| loaded[i]@)
}

/// What loading the file at a path gave, where `source` is its text. A file that does not load has
/// no entries, which is not the same as one that does not parse.
pub fn load_file(path: String, source: Option<&str>) -> (result: LoadedFile)
    ensures
        result@ == (Loaded {
            path: path@,
            entries: match source {
                Some(source) => loaded_entries(source@),
                None => Some(Seq::empty()),
            },
        }),
{
    let entries = match source {
        Some(source) => load_bib(source),
        None => {
            let none: Vec<BibEntry> = Vec::new();
            assert(references(none@) =~= Seq::empty());
            Some(none)
        },
    };
    LoadedFile { path, entries }
}

/// A file of a worktree: its path within the worktree, and its path on disk.
#[derive(Debug)]
pub struct WorktreeFile {
    pub path: String,
    pub absolute: String,
}

/// The entries of the first `count` files, one file behind the other.
pub open spec fn entries_of(files: Seq<File>, count: int) -> Seq<Reference>
    decreases count,
{
    if count <= 0 {
        Seq::empty()
    } else {
        entries_of(files, count - 1) + files[count - 1].entries
    }
}

/// Every entry of the files.
pub open spec fn all_entries(files: Seq<File>) -> Seq<Reference> {
    entries_of(files, files.len() as int)
}

/// Whether one of the entries has this key.
pub open spec fn has_key(entries: Seq<Reference>, key: Seq<char>) -> bool {
    exists|i: int| 0 <= i < entries.len() && (#[trigger] entries[i]).key == key
}

/// The first entry from index `i` on with this key.
pub open spec fn entry_with(entries: Seq<Reference>, key: Seq<char>, i: int) -> Option<Reference>
    decreases entries.len() - i,
{
    if i < 0 || i >= entries.len() {
        None
    } else if entries[i].key == key {
        Some(entries[i])
    } else {
        entry_with(entries, key, i + 1)
    }
}

/// The file with this path, as its index, from index `i` on.
pub open spec fn file_at(files: Seq<File>, path: Seq<char>, i: int) -> Option<int>
    decreases files.len() - i,
{
    if i < 0 || i >= files.len() {
        None
    } else if files[i].path == path {
        Some(i)
    } else {
        file_at(files, path, i + 1)
    }
}

/// The files with one more, which takes the place of the file with its path.
pub open spec fn with_file(files: Seq<File>, file: File) -> Seq<File> {
    match file_at(files, file.path, 0) {
        Some(i) => files.update(i, file),
        None => files.push(file),
    }
}

/// The files once one was loaded. One that parses takes the place of the file with its path. One
/// that does not leaves what its last parse gave, and has no entries where it never parsed.
pub open spec fn with_loaded(files: Seq<File>, loaded: Loaded) -> Seq<File> {
    match loaded.entries {
        Some(entries) => with_file(files, File { path: loaded.path, entries }),
        None => if file_at(files, loaded.path, 0) is Some {
            files
        } else {
            files.push(File { path: loaded.path, entries: Seq::empty() })
        },
    }
}

/// The files once the first `count` of several were loaded.
pub open spec fn with_files(files: Seq<File>, loaded: Seq<Loaded>, count: int) -> Seq<File>
    decreases count,
{
    if count <= 0 {
        files
    } else {
        with_loaded(with_files(files, loaded, count - 1), loaded[count - 1])
    }
}

/// The files without the one with this path.
pub open spec fn without_file(files: Seq<File>, path: Seq<char>) -> Seq<File> {
    match file_at(files, path, 0) {
        Some(i) => files.remove(i),
        None => files,
    }
}

/// Whether no two files have the same path.
pub open spec fn paths_differ(files: Seq<File>) -> bool {
    forall|i: int, j: int|
        0 <= i < j < files.len() ==> (#[trigger] files[i]).path != (#[trigger] files[j]).path
}

/// Of the first `count` files of a worktree, the paths on disk of those that are named `.bib`.
pub open spec fn bib_paths(files: Seq<WorktreeFile>, count: int) -> Seq<Seq<char>>
    decreases count,
{
    if count <= 0 {
        Seq::empty()
    } else if extension_of(files[count - 1].path@) == Some("bib"@) {
        bib_paths(files, count - 1).push(files[count - 1].absolute@)
    } else {
        bib_paths(files, count - 1)
    }
}

proof fn lemma_file_at(files: Seq<File>, path: Seq<char>, i: int)
    requires
        0 <= i <= files.len(),
    ensures
        match file_at(files, path, i) {
            Some(k) => i <= k < files.len() && files[k].path == path,
            None => forall|k: int| i <= k < files.len() ==> (#[trigger] files[k]).path != path,
        },
    decreases files.len() - i,
{
    if i < files.len() && files[i].path != path {
        lemma_file_at(files, path, i + 1);
    }
}

proof fn lemma_with_file(files: Seq<File>, file: File)
    requires
        paths_differ(files),
    ensures
        paths_differ(with_file(files, file)),
{
    lemma_file_at(files, file.path, 0);
}

proof fn lemma_with_loaded(files: Seq<File>, loaded: Loaded)
    requires
        paths_differ(files),
    ensures
        paths_differ(with_loaded(files, loaded)),
{
    match loaded.entries {
        Some(entries) => {
            lemma_with_file(files, File { path: loaded.path, entries });
        },
        None => {
            lemma_with_file(files, File { path: loaded.path, entries: Seq::empty() });
        },
    }
}

proof fn lemma_without_file(files: Seq<File>, path: Seq<char>)
    requires
        paths_differ(files),
    ensures
        paths_differ(without_file(files, path)),
{
    lemma_file_at(files, path, 0);
    if let Some(i) = file_at(files, path, 0) {
        let rest = files.remove(i);
        assert forall|a: int, b: int| 0 <= a < b < rest.len() implies (#[trigger] rest[a]).path != (
        #[trigger] rest[b]).path by {
            let first = if a < i {
                a
            } else {
                a + 1
            };
            let second = if b < i {
                b
            } else {
                b + 1
            };
            assert(rest[a] == files[first] && rest[b] == files[second]);
        }
    }
}

proof fn lemma_has_key_joined(a: Seq<Reference>, b: Seq<Reference>, key: Seq<char>)
    ensures
        has_key(a + b, key) == (has_key(a, key) || has_key(b, key)),
{
    if has_key(a, key) {
        let i = choose|i: int| 0 <= i < a.len() && (#[trigger] a[i]).key == key;
        assert((a + b)[i].key == key);
    }
    if has_key(b, key) {
        let i = choose|i: int| 0 <= i < b.len() && (#[trigger] b[i]).key == key;
        assert((a + b)[a.len() + i].key == key);
    }
    if has_key(a + b, key) {
        let i = choose|i: int| 0 <= i < (a + b).len() && (#[trigger] (a + b)[i]).key == key;
        if i < a.len() {
            assert(a[i].key == key);
        } else {
            assert(b[i - a.len()].key == key);
        }
    }
}

/// The entries of every `.bib` file of the open projects.
pub struct Bibliography {
    /// The files with their entries, no two with the same path. What was loaded first stays first.
    files: Vec<BibFile>,
    /// The keys of all entries, so that a key is looked up without going through them.
    keys: StringHashSet,
    /// The projects whose worktrees have been searched.
    scanned_projects: HashSet<u64>,
}

impl Bibliography {
    /// What is known of every file.
    pub closed spec fn shelf(&self) -> Seq<File> {
        files_view(self.files@)
    }

    /// The projects whose worktrees have been searched.
    pub closed spec fn scanned(&self) -> Set<u64> {
        self.scanned_projects@
    }

    /// Whether no two files have the same path, and the known keys are those of the entries.
    pub closed spec fn valid(&self) -> bool {
        &&& paths_differ(self.shelf())
        &&& forall|key: Seq<char>|
            #[trigger] self.keys@.contains(key) == has_key(all_entries(self.shelf()), key)
    }

    /// A bibliography without files.
    pub fn new() -> (result: Bibliography)
        ensures
            result.valid(),
            result.shelf() == Seq::<File>::empty(),
            result.scanned() == Set::<u64>::empty(),
    {
        let result = Bibliography {
            files: Vec::new(),
            keys: StringHashSet::new(),
            scanned_projects: HashSet::new(),
        };
        assert(result.shelf() =~= Seq::empty());
        result
    }

    /// Whether there is an entry.
    pub fn has_entries(&self) -> (result: bool)
        requires
            self.valid(),
        ensures
            result == (all_entries(self.shelf()).len() > 0),
    {
        let ghost files = self.shelf();
        let mut i: usize = 0;
        while i < self.files.len()
            invariant
                files == self.shelf(),
                i <= self.files@.len(),
                entries_of(files, i as int).len() == 0,
            decreases self.files@.len() - i,
        {
            assert(files[i as int] == self.files@[i as int]@);
            if self.files[i].entries.len() > 0 {
                proof {
                    lemma_entries_grow(files, i + 1, files.len() as int);
                }
                return true;
            }
            i += 1;
        }
        false
    }

    /// Whether an entry has this key.
    pub fn contains_key(&self, key: &str) -> (result: bool)
        requires
            self.valid(),
        ensures
            result == has_key(all_entries(self.shelf()), key@),
    {
        self.keys.contains(key)
    }

    /// Every entry, one file behind the other.
    pub fn entries(&self) -> (result: Vec<&BibEntry>)
        requires
            self.valid(),
        ensures
            result@.len() == all_entries(self.shelf()).len(),
            forall|i: int|
                0 <= i < result@.len() ==> (#[trigger] result@[i])@ == all_entries(self.shelf())[i],
    {
        let ghost files = self.shelf();
        let mut result: Vec<&BibEntry> = Vec::new();
        let mut i: usize = 0;
        while i < self.files.len()
            invariant
                files == self.shelf(),
                i <= self.files@.len(),
                result@.len() == entries_of(files, i as int).len(),
                forall|m: int|
                    0 <= m < result@.len() ==> (#[trigger] result@[m])@ == entries_of(
                        files,
                        i as int,
                    )[m],
            decreases self.files@.len() - i,
        {
            let file = &self.files[i];
            assert(files[i as int] == file@);
            let ghost before = entries_of(files, i as int);
            let ghost after = entries_of(files, i + 1);
            let mut k: usize = 0;
            while k < file.entries.len()
                invariant
                    k <= file.entries@.len(),
                    after == before + references(file.entries@),
                    result@.len() == before.len() + k,
                    forall|m: int|
                        0 <= m < result@.len() ==> (#[trigger] result@[m])@ == after[m],
                decreases file.entries@.len() - k,
            {
                assert(after[before.len() + k] == file.entries@[k as int]@);
                result.push(&file.entries[k]);
                k += 1;
            }
            i += 1;
        }
        result
    }

    /// The first entry with this key.
    pub fn resolve(&self, key: &str) -> (result: Option<&BibEntry>)
        requires
            self.valid(),
        ensures
            match result {
                Some(entry) => entry_with(all_entries(self.shelf()), key@, 0) == Some(entry@),
                None => entry_with(all_entries(self.shelf()), key@, 0) is None,
            },
    {
        let ghost all = all_entries(self.shelf());
        let entries = self.entries();
        let mut i: usize = 0;
        while i < entries.len()
            invariant
                all == all_entries(self.shelf()),
                i <= entries@.len(),
                entries@.len() == all.len(),
                forall|m: int| 0 <= m < entries@.len() ==> (#[trigger] entries@[m])@ == all[m],
                entry_with(all, key@, 0) == entry_with(all, key@, i as int),
            decreases entries@.len() - i,
        {
            let entry: &BibEntry = entries[i];
            assert(entries@[i as int]@ == all[i as int]);
            if same_text(entry.key.as_str(), key) {
                return Some(entry);
            }
            i += 1;
        }
        None
    }

    fn rebuild_keys(&mut self)
        requires
            paths_differ(old(self).shelf()),
        ensures
            final(self).valid(),
            final(self).shelf() == old(self).shelf(),
            final(self).scanned() == old(self).scanned(),
    {
        let ghost files = self.shelf();
        let mut keys = StringHashSet::new();
        let mut i: usize = 0;
        while i < self.files.len()
            invariant
                files == self.shelf(),
                i <= self.files@.len(),
                forall|key: Seq<char>|
                    #[trigger] keys@.contains(key) == has_key(entries_of(files, i as int), key),
            decreases self.files@.len() - i,
        {
            let file = &self.files[i];
            assert(files[i as int] == file@);
            let ghost before = entries_of(files, i as int);
            let ghost all = references(file.entries@);
            assert(all.take(0) =~= Seq::empty());
            assert(before + all.take(0) =~= before);
            let mut k: usize = 0;
            while k < file.entries.len()
                invariant
                    k <= file.entries@.len(),
                    all == references(file.entries@),
                    forall|key: Seq<char>|
                        #[trigger] keys@.contains(key) == has_key(before + all.take(k as int), key),
                decreases file.entries@.len() - k,
            {
                let ghost known = keys@;
                let key = file.entries[k].key.clone();
                let ghost added = key@;
                keys.insert(key);
                proof {
                    let one = seq![all[k as int]];
                    let so_far = before + all.take(k as int);
                    assert(before + all.take(k + 1) =~= so_far + one);
                    assert(one[0].key == added);
                    assert forall|other: Seq<char>|
                        #[trigger] keys@.contains(other) == has_key(
                            before + all.take(k + 1),
                            other,
                        ) by {
                        lemma_has_key_joined(so_far, one, other);
                        assert(has_key(one, other) == (other == added)) by {
                            if has_key(one, other) {
                                let m = choose|m: int|
                                    0 <= m < one.len() && (#[trigger] one[m]).key == other;
                                assert(m == 0);
                            }
                        }
                        assert(known.contains(other) == has_key(so_far, other));
                    }
                }
                k += 1;
            }
            assert(all.take(all.len() as int) =~= all);
            i += 1;
        }
        self.keys = keys;
        assert(self.shelf() == files);
    }

    /// Notes that a project is open. The first time, returns the paths of its `.bib` files, which
    /// are to be loaded; later, none.
    pub fn ensure_project(&mut self, project: u64, files: &Vec<WorktreeFile>) -> (result: Vec<
        String,
    >)
        requires
            old(self).valid(),
        ensures
            final(self).valid(),
            final(self).shelf() == old(self).shelf(),
            final(self).scanned() == old(self).scanned().insert(project),
            views(result@) == if old(self).scanned().contains(project) {
                Seq::empty()
            } else {
                bib_paths(files@, files@.len() as int)
            },
    {
        broadcast use vstd::std_specs::hash::group_hash_axioms;

        let mut paths: Vec<String> = Vec::new();
        assert(views(paths@) =~= Seq::empty());
        let newly_seen = self.scanned_projects.insert(project);
        assert(self.shelf() == old(self).shelf());
        if !newly_seen {
            return paths;
        }
        let mut i: usize = 0;
        while i < files.len()
            invariant
                i <= files@.len(),
                views(paths@) == bib_paths(files@, i as int),
            decreases files@.len() - i,
        {
            let is_bib = match extension(files[i].path.as_str()) {
                Some(extension) => same_text(extension.as_str(), "bib"),
                None => false,
            };
            if is_bib {
                let ghost before = views(paths@);
                paths.push(files[i].absolute.clone());
                assert(views(paths@) =~= before.push(files@[i as int].absolute@));
            }
            i += 1;
        }
        paths
    }

    fn find_file(&self, path: &str) -> (result: Option<usize>)
        ensures
            found(result) == file_at(self.shelf(), path@, 0),
            result matches Some(i) ==> i < self.files@.len(),
    {
        let ghost files = self.shelf();
        let mut i: usize = 0;
        while i < self.files.len()
            invariant
                files == self.shelf(),
                i <= self.files@.len(),
                file_at(files, path@, 0) == file_at(files, path@, i as int),
            decreases self.files@.len() - i,
        {
            assert(files[i as int] == self.files@[i as int]@);
            if same_text(self.files[i].path.as_str(), path) {
                return Some(i);
            }
            i += 1;
        }
        None
    }

    /// Takes over files that were loaded, in place of those with the same paths. A file that does not
    /// parse keeps the entries of when it last did, so that its citations are not flagged while it
    /// is being edited. Returns whether there were any files, so that what shows the entries is to
    /// be drawn again.
    pub fn reload_paths(&mut self, loaded: Vec<LoadedFile>) -> (result: bool)
        requires
            old(self).valid(),
        ensures
            final(self).valid(),
            final(self).shelf() == with_files(
                old(self).shelf(),
                loads_view(loaded@),
                loaded@.len() as int,
            ),
            final(self).scanned() == old(self).scanned(),
            result == (loaded@.len() > 0),
    {
        if loaded.len() == 0 {
            return false;
        }
        let ghost all = loads_view(loaded@);
        let ghost count = loaded@.len() as int;
        let mut rest = loaded;
        let mut waiting: Vec<LoadedFile> = Vec::new();
        while rest.len() > 0
            invariant
                count == rest@.len() + waiting@.len(),
                all.len() == count,
                forall|k: int| 0 <= k < rest@.len() ==> (#[trigger] rest@[k])@ == all[k],
                forall|k: int|
                    0 <= k < waiting@.len() ==> (#[trigger] waiting@[k])@ == all[count - 1 - k],
            decreases rest@.len(),
        {
            let ghost last = rest@.len() - 1;
            if let Some(file) = rest.pop() {
                assert(file@ == all[last]);
                waiting.push(file);
            }
        }
        while waiting.len() > 0
            invariant
                all.len() == count,
                waiting@.len() <= count,
                forall|k: int|
                    0 <= k < waiting@.len() ==> (#[trigger] waiting@[k])@ == all[count - 1 - k],
                paths_differ(self.shelf()),
                self.shelf() == with_files(old(self).shelf(), all, count - waiting@.len()),
                self.scanned() == old(self).scanned(),
            decreases waiting@.len(),
        {
            let ghost at = count - waiting@.len();
            if let Some(file) = waiting.pop() {
                assert(file@ == all[at]);
                let ghost before = self.shelf();
                let ghost view = file@;
                proof {
                    lemma_with_loaded(before, view);
                }
                let known = self.find_file(file.path.as_str());
                match (known, file.entries) {
                    (Some(i), Some(entries)) => {
                        let parsed = BibFile { path: file.path, entries };
                        self.files.set(i, parsed);
                        assert(self.shelf() =~= before.update(i as int, parsed@));
                    },
                    (Some(_), None) => {},
                    (None, Some(entries)) => {
                        let parsed = BibFile { path: file.path, entries };
                        self.files.push(parsed);
                        assert(self.shelf() =~= before.push(parsed@));
                    },
                    (None, None) => {
                        let unparsed = BibFile { path: file.path, entries: Vec::new() };
                        assert(unparsed@.entries =~= Seq::empty());
                        self.files.push(unparsed);
                        assert(self.shelf() =~= before.push(unparsed@));
                    },
                }
                assert(self.shelf() == with_loaded(before, view));
            }
        }
        self.rebuild_keys();
        true
    }

    /// Forgets a file. Returns whether it was known, so that what shows the entries is to be drawn
    /// again.
    pub fn remove_path(&mut self, path: &str) -> (result: bool)
        requires
            old(self).valid(),
        ensures
            final(self).valid(),
            final(self).shelf() == without_file(old(self).shelf(), path@),
            final(self).scanned() == old(self).scanned(),
            result == (file_at(old(self).shelf(), path@, 0) is Some),
    {
        match self.find_file(path) {
            Some(i) => {
                let ghost before = self.shelf();
                self.files.remove(i);
                assert(self.shelf() =~= before.remove(i as int));
                proof {
                    lemma_without_file(before, path@);
                }
                self.rebuild_keys();
                true
            },
            None => false,
        }
    }
}

proof fn lemma_entries_grow(files: Seq<File>, i: int, j: int)
    requires
        0 <= i <= j,
    ensures
        entries_of(files, i).len() <= entries_of(files, j).len(),
    decreases j - i,
{
    if i < j {
        lemma_entries_grow(files, i, j - 1);
    }
}

} // verus!
