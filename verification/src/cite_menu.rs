//! What a bibliography adds to an editor: completions of cite keys, cards for the keys under the
//! pointer, and the keys that no entry has.

use crate::bibliography::{
    all_entries, card, entry_with, has_key, BibEntry, Bibliography, Reference,
};
use crate::citation::{citation_around, citation_at, citation_key_at, citation_key_start};
use crate::extract::MARKDOWN;
use crate::text::{
    byte_offset, byte_span, ends_with_char, index_at, is_boundary, lemma_byte_offset_grows,
    option_view, same_text, slice_at, spans, string_of, to_chars, Text,
};
use std::ops::Range;
use vstd::hash_set::StringHashSet;
use vstd::prelude::*;

verus! {

/// Whether a buffer in this language holds markdown.
pub fn buffer_is_markdown(language: Option<&str>) -> (result: bool)
    ensures
        result == match language {
            Some(name) => name@ == MARKDOWN@,
            None => false,
        },
{
    match language {
        Some(name) => same_text(name, MARKDOWN),
        None => false,
    }
}

/// A row of the completion menu, which shows the text that it inserts.
#[derive(Debug)]
pub struct CitationCompletion {
    /// The byte range that the completion replaces: what has been typed of the key.
    pub replace_range: Range<usize>,
    pub new_text: String,
    /// The reference card, as markdown.
    pub documentation: Option<String>,
}

/// Of the first `count` entries, those whose key none before them has.
pub open spec fn distinct(entries: Seq<Reference>, count: int) -> Seq<Reference>
    decreases count,
{
    if count <= 0 {
        Seq::empty()
    } else if has_key(entries.take(count - 1), entries[count - 1].key) {
        distinct(entries, count - 1)
    } else {
        distinct(entries, count - 1).push(entries[count - 1])
    }
}

/// Whether a completion offers an entry for the range from `start` to `end`.
pub open spec fn offers(
    completion: CitationCompletion,
    entry: Reference,
    start: int,
    end: int,
) -> bool {
    &&& completion.replace_range.start == start
    &&& completion.replace_range.end == end
    &&& completion.new_text@ == entry.key
    &&& option_view(completion.documentation) == card(entry)
}

/// Completes cite keys in markdown, and leaves everything else to the provider it stands before.
pub struct CitationCompletionProvider<'a> {
    bibliography: &'a Bibliography,
}

impl<'a> CitationCompletionProvider<'a> {
    /// The bibliography whose keys are completed.
    pub closed spec fn source(&self) -> Bibliography {
        *self.bibliography
    }

    /// A provider of the keys of this bibliography.
    pub fn new(bibliography: &'a Bibliography) -> (result: Self)
        ensures
            result.source() == *bibliography,
    {
        CitationCompletionProvider { bibliography }
    }

    /// The completions at a byte offset of a buffer: in a citation of a markdown text, one for every
    /// key. `None` where the completions are those of the provider behind this one.
    pub fn completions(&self, text: &str, offset: usize, is_markdown: bool) -> (result: Option<
        Vec<CitationCompletion>,
    >)
        requires
            self.source().valid(),
            is_boundary(text@, offset as int),
        ensures
            ({
                let all = all_entries(self.source().shelf());
                let shown = distinct(all, all.len() as int);
                match citation_at(text@, index_at(text@, offset as int)) {
                    Some(at) if is_markdown && all.len() > 0 => result is Some && {
                        let rows = result->0;
                        &&& rows@.len() == shown.len()
                        &&& forall|i: int|
                            0 <= i < rows@.len() ==> offers(
                                #[trigger] rows@[i],
                                shown[i],
                                byte_offset(text@, at + 1) as int,
                                offset as int,
                            )
                    },
                    _ => result is None,
                }
            }),
    {
        if !is_markdown {
            return None;
        }
        let start = match citation_key_start(text, offset) {
            Some(start) => start,
            None => {
                return None;
            },
        };
        if !self.bibliography.has_entries() {
            return None;
        }
        let entries = self.bibliography.entries();
        let ghost all = all_entries(self.source().shelf());
        let mut seen = StringHashSet::new();
        let mut rows: Vec<CitationCompletion> = Vec::new();
        let mut i: usize = 0;
        assert(all.take(0) =~= Seq::empty());
        while i < entries.len()
            invariant
                i <= entries@.len(),
                entries@.len() == all.len(),
                forall|m: int| 0 <= m < entries@.len() ==> (#[trigger] entries@[m])@ == all[m],
                forall|key: Seq<char>|
                    #[trigger] seen@.contains(key) == has_key(all.take(i as int), key),
                rows@.len() == distinct(all, i as int).len(),
                forall|m: int|
                    0 <= m < rows@.len() ==> offers(
                        #[trigger] rows@[m],
                        distinct(all, i as int)[m],
                        start as int,
                        offset as int,
                    ),
            decreases entries@.len() - i,
        {
            let entry: &BibEntry = entries[i];
            assert(entries@[i as int]@ == all[i as int]);
            let ghost known = seen@;
            let is_new = !seen.contains(entry.key.as_str());
            let ghost before = distinct(all, i as int);
            let ghost after = distinct(all, i + 1);
            if is_new {
                seen.insert(entry.key.clone());
                let row = CitationCompletion {
                    replace_range: start..offset,
                    new_text: entry.key.clone(),
                    documentation: entry.documentation(),
                };
                assert(offers(row, entry@, start as int, offset as int));
                rows.push(row);
                assert(after =~= before.push(entry@));
                assert forall|m: int| 0 <= m < rows@.len() implies offers(
                    #[trigger] rows@[m],
                    after[m],
                    start as int,
                    offset as int,
                ) by {
                    if m < before.len() {
                        assert(after[m] == before[m]);
                    }
                }
            }
            proof {
                assert forall|key: Seq<char>|
                    #[trigger] seen@.contains(key) == has_key(all.take(i + 1), key) by {
                    lemma_has_key_taken(all, i as int, key);
                    assert(known.contains(key) == has_key(all.take(i as int), key));
                }
            }
            i += 1;
        }
        Some(rows)
    }

    /// Whether text that was just typed opens the menu of cite keys: it ends with `@`, in markdown,
    /// and there are keys. Otherwise the provider behind this one decides.
    pub fn is_completion_trigger(&self, text: &str, is_markdown: bool) -> (result: bool)
        requires
            self.source().valid(),
        ensures
            result == (ends_with_char(text@, '@') && is_markdown && all_entries(
                self.source().shelf(),
            ).len() > 0),
    {
        let chars = to_chars(text);
        let length: usize = chars.len();
        length > 0 && chars[length - 1] == '@' && is_markdown && self.bibliography.has_entries()
    }
}

proof fn lemma_has_key_taken(all: Seq<Reference>, i: int, key: Seq<char>)
    requires
        0 <= i < all.len(),
    ensures
        has_key(all.take(i + 1), key) == (has_key(all.take(i), key) || all[i].key == key),
{
    let longer = all.take(i + 1);
    let shorter = all.take(i);
    if has_key(longer, key) {
        let k = choose|k: int| 0 <= k < longer.len() && (#[trigger] longer[k]).key == key;
        if k < i {
            assert(shorter[k].key == key);
        }
    }
    if has_key(shorter, key) {
        let k = choose|k: int| 0 <= k < shorter.len() && (#[trigger] shorter[k]).key == key;
        assert(longer[k].key == key);
    }
    if all[i].key == key {
        assert(longer[i].key == key);
    }
}

/// Shows a reference card for a cite key in markdown, and leaves everything else to the provider it
/// stands before.
pub struct CitationSemanticsProvider<'a> {
    bibliography: &'a Bibliography,
}

impl<'a> CitationSemanticsProvider<'a> {
    /// The bibliography whose entries are shown.
    pub closed spec fn source(&self) -> Bibliography {
        *self.bibliography
    }

    /// A provider of the cards of this bibliography.
    pub fn new(bibliography: &'a Bibliography) -> (result: Self)
        ensures
            result.source() == *bibliography,
    {
        CitationSemanticsProvider { bibliography }
    }

    /// The card for the byte offset of a buffer, as markdown, and the byte range it is about: the
    /// reference that the cite key there resolves to. `None` where the card is that of the provider
    /// behind this one.
    pub fn hover(&self, text: &str, offset: usize, is_markdown: bool) -> (result: Option<
        (Range<usize>, String),
    >)
        requires
            self.source().valid(),
            is_boundary(text@, offset as int),
        ensures
            match hovered(
                text@,
                index_at(text@, offset as int),
                all_entries(self.source().shelf()),
            ) {
                Some((start, end, shown)) if is_markdown => result is Some && {
                    let (range, markdown) = result->0;
                    &&& (range.start as int, range.end as int) == byte_span(text@, (start, end))
                    &&& markdown@ == shown
                },
                _ => result is None,
            },
    {
        if !is_markdown {
            return None;
        }
        match citation_key_at(text, offset) {
            Some((range, key)) => match self.bibliography.resolve(key.as_str()) {
                Some(entry) => match entry.reference_markdown() {
                    Some(markdown) => Some((range, markdown)),
                    None => None,
                },
                None => None,
            },
            None => None,
        }
    }
}

/// The citation around index `i`, as an index range, and the card of the entry that it names.
pub open spec fn hovered(s: Seq<char>, i: int, entries: Seq<Reference>) -> Option<
    (int, int, Seq<char>),
> {
    match citation_around(s, i) {
        Some((start, end)) => match entry_with(entries, s.subrange(start + 1, end), 0) {
            Some(entry) => match card(entry) {
                Some(shown) => Some((start, end, shown)),
                None => None,
            },
            None => None,
        },
        None => None,
    }
}

/// Whether a citation, its `@` counted, has a key that no entry has. Without entries there is nothing
/// to resolve a key against, and no key counts as unresolved.
pub open spec fn is_unresolved(s: Seq<char>, entries: Seq<Reference>, citation: (int, int)) -> bool {
    entries.len() > 0 && match slice_at(s, citation.0, citation.1) {
        Some(text) => text.len() > 0 && !has_key(entries, text.skip(1)),
        None => false,
    }
}

/// Of the first `count` citations, those with a key that no entry has.
pub open spec fn unresolved(
    s: Seq<char>,
    entries: Seq<Reference>,
    citations: Seq<(int, int)>,
    count: int,
) -> Seq<(int, int)>
    decreases count,
{
    if count <= 0 {
        Seq::empty()
    } else if is_unresolved(s, entries, citations[count - 1]) {
        unresolved(s, entries, citations, count - 1).push(citations[count - 1])
    } else {
        unresolved(s, entries, citations, count - 1)
    }
}

/// Of the citations of a text, as byte ranges with their `@`, those with a key that no entry of the
/// bibliography has.
pub fn unresolved_citations(
    text: &str,
    citations: &Vec<Range<usize>>,
    bibliography: &Bibliography,
) -> (result: Vec<Range<usize>>)
    requires
        bibliography.valid(),
    ensures
        spans(result@) == unresolved(
            text@,
            all_entries(bibliography.shelf()),
            spans(citations@),
            citations@.len() as int,
        ),
{
    let ghost entries = all_entries(bibliography.shelf());
    let ghost all = spans(citations@);
    let has_entries = bibliography.has_entries();
    let text = Text::new(text);
    let mut result: Vec<Range<usize>> = Vec::new();
    let mut i: usize = 0;
    assert(spans(result@) =~= Seq::empty());
    while i < citations.len()
        invariant
            text.wf(),
            bibliography.valid(),
            entries == all_entries(bibliography.shelf()),
            has_entries == (entries.len() > 0),
            all == spans(citations@),
            i <= citations@.len(),
            spans(result@) == unresolved(text@, entries, all, i as int),
        decreases citations@.len() - i,
    {
        let start: usize = citations[i].start;
        let end: usize = citations[i].end;
        assert(all[i as int] == (start as int, end as int));
        let is_known = match (text.index_of(start), text.index_of(end)) {
            (Some(first), Some(last)) if start <= end => {
                proof {
                    if last < first {
                        lemma_byte_offset_grows(text@, last as int, first as int);
                        assert(start == end);
                    }
                }
                if first < last {
                    let part = text.part(first + 1, last);
                    assert(part@ =~= text@.subrange(first as int, last as int).skip(1));
                    bibliography.contains_key(string_of(part).as_str())
                } else {
                    true
                }
            },
            _ => true,
        };
        assert((has_entries && !is_known) == is_unresolved(text@, entries, all[i as int]));
        if has_entries && !is_known {
            let ghost before = spans(result@);
            result.push(start..end);
            assert(spans(result@) =~= before.push(all[i as int]));
        }
        i += 1;
    }
    result
}

} // verus!
