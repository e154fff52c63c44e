//! What is shown of a bibliography's entries, said of the entries as a source gives them.

use crate::bib_links::{field_named, FieldText};
use crate::bibliography::{
    all_reduced, byline, card, collapsed, entry_with, full_names, has_key, reduced, word_end, words_from, year_at,
    year_from, Parsed, Reference,
};
use crate::cite_menu::{distinct, hovered, is_unresolved};
use crate::citation::citation_around;
use crate::bibliography_laws::{is_word, lemma_word_end, lemma_word_of_word, lemma_words_are_words};
use crate::text::{ascii_digit, join, slice_at, white_space};
use vstd::prelude::*;

verus! {

// ---------------------------------------------------------------------------------------------
// Authors
// ---------------------------------------------------------------------------------------------

/// Whether a text names a person: the given name, a blank and the name, or the name alone where
/// there is no given name.
pub open spec fn names_person(text: Seq<char>, given_name: Seq<char>, name: Seq<char>) -> bool {
    if given_name.len() == 0 {
        text == name
    } else {
        text == given_name.push(' ') + name
    }
}

/// The authors of an entry are all its authors, each by given name and name, in their order, with a
/// comma and a blank between each two. Where that is nothing, no authors are shown.
pub proof fn law_every_author_is_named(
    entry: Parsed,
    authors: Seq<(Seq<char>, Seq<char>)>,
    names: Seq<Seq<char>>,
)
    requires
        entry.authors == Some(authors),
        names.len() == authors.len(),
        forall|i: int|
            0 <= i < names.len() ==> names_person(#[trigger] names[i], authors[i].0, authors[i].1),
    ensures
        join(names, seq![',', ' ']).len() > 0 ==> reduced(entry).authors == Some(
            join(names, seq![',', ' ']),
        ),
        join(names, seq![',', ' ']).len() == 0 ==> reduced(entry).authors is None,
{
    reveal_strlit(", ");
    reveal_strlit(" ");
    assert(", "@ =~= seq![',', ' ']);
    let full = full_names(authors);
    assert forall|i: int| 0 <= i < names.len() implies names[i] == #[trigger] full[i] by {
        assert(names_person(names[i], authors[i].0, authors[i].1));
        assert(authors[i].0 + " "@ + authors[i].1 =~= authors[i].0.push(' ') + authors[i].1);
    }
    assert(full =~= names);
}

/// One more author is named behind the others.
pub proof fn law_one_more_author_is_named(
    entry: Parsed,
    more: Parsed,
    authors: Seq<(Seq<char>, Seq<char>)>,
    person: (Seq<char>, Seq<char>),
    name: Seq<char>,
)
    requires
        entry.authors == Some(authors),
        more.authors == Some(authors.push(person)),
        names_person(name, person.0, person.1),
        reduced(entry).authors is Some,
    ensures
        reduced(more).authors == Some(reduced(entry).authors->0 + seq![',', ' '] + name),
{
    reveal_strlit(", ");
    reveal_strlit(" ");
    assert(", "@ =~= seq![',', ' ']);
    let full = full_names(authors);
    let longer = full_names(authors.push(person));
    assert(longer.last() =~= name) by {
        assert(person.0 + " "@ + person.1 =~= person.0.push(' ') + person.1);
    }
    assert(longer.drop_last() =~= full);
    assert(full.len() > 0);
}

// ---------------------------------------------------------------------------------------------
// Titles
// ---------------------------------------------------------------------------------------------

proof fn lemma_words_of_two(x: Seq<char>, c: char, y: Seq<char>, i: int)
    requires
        white_space(c),
        0 <= i <= x.len(),
    ensures
        words_from(x.push(c) + y, i) == words_from(x, i) + words_from(y, 0),
    decreases x.len() - i,
{
    let all = x.push(c) + y;
    if i == x.len() {
        assert(all[i] == c);
        lemma_words_behind(x.push(c), y, 0);
        assert(words_from(all, i) == words_from(all, i + 1));
        assert(words_from(all, i) =~= words_from(x, i) + words_from(y, 0));
    } else {
        assert(all[i] == x[i]);
        if white_space(x[i]) {
            lemma_words_of_two(x, c, y, i + 1);
        } else {
            lemma_word_end(x, i);
            lemma_word_end(all, i);
            let end = word_end(x, i);
            let other = word_end(all, i);
            if other < end {
                assert(all[other] == x[other]);
            } else if end < other {
                assert(all[end] == if end < x.len() {
                    x[end]
                } else {
                    c
                });
            }
            lemma_words_of_two(x, c, y, end);
            assert(all.subrange(i, end) =~= x.subrange(i, end));
            assert(words_from(all, i) =~= words_from(x, i) + words_from(y, 0));
        }
    }
}

proof fn lemma_words_behind(front: Seq<char>, y: Seq<char>, i: int)
    requires
        0 <= i <= y.len(),
    ensures
        words_from(front + y, front.len() + i) == words_from(y, i),
    decreases y.len() - i,
{
    let all = front + y;
    let n = front.len() as int;
    if i < y.len() {
        assert(all[n + i] == y[i]);
        if white_space(y[i]) {
            lemma_words_behind(front, y, i + 1);
        } else {
            lemma_word_end(y, i);
            lemma_word_end(all, n + i);
            let end = word_end(y, i);
            let other = word_end(all, n + i);
            if other < n + end {
                assert(all[other] == y[other - n]);
            } else if n + end < other {
                assert(all[n + end] == y[end]);
            }
            lemma_words_behind(front, y, end);
            assert(all.subrange(n + i, n + end) =~= y.subrange(i, end));
        }
    }
    assert(words_from(all, n + i) =~= words_from(y, i));
}

proof fn lemma_join_of_two(a: Seq<Seq<char>>, b: Seq<Seq<char>>, separator: Seq<char>)
    ensures
        join(a + b, separator) == if a.len() == 0 {
            join(b, separator)
        } else if b.len() == 0 {
            join(a, separator)
        } else {
            join(a, separator) + separator + join(b, separator)
        },
    decreases b.len(),
{
    if a.len() == 0 {
        assert(a + b =~= b);
    } else if b.len() == 0 {
        assert(a + b =~= a);
    } else {
        let shorter = b.drop_last();
        lemma_join_of_two(a, shorter, separator);
        assert((a + b).drop_last() =~= a + shorter);
        assert((a + b).last() == b.last());
        if b.len() == 1 {
            assert(shorter =~= Seq::empty());
            assert(a + shorter =~= a);
        }
        assert(join(a + b, separator) =~= join(a, separator) + separator + join(b, separator));
    }
}

proof fn lemma_joined_words_are_none(words: Seq<Seq<char>>)
    requires
        forall|k: int| 0 <= k < words.len() ==> is_word(#[trigger] words[k]),
    ensures
        (join(words, " "@).len() == 0) == (words.len() == 0),
    decreases words.len(),
{
    if words.len() > 0 {
        assert(is_word(words[words.len() - 1]));
        assert(is_word(words[0]));
    }
}

/// A text on one line: a white space character between two texts turns into one blank, and falls
/// away next to nothing.
pub proof fn law_white_space_turns_into_one_blank(x: Seq<char>, c: char, y: Seq<char>)
    requires
        white_space(c),
    ensures
        collapsed(x.push(c) + y) == if collapsed(x).len() == 0 {
            collapsed(y)
        } else if collapsed(y).len() == 0 {
            collapsed(x)
        } else {
            collapsed(x).push(' ') + collapsed(y)
        },
{
    reveal_strlit(" ");
    lemma_words_of_two(x, c, y, 0);
    lemma_join_of_two(words_from(x, 0), words_from(y, 0), " "@);
    lemma_words_are_words(x, 0);
    lemma_words_are_words(y, 0);
    lemma_joined_words_are_none(words_from(x, 0));
    lemma_joined_words_are_none(words_from(y, 0));
    assert(collapsed(x) + " "@ + collapsed(y) =~= collapsed(x).push(' ') + collapsed(y));
}

/// A text without white space is on one line as it is.
pub proof fn law_a_word_stays(word: Seq<char>)
    requires
        forall|i: int| 0 <= i < word.len() ==> !white_space(#[trigger] word[i]),
    ensures
        collapsed(word) == word,
{
    if word.len() > 0 {
        assert(Seq::<char>::empty() + word =~= word);
        lemma_word_of_word(Seq::empty(), word);
    } else {
        assert(words_from(word, 0) =~= Seq::empty());
        assert(collapsed(word) =~= word);
    }
}

/// The title of an entry is its title on one line, and is left out where nothing is left of it. The
/// key and the type are those of the entry.
pub proof fn law_a_title_is_put_on_one_line(entry: Parsed)
    ensures
        reduced(entry).title == match entry.title {
            Some(title) => if collapsed(title).len() == 0 {
                None
            } else {
                Some(collapsed(title))
            },
            None => None::<Seq<char>>,
        },
        reduced(entry).key == entry.key,
        reduced(entry).entry_type == entry.entry_type,
        entry.authors is None ==> reduced(entry).authors is None,
{
}

/// Every entry of a source is shown, in the order of the source.
pub proof fn law_every_entry_is_shown(entries: Seq<Parsed>, i: int)
    requires
        0 <= i < entries.len(),
    ensures
        all_reduced(entries).len() == entries.len(),
        all_reduced(entries)[i] == reduced(entries[i]),
        all_reduced(entries)[i].key == entries[i].key,
{
}

// ---------------------------------------------------------------------------------------------
// Years
// ---------------------------------------------------------------------------------------------

/// Whether four digits stand in a text from a place on.
pub open spec fn has_four_digits(s: Seq<char>, i: int) -> bool {
    &&& 0 <= i
    &&& i + 4 <= s.len()
    &&& '0' <= s[i] <= '9'
    &&& '0' <= s[i + 1] <= '9'
    &&& '0' <= s[i + 2] <= '9'
    &&& '0' <= s[i + 3] <= '9'
}

proof fn lemma_year_from(s: Seq<char>, i: int)
    requires
        0 <= i,
    ensures
        match year_from(s, i) {
            Some(year) => exists|k: int|
                i <= k && #[trigger] has_four_digits(s, k) && year == s.subrange(k, k + 4)
                    && forall|m: int| i <= m < k ==> !#[trigger] has_four_digits(s, m),
            None => forall|m: int| i <= m ==> !#[trigger] has_four_digits(s, m),
        },
    decreases s.len() - i,
{
    assert(year_at(s, i) == has_four_digits(s, i)) by {
        if has_four_digits(s, i) {
            assert forall|k: int| i <= k < i + 4 implies ascii_digit(#[trigger] s[k]) by {
                assert(k == i || k == i + 1 || k == i + 2 || k == i + 3);
            }
        }
        if year_at(s, i) {
            assert(ascii_digit(s[i]) && ascii_digit(s[i + 1]) && ascii_digit(s[i + 2])
                && ascii_digit(s[i + 3]));
        }
    }
    if i < s.len() && !year_at(s, i) {
        lemma_year_from(s, i + 1);
        if let Some(year) = year_from(s, i) {
            let k = choose|k: int|
                i + 1 <= k && #[trigger] has_four_digits(s, k) && year == s.subrange(k, k + 4)
                    && forall|m: int| i + 1 <= m < k ==> !#[trigger] has_four_digits(s, m);
            assert forall|m: int| i <= m < k implies !#[trigger] has_four_digits(s, m) by {
                if m == i {
                    assert(!has_four_digits(s, i));
                }
            }
        } else {
            assert forall|m: int| i <= m implies !#[trigger] has_four_digits(s, m) by {
                if m == i {
                    assert(!has_four_digits(s, i));
                }
            }
        }
    }
}

proof fn lemma_field_named(fields: Seq<FieldText>, name: Seq<char>, i: int)
    requires
        0 <= i <= fields.len(),
    ensures
        match field_named(fields, name, i) {
            Some(field) => exists|k: int|
                i <= k < fields.len() && #[trigger] fields[k] == field && field.name == name
                    && forall|m: int| i <= m < k ==> (#[trigger] fields[m]).name != name,
            None => forall|m: int| i <= m < fields.len() ==> (#[trigger] fields[m]).name != name,
        },
    decreases fields.len() - i,
{
    if i < fields.len() && fields[i].name != name {
        lemma_field_named(fields, name, i + 1);
        if let Some(field) = field_named(fields, name, i) {
            let k = choose|k: int|
                i + 1 <= k < fields.len() && #[trigger] fields[k] == field && field.name == name
                    && forall|m: int| i + 1 <= m < k ==> (#[trigger] fields[m]).name != name;
            assert(fields[k] == field);
        }
    }
}

/// Whether one field of an entry has this name, and this text.
pub open spec fn has_text(entry: Parsed, name: Seq<char>, text: Seq<char>) -> bool {
    exists|k: int|
        0 <= k < entry.fields.len() && (#[trigger] entry.fields[k]).name == name
            && entry.fields[k].text == text && forall|m: int|
            0 <= m < entry.fields.len() && (#[trigger] entry.fields[m]).name == name ==> m == k
}

/// Whether no field of an entry has this name.
pub open spec fn lacks(entry: Parsed, name: Seq<char>) -> bool {
    forall|m: int| 0 <= m < entry.fields.len() ==> (#[trigger] entry.fields[m]).name != name
}

/// The year of an entry is the first four digits in a row of its `year`, or of its `date` where it
/// has no `year`. It has none where no four digits stand there, or where it has neither field.
pub proof fn law_the_year_is_the_first_four_digits(entry: Parsed, text: Seq<char>)
    ensures
        has_text(entry, "year"@, text) || (lacks(entry, "year"@) && has_text(entry, "date"@, text))
            ==> match reduced(entry).year {
            Some(year) => exists|k: int| #[trigger]
                has_four_digits(text, k) && year == text.subrange(k, k + 4) && forall|m: int|
                    0 <= m < k ==> !#[trigger] has_four_digits(text, m),
            None => forall|m: int| !#[trigger] has_four_digits(text, m),
        },
        lacks(entry, "year"@) && lacks(entry, "date"@) ==> reduced(entry).year is None,
{
    lemma_field_named(entry.fields, "year"@, 0);
    lemma_field_named(entry.fields, "date"@, 0);
    lemma_year_from(text, 0);
    if has_text(entry, "year"@, text) {
        let k = choose|k: int|
            0 <= k < entry.fields.len() && (#[trigger] entry.fields[k]).name == "year"@
                && entry.fields[k].text == text && forall|m: int|
                0 <= m < entry.fields.len() && (#[trigger] entry.fields[m]).name == "year"@ ==> m
                    == k;
        assert(field_named(entry.fields, "year"@, 0) == Some(entry.fields[k]));
    } else if lacks(entry, "year"@) && has_text(entry, "date"@, text) {
        let k = choose|k: int|
            0 <= k < entry.fields.len() && (#[trigger] entry.fields[k]).name == "date"@
                && entry.fields[k].text == text && forall|m: int|
                0 <= m < entry.fields.len() && (#[trigger] entry.fields[m]).name == "date"@ ==> m
                    == k;
        assert(field_named(entry.fields, "date"@, 0) == Some(entry.fields[k]));
        assert(field_named(entry.fields, "year"@, 0) is None);
    }
    assert forall|m: int| m < 0 implies !#[trigger] has_four_digits(text, m) by {
    }
}

// ---------------------------------------------------------------------------------------------
// Cards
// ---------------------------------------------------------------------------------------------

/// The texts of several that are there and not empty, in order.
pub open spec fn present(texts: Seq<Option<Seq<char>>>) -> Seq<Seq<char>>
    decreases texts.len(),
{
    if texts.len() == 0 {
        Seq::empty()
    } else {
        match texts.last() {
            Some(text) => if text.len() > 0 {
                present(texts.drop_last()).push(text)
            } else {
                present(texts.drop_last())
            },
            None => present(texts.drop_last()),
        }
    }
}

/// The card of an entry has a paragraph for its title in bold, one for its authors and its year with
/// a comma between them, and one for its type in italics. What there is not is left out, and there
/// is no card for the type alone. A year, where there is one, is not empty.
pub proof fn law_a_card_shows_what_there_is(entry: Reference)
    requires
        entry.year != Some(Seq::<char>::empty()),
    ensures
        ({
            let title = match entry.title {
                Some(title) => Some(seq!['*', '*'] + title + seq!['*', '*']),
                None => None,
            };
            let line = join(present(seq![entry.authors, entry.year]), seq![',', ' ']);
            let kind = Some(seq!['*'] + entry.entry_type + seq!['*']);
            let paragraphs = present(seq![title, Some(line), kind]);
            card(entry) == if title is None && line.len() == 0 {
                None
            } else {
                Some(join(paragraphs, seq!['\n', '\n']))
            }
        }),
{
    reveal_strlit("**");
    reveal_strlit("*");
    reveal_strlit("\n\n");
    reveal_strlit("\n\n*");
    reveal_strlit(", ");
    assert("**"@ =~= seq!['*', '*']);
    assert("*"@ =~= seq!['*']);
    assert("\n\n"@ =~= seq!['\n', '\n']);
    assert("\n\n*"@ =~= seq!['\n', '\n', '*']);
    assert(", "@ =~= seq![',', ' ']);
    if entry.year != Some(Seq::<char>::empty()) {
        let title = match entry.title {
            Some(title) => Some(seq!['*', '*'] + title + seq!['*', '*']),
            None => None,
        };
        lemma_present_two(entry.authors, entry.year);
        let comma = seq![',', ' '];
        assert(entry.year is Some ==> entry.year->0.len() > 0) by {
            if entry.year is Some && entry.year->0.len() == 0 {
                assert(entry.year->0 =~= Seq::<char>::empty());
            }
        }
        let both = present(seq![entry.authors, entry.year]);
        let line = join(both, comma);
        let has_authors = entry.authors is Some && entry.authors->0.len() > 0;
        if has_authors && entry.year is Some {
            assert(both =~= seq![entry.authors->0, entry.year->0]);
            lemma_join_two(entry.authors->0, entry.year->0, comma);
        } else if has_authors {
            assert(both =~= seq![entry.authors->0]);
        } else if entry.year is Some {
            assert(both =~= seq![entry.year->0]);
        } else {
            assert(both =~= Seq::empty());
        }
        assert(line =~= byline(entry));
        let kind = seq!['*'] + entry.entry_type + seq!['*'];
        lemma_present_three(title, Some(line), Some(kind));
        lemma_present_two(title, Some(line));
        let paragraphs = present(seq![title, Some(line), Some(kind)]);
        let gap = seq!['\n', '\n'];
        if title is Some && line.len() > 0 {
            assert(paragraphs =~= seq![title->0, line, kind]);
            lemma_join_three(title->0, line, kind, gap);
        } else if title is Some {
            assert(paragraphs =~= seq![title->0, kind]);
            lemma_join_two(title->0, kind, gap);
        } else if line.len() > 0 {
            assert(paragraphs =~= seq![line, kind]);
            lemma_join_two(line, kind, gap);
        }
        if title is Some || line.len() > 0 {
            assert(card(entry)->0 =~= join(paragraphs, gap));
        }
    }
}

proof fn lemma_join_two(a: Seq<char>, b: Seq<char>, separator: Seq<char>)
    ensures
        join(seq![a, b], separator) == a + separator + b,
{
    assert(seq![a, b].drop_last() =~= seq![a]);
    reveal_with_fuel(join, 2);
}

proof fn lemma_join_three(a: Seq<char>, b: Seq<char>, c: Seq<char>, separator: Seq<char>)
    ensures
        join(seq![a, b, c], separator) == a + separator + b + separator + c,
{
    assert(seq![a, b, c].drop_last() =~= seq![a, b]);
    lemma_join_two(a, b, separator);
}

proof fn lemma_present_two(a: Option<Seq<char>>, b: Option<Seq<char>>)
    ensures
        present(seq![a, b]) == (if a is Some && a->0.len() > 0 {
            seq![a->0]
        } else {
            Seq::empty()
        }) + (if b is Some && b->0.len() > 0 {
            seq![b->0]
        } else {
            Seq::empty()
        }),
{
    let all = seq![a, b];
    assert(all.drop_last() =~= seq![a]);
    assert(seq![a].drop_last() =~= Seq::empty());
    reveal_with_fuel(present, 3);
    assert(present(all) =~= (if a is Some && a->0.len() > 0 {
        seq![a->0]
    } else {
        Seq::empty()
    }) + (if b is Some && b->0.len() > 0 {
        seq![b->0]
    } else {
        Seq::empty()
    }));
}

proof fn lemma_present_three(a: Option<Seq<char>>, b: Option<Seq<char>>, c: Option<Seq<char>>)
    requires
        c is Some && c->0.len() > 0,
    ensures
        present(seq![a, b, c]) == present(seq![a, b]).push(c->0),
{
    assert(seq![a, b, c].drop_last() =~= seq![a, b]);
}

// ---------------------------------------------------------------------------------------------
// Keys
// ---------------------------------------------------------------------------------------------

/// The completion menu offers, for each key, the entry that the key resolves to.
pub proof fn law_a_completion_is_what_its_key_resolves_to(entries: Seq<Reference>, i: int)
    requires
        0 <= i < distinct(entries, entries.len() as int).len(),
    ensures
        ({
            let offered = distinct(entries, entries.len() as int)[i];
            exists|k: int|
                0 <= k < entries.len() && #[trigger] entries[k] == offered && forall|m: int|
                    0 <= m < k ==> (#[trigger] entries[m]).key != offered.key
        }),
{
    lemma_offered(entries, entries.len() as int, i);
}

proof fn lemma_offered(entries: Seq<Reference>, count: int, i: int)
    requires
        0 <= count <= entries.len(),
        0 <= i < distinct(entries, count).len(),
    ensures
        ({
            let offered = distinct(entries, count)[i];
            exists|k: int|
                0 <= k < count && #[trigger] entries[k] == offered && forall|m: int|
                    0 <= m < k ==> (#[trigger] entries[m]).key != offered.key
        }),
    decreases count,
{
    let before = distinct(entries, count - 1);
    let offered = distinct(entries, count)[i];
    if i < before.len() {
        lemma_offered(entries, count - 1, i);
        let k = choose|k: int|
            0 <= k < count - 1 && #[trigger] entries[k] == offered && forall|m: int|
                0 <= m < k ==> (#[trigger] entries[m]).key != offered.key;
        assert(entries[k] == offered);
    } else {
        let shorter = entries.take(count - 1);
        assert forall|m: int| 0 <= m < count - 1 implies (#[trigger] entries[m]).key
            != offered.key by {
            assert(shorter[m] == entries[m]);
        }
        assert(entries[count - 1] == offered);
    }
}

/// A cite key, as a citation writes it behind its `@`, is unresolved where there are entries and none
/// of them has it.
pub proof fn law_an_unknown_key_is_unresolved(
    s: Seq<char>,
    entries: Seq<Reference>,
    citation: (int, int),
    key: Seq<char>,
)
    requires
        slice_at(s, citation.0, citation.1) == Some(seq!['@'] + key),
    ensures
        is_unresolved(s, entries, citation) == (entries.len() > 0 && forall|i: int|
            0 <= i < entries.len() ==> (#[trigger] entries[i]).key != key),
{
    assert((seq!['@'] + key).skip(1) =~= key);
}

/// Where a citation is found whose key an entry has, hovering over it shows the card of the first
/// such entry, for the whole citation.
pub proof fn law_hovering_shows_the_entry(
    s: Seq<char>,
    i: int,
    entries: Seq<Reference>,
    k: int,
)
    requires
        citation_around(s, i) is Some,
        0 <= k < entries.len(),
        ({
            let (start, end) = citation_around(s, i)->0;
            entries[k].key == s.subrange(start + 1, end)
        }),
        forall|m: int| 0 <= m < k ==> (#[trigger] entries[m]).key != entries[k].key,
        card(entries[k]) is Some,
    ensures
        ({
            let (start, end) = citation_around(s, i)->0;
            hovered(s, i, entries) == Some((start, end, card(entries[k])->0))
        }),
{
    lemma_entry_is(entries, entries[k].key, 0, k);
}

proof fn lemma_entry_is(entries: Seq<Reference>, key: Seq<char>, i: int, k: int)
    requires
        0 <= i <= k < entries.len(),
        entries[k].key == key,
        forall|m: int| 0 <= m < k ==> (#[trigger] entries[m]).key != key,
    ensures
        entry_with(entries, key, i) == Some(entries[k]),
    decreases k - i,
{
    if i < k {
        lemma_entry_is(entries, key, i + 1, k);
    }
}

/// A key resolves to the first entry that has it.
pub proof fn law_a_key_resolves_to_its_first_entry(entries: Seq<Reference>, k: int)
    requires
        0 <= k < entries.len(),
        forall|m: int| 0 <= m < k ==> (#[trigger] entries[m]).key != entries[k].key,
    ensures
        entry_with(entries, entries[k].key, 0) == Some(entries[k]),
        has_key(entries, entries[k].key),
{
    lemma_entry_is(entries, entries[k].key, 0, k);
}

} // verus!
