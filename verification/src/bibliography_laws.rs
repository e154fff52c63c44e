//! What holds of a bibliography through every change to it, and of what it shows.

use crate::bibliography::{
    all_entries, collapsed, entries_of, entry_with, file_at, has_key, paths_differ, with_file,
    with_loaded, without_file, word_end, words_from, File, Loaded, Reference,
};
use crate::cite_menu::{distinct, is_unresolved, unresolved};
use crate::highlights::apart_from;
use crate::text::{join, white_space};
use vstd::prelude::*;

verus! {

proof fn lemma_entry_with(entries: Seq<Reference>, key: Seq<char>, i: int)
    requires
        0 <= i <= entries.len(),
    ensures
        entry_with(entries, key, i) is Some == exists|k: int|
            i <= k < entries.len() && (#[trigger] entries[k]).key == key,
        entry_with(entries, key, i) matches Some(entry) ==> entry.key == key && entries.contains(
            entry,
        ),
    decreases entries.len() - i,
{
    if i < entries.len() && entries[i].key != key {
        lemma_entry_with(entries, key, i + 1);
    }
}

/// A key is known exactly where it resolves to an entry, and the entry has that key.
pub proof fn law_a_known_key_resolves(files: Seq<File>, key: Seq<char>)
    ensures
        has_key(all_entries(files), key) == (entry_with(all_entries(files), key, 0) is Some),
        entry_with(all_entries(files), key, 0) matches Some(entry) ==> entry.key == key
            && all_entries(files).contains(entry),
{
    lemma_entry_with(all_entries(files), key, 0);
}

pub(crate) proof fn lemma_file_at(files: Seq<File>, path: Seq<char>, i: int)
    requires
        0 <= i <= files.len(),
    ensures
        match file_at(files, path, i) {
            Some(k) => i <= k < files.len() && files[k].path == path && forall|m: int|
                i <= m < k ==> (#[trigger] files[m]).path != path,
            None => forall|m: int| i <= m < files.len() ==> (#[trigger] files[m]).path != path,
        },
    decreases files.len() - i,
{
    if i < files.len() && files[i].path != path {
        lemma_file_at(files, path, i + 1);
    }
}

/// Where the file with a path stands, given that none before it has that path.
pub(crate) proof fn lemma_file_is_at(files: Seq<File>, path: Seq<char>, i: int, k: int)
    requires
        0 <= i <= k < files.len(),
        files[k].path == path,
        forall|m: int| i <= m < k ==> (#[trigger] files[m]).path != path,
    ensures
        file_at(files, path, i) == Some(k),
    decreases k - i,
{
    if i < k {
        lemma_file_is_at(files, path, i + 1, k);
    }
}

/// Loading a file once more, where it parses, replaces what the first load gave.
pub proof fn law_a_later_load_replaces_an_earlier_one(files: Seq<File>, first: File, second: File)
    requires
        first.path == second.path,
    ensures
        with_file(with_file(files, first), second) == with_file(files, second),
{
    lemma_file_at(files, first.path, 0);
    match file_at(files, first.path, 0) {
        Some(i) => {
            lemma_file_is_at(files.update(i, first), first.path, 0, i);
            assert(files.update(i, first).update(i, second) =~= files.update(i, second));
        },
        None => {
            lemma_file_is_at(files.push(first), first.path, 0, files.len() as int);
            assert(files.push(first).update(files.len() as int, second) =~= files.push(second));
        },
    }
}

/// A file that is loaded and does not parse changes no entry: those of when it last parsed stay, and
/// so do those of every other file.
pub proof fn law_a_file_that_does_not_parse_keeps_its_entries(
    files: Seq<File>,
    loaded: Loaded,
    key: Seq<char>,
)
    requires
        loaded.entries is None,
    ensures
        all_entries(with_loaded(files, loaded)) == all_entries(files),
        has_key(all_entries(with_loaded(files, loaded)), key) == has_key(all_entries(files), key),
        file_at(files, loaded.path, 0) is Some ==> with_loaded(files, loaded) == files,
{
    if file_at(files, loaded.path, 0) is None {
        let file = File { path: loaded.path, entries: Seq::empty() };
        let after = files.push(file);
        lemma_entries_of_front(files, file, files.len() as int);
        assert(all_entries(after) =~= all_entries(files));
    }
}

proof fn lemma_entries_of_front(files: Seq<File>, file: File, count: int)
    requires
        0 <= count <= files.len(),
    ensures
        entries_of(files.push(file), count) == entries_of(files, count),
    decreases count,
{
    if count > 0 {
        lemma_entries_of_front(files, file, count - 1);
    }
}

/// A file that is loaded and parses has the entries that it was loaded with, and none where it was
/// loaded without any, as one that is gone is. Every other file keeps its own.
pub proof fn law_a_file_that_parses_has_its_entries(
    files: Seq<File>,
    loaded: Loaded,
    other: Seq<char>,
)
    requires
        loaded.entries is Some,
    ensures
        ({
            let after = with_loaded(files, loaded);
            &&& file_at(after, loaded.path, 0) matches Some(i) && after[i].entries
                == loaded.entries->0
            &&& other != loaded.path ==> file_at(after, other, 0) == file_at(files, other, 0)
                && (file_at(files, other, 0) matches Some(i) ==> after[i] == files[i])
        }),
{
    let file = File { path: loaded.path, entries: loaded.entries->0 };
    lemma_file_at(files, file.path, 0);
    lemma_file_at(files, other, 0);
    let after = with_file(files, file);
    match file_at(files, file.path, 0) {
        Some(i) => {
            lemma_file_is_at(after, file.path, 0, i);
        },
        None => {
            lemma_file_is_at(after, file.path, 0, files.len() as int);
        },
    }
    if other != file.path {
        match file_at(files, other, 0) {
            Some(k) => {
                lemma_file_is_at(after, other, 0, k);
            },
            None => {
                lemma_file_at(after, other, 0);
            },
        }
    }
}

/// Loading a file that does not parse, behind a load that did, leaves what that load gave.
pub proof fn law_a_broken_file_shows_its_last_parse(
    files: Seq<File>,
    parsed: Loaded,
    broken: Loaded,
)
    requires
        parsed.entries is Some,
        broken.entries is None,
        broken.path == parsed.path,
    ensures
        with_loaded(with_loaded(files, parsed), broken) == with_loaded(files, parsed),
{
    law_a_file_that_parses_has_its_entries(files, parsed, parsed.path);
}

/// Loading a file and forgetting it leaves what forgetting it alone does.
pub proof fn law_forgetting_undoes_loading(files: Seq<File>, file: File)
    ensures
        without_file(with_file(files, file), file.path) == without_file(files, file.path),
{
    lemma_file_at(files, file.path, 0);
    match file_at(files, file.path, 0) {
        Some(i) => {
            lemma_file_is_at(files.update(i, file), file.path, 0, i);
            assert(files.update(i, file).remove(i) =~= files.remove(i));
        },
        None => {
            lemma_file_is_at(files.push(file), file.path, 0, files.len() as int);
            assert(files.push(file).remove(files.len() as int) =~= files);
        },
    }
}

/// A file that was forgotten is not known any more.
pub proof fn law_a_forgotten_file_is_gone(files: Seq<File>, path: Seq<char>)
    requires
        paths_differ(files),
    ensures
        file_at(without_file(files, path), path, 0) is None,
{
    lemma_file_at(files, path, 0);
    let rest = without_file(files, path);
    lemma_file_at(rest, path, 0);
    if let Some(i) = file_at(files, path, 0) {
        if let Some(k) = file_at(rest, path, 0) {
            let there = if k < i {
                k
            } else {
                k + 1
            };
            assert(rest[k] == files[there]);
            assert(files[i].path == files[there].path);
        }
    }
}

proof fn lemma_distinct(entries: Seq<Reference>, count: int)
    requires
        0 <= count <= entries.len(),
    ensures
        forall|i: int|
            0 <= i < distinct(entries, count).len() ==> has_key(
                entries.take(count),
                (#[trigger] distinct(entries, count)[i]).key,
            ),
        forall|i: int|
            0 <= i < count ==> has_key(distinct(entries, count), (#[trigger] entries[i]).key),
        forall|i: int, j: int|
            0 <= i < j < distinct(entries, count).len() ==> (#[trigger] distinct(
                entries,
                count,
            )[i]).key != (#[trigger] distinct(entries, count)[j]).key,
    decreases count,
{
    if count > 0 {
        lemma_distinct(entries, count - 1);
        let before = distinct(entries, count - 1);
        let after = distinct(entries, count);
        let shorter = entries.take(count - 1);
        let longer = entries.take(count);
        let last = entries[count - 1];
        assert forall|i: int| 0 <= i < after.len() implies has_key(
            longer,
            (#[trigger] after[i]).key,
        ) by {
            if i < before.len() {
                assert(after[i] == before[i]);
                let k = choose|k: int|
                    0 <= k < shorter.len() && (#[trigger] shorter[k]).key == before[i].key;
                assert(longer[k].key == before[i].key);
            } else {
                assert(longer[count - 1].key == last.key);
            }
        }
        assert forall|i: int| 0 <= i < count implies has_key(after, (#[trigger] entries[i]).key) by {
            if i < count - 1 {
                let k = choose|k: int|
                    0 <= k < before.len() && (#[trigger] before[k]).key == entries[i].key;
                assert(after[k].key == entries[i].key);
            } else if has_key(shorter, last.key) {
                let m = choose|m: int|
                    0 <= m < shorter.len() && (#[trigger] shorter[m]).key == last.key;
                assert(entries[m].key == last.key);
                let k = choose|k: int|
                    0 <= k < before.len() && (#[trigger] before[k]).key == last.key;
                assert(after[k].key == last.key);
            } else {
                assert(after[before.len() as int].key == last.key);
            }
        }
        assert forall|i: int, j: int| 0 <= i < j < after.len() implies (#[trigger] after[i]).key != (
        #[trigger] after[j]).key by {
            if j < before.len() {
                assert(after[i] == before[i] && after[j] == before[j]);
            } else {
                assert(after[i] == before[i] && after[j] == last);
                assert(has_key(shorter, before[i].key));
            }
        }
    }
}

/// The completion menu has one row for every key: no key twice, and none left out.
pub proof fn law_one_completion_for_every_key(entries: Seq<Reference>, key: Seq<char>)
    ensures
        has_key(distinct(entries, entries.len() as int), key) == has_key(entries, key),
        forall|i: int, j: int|
            0 <= i < j < distinct(entries, entries.len() as int).len() ==> (#[trigger] distinct(
                entries,
                entries.len() as int,
            )[i]).key != (#[trigger] distinct(entries, entries.len() as int)[j]).key,
{
    let shown = distinct(entries, entries.len() as int);
    lemma_distinct(entries, entries.len() as int);
    assert(entries.take(entries.len() as int) =~= entries);
    if has_key(shown, key) {
        let i = choose|i: int| 0 <= i < shown.len() && (#[trigger] shown[i]).key == key;
        assert(has_key(entries, shown[i].key));
    }
    if has_key(entries, key) {
        let i = choose|i: int| 0 <= i < entries.len() && (#[trigger] entries[i]).key == key;
        assert(has_key(shown, entries[i].key));
    }
}

proof fn lemma_unresolved(
    s: Seq<char>,
    entries: Seq<Reference>,
    citations: Seq<(int, int)>,
    count: int,
    citation: (int, int),
)
    requires
        0 <= count <= citations.len(),
    ensures
        unresolved(s, entries, citations, count).contains(citation) == (citations.take(
            count,
        ).contains(citation) && is_unresolved(s, entries, citation)),
    decreases count,
{
    if count > 0 {
        lemma_unresolved(s, entries, citations, count - 1, citation);
        let last = citations[count - 1];
        let before = unresolved(s, entries, citations, count - 1);
        assert(citations.take(count) =~= citations.take(count - 1).push(last));
        lemma_contains_pushed(citations.take(count - 1), last, citation);
        lemma_contains_pushed(before, last, citation);
    }
}

proof fn lemma_contains_pushed(all: Seq<(int, int)>, last: (int, int), range: (int, int))
    ensures
        all.push(last).contains(range) == (all.contains(range) || range == last),
{
    if all.contains(range) {
        let k = choose|k: int| 0 <= k < all.len() && all[k] == range;
        assert(all.push(last)[k] == range);
    }
    if range == last {
        assert(all.push(last)[all.len() as int] == range);
    }
    if all.push(last).contains(range) {
        let k = choose|k: int| 0 <= k < all.push(last).len() && all.push(last)[k] == range;
        if k < all.len() {
            assert(all[k] == range);
        }
    }
}

proof fn lemma_apart_from(
    ranges: Seq<(int, int)>,
    left_out: Seq<(int, int)>,
    count: int,
    range: (int, int),
)
    requires
        0 <= count <= ranges.len(),
    ensures
        apart_from(ranges, left_out, count).contains(range) == (ranges.take(count).contains(range)
            && !left_out.contains(range)),
    decreases count,
{
    if count > 0 {
        lemma_apart_from(ranges, left_out, count - 1, range);
        let last = ranges[count - 1];
        assert(ranges.take(count) =~= ranges.take(count - 1).push(last));
        lemma_contains_pushed(ranges.take(count - 1), last, range);
        lemma_contains_pushed(apart_from(ranges, left_out, count - 1), last, range);
    }
}

/// Every citation of a text is highlighted either as one that resolves or as one that does not, and
/// where there are no entries at all, none is highlighted as one that does not.
pub proof fn law_a_citation_resolves_or_not(
    s: Seq<char>,
    entries: Seq<Reference>,
    citations: Seq<(int, int)>,
    citation: (int, int),
)
    requires
        citations.contains(citation),
    ensures
        ({
            let count = citations.len() as int;
            let flagged = unresolved(s, entries, citations, count);
            &&& flagged.contains(citation) == is_unresolved(s, entries, citation)
            &&& apart_from(citations, flagged, count).contains(citation) == !is_unresolved(
                s,
                entries,
                citation,
            )
            &&& entries.len() == 0 ==> !flagged.contains(citation)
        }),
{
    let count = citations.len() as int;
    assert(citations.take(count) =~= citations);
    lemma_unresolved(s, entries, citations, count, citation);
    lemma_apart_from(citations, unresolved(s, entries, citations, count), count, citation);
}

// ---------------------------------------------------------------------------------------------
// White space
// ---------------------------------------------------------------------------------------------

/// Whether a text is a word: not empty, and without white space.
pub(crate) open spec fn is_word(s: Seq<char>) -> bool {
    s.len() > 0 && forall|i: int| 0 <= i < s.len() ==> !white_space(#[trigger] s[i])
}

pub(crate) proof fn lemma_word_end(s: Seq<char>, i: int)
    requires
        0 <= i <= s.len(),
    ensures
        i <= word_end(s, i) <= s.len(),
        i < s.len() && !white_space(s[i]) ==> i < word_end(s, i),
        forall|k: int| i <= k < word_end(s, i) ==> !white_space(#[trigger] s[k]),
        word_end(s, i) < s.len() ==> white_space(s[word_end(s, i)]),
    decreases s.len() - i,
{
    if i < s.len() && !white_space(s[i]) {
        lemma_word_end(s, i + 1);
    }
}

pub(crate) proof fn lemma_words_are_words(s: Seq<char>, i: int)
    requires
        0 <= i <= s.len(),
    ensures
        forall|k: int| 0 <= k < words_from(s, i).len() ==> is_word(#[trigger] words_from(s, i)[k]),
    decreases s.len() - i,
{
    if i < s.len() {
        if white_space(s[i]) {
            lemma_words_are_words(s, i + 1);
            assert(words_from(s, i) == words_from(s, i + 1));
        } else {
            lemma_word_end(s, i);
            let end = word_end(s, i);
            let rest = words_from(s, end);
            lemma_words_are_words(s, end);
            let all = words_from(s, i);
            assert(all =~= seq![s.subrange(i, end)] + rest);
            assert forall|k: int| 0 <= k < all.len() implies is_word(#[trigger] all[k]) by {
                if k > 0 {
                    assert(all[k] == rest[k - 1]);
                } else {
                    assert forall|m: int| 0 <= m < all[0].len() implies !white_space(
                        #[trigger] all[0][m],
                    ) by {
                        assert(all[0][m] == s[i + m]);
                    }
                }
            }
        }
    }
}

/// A word is its only one.
pub(crate) proof fn lemma_word_of_word(front: Seq<char>, word: Seq<char>)
    requires
        is_word(word),
    ensures
        words_from(front + word, front.len() as int) == seq![word],
{
    let s = front + word;
    let i = front.len() as int;
    assert(s[i] == word[0]);
    lemma_word_end(s, i);
    let end = word_end(s, i);
    if end < s.len() {
        assert(s[end] == word[end - i]);
    }
    assert(end == s.len());
    assert(s.subrange(i, end) =~= word);
    assert(words_from(s, end) =~= Seq::empty());
    assert(words_from(s, i) =~= seq![word]);
}

/// A blank and a word behind a text are one more word.
proof fn lemma_one_more_word(s: Seq<char>, word: Seq<char>, i: int)
    requires
        0 <= i <= s.len(),
        is_word(word),
    ensures
        words_from(s + seq![' '] + word, i) == words_from(s, i).push(word),
    decreases s.len() - i,
{
    let front = s + seq![' '];
    let all = front + word;
    if i == s.len() {
        assert(all[i] == ' ');
        lemma_word_of_word(front, word);
        assert(words_from(all, i) =~= words_from(s, i).push(word));
    } else {
        assert(all[i] == s[i]);
        if white_space(s[i]) {
            lemma_one_more_word(s, word, i + 1);
        } else {
            lemma_word_end(s, i);
            lemma_word_end(all, i);
            let end = word_end(s, i);
            let other = word_end(all, i);
            if other < end {
                assert(all[other] == s[other]);
            } else if end < other {
                assert(all[end] == if end < s.len() {
                    s[end]
                } else {
                    ' '
                });
            }
            lemma_one_more_word(s, word, end);
            assert(all.subrange(i, end) =~= s.subrange(i, end));
            assert(words_from(all, i) =~= words_from(s, i).push(word));
        }
    }
}

proof fn lemma_words_of_joined(words: Seq<Seq<char>>)
    requires
        forall|k: int| 0 <= k < words.len() ==> is_word(#[trigger] words[k]),
    ensures
        words_from(join(words, " "@), 0) == words,
    decreases words.len(),
{
    reveal_strlit(" ");
    assert(" "@ =~= seq![' ']);
    if words.len() == 1 {
        assert(Seq::<char>::empty() + words[0] =~= words[0]);
        lemma_word_of_word(Seq::empty(), words[0]);
        assert(words =~= seq![words[0]]);
    } else if words.len() > 1 {
        let shorter = words.drop_last();
        assert forall|k: int| 0 <= k < shorter.len() implies is_word(#[trigger] shorter[k]) by {
            assert(shorter[k] == words[k]);
        }
        lemma_words_of_joined(shorter);
        assert(is_word(words[words.len() - 1]));
        lemma_one_more_word(join(shorter, " "@), words.last(), 0);
        assert(shorter.push(words.last()) =~= words);
    } else {
        assert(words =~= Seq::empty());
    }
}

/// A text that was put on one line stays as it is.
pub proof fn law_collapsing_is_idempotent(s: Seq<char>)
    ensures
        collapsed(collapsed(s)) == collapsed(s),
{
    lemma_words_are_words(s, 0);
    lemma_words_of_joined(words_from(s, 0));
}

} // verus!
