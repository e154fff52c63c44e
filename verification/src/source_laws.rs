//! Which sources of a bibliography are read, which dates are safe to take over, and which files are
//! loaded.

use crate::bib_dates::{
    date_is_safe, month_is_safe, number_end, part_start, reading_fails, year_is_safe,
};
use crate::bib_links::{field_named, has_lasting_date, has_safe_date, links, links_hold, some_merge};
use crate::bib_source::{
    abbreviation_references, definition_of, field_ends, is_reference, starts_in, starts_of, used,
    used_in, Chunk, Field, RawEntry,
};
use crate::bibliography::{
    all_reduced, bib_paths, can_be_read, file_at, loaded_entries, resolved_source, shown_entries,
    with_files, with_loaded, written_source, File, Loaded, Parsed, WorktreeFile,
};
use crate::bibliography_laws::{
    law_a_file_that_parses_has_its_entries, lemma_file_at, lemma_file_is_at,
};
use crate::chains::{all_end, ends};
use crate::path::extension_of;
use crate::scans::unicode_numeric;
use crate::text::{
    ascii_lowercase, find_char, lemma_find_char, lemma_run_end, run_end, white_space, CharClass,
};
use vstd::prelude::*;

verus! {

// ---------------------------------------------------------------------------------------------
// Sources
// ---------------------------------------------------------------------------------------------

/// Whether a field is written without abbreviations.
pub open spec fn is_spelled_out(field: Field) -> bool {
    forall|c: int| 0 <= c < field.chunks.len() ==> !(#[trigger] field.chunks[c]).is_abbreviation
}

/// Whether an entry refers to no other.
pub open spec fn refers_to_none(entry: RawEntry) -> bool {
    forall|k: int|
        0 <= k < entry.fields.len() ==> {
            let name = ascii_lowercase((#[trigger] entry.fields[k]).name);
            name != "crossref"@ && name != "xdata"@
        }
}

proof fn lemma_none_used(abbreviations: Seq<Field>, chunks: Seq<Chunk>, count: int)
    requires
        0 <= count <= chunks.len(),
        forall|c: int| 0 <= c < chunks.len() ==> !(#[trigger] chunks[c]).is_abbreviation,
    ensures
        used(abbreviations, chunks, count).len() == 0,
    decreases count,
{
    if count > 0 {
        lemma_none_used(abbreviations, chunks, count - 1);
        assert(!chunks[count - 1].is_abbreviation);
    }
}

proof fn lemma_definition(abbreviations: Seq<Field>, name: Seq<char>, count: int)
    requires
        0 <= count <= abbreviations.len(),
    ensures
        definition_of(abbreviations, name, count) matches Some(d) ==> 0 <= d < count,
    decreases count,
{
    if count > 0 {
        lemma_definition(abbreviations, name, count - 1);
    }
}

proof fn lemma_used_bounds(abbreviations: Seq<Field>, chunks: Seq<Chunk>, count: int, k: int)
    requires
        0 <= count <= chunks.len(),
        0 <= k < used(abbreviations, chunks, count).len(),
    ensures
        0 <= used(abbreviations, chunks, count)[k] < abbreviations.len(),
    decreases count,
{
    if count > 0 {
        let before = used(abbreviations, chunks, count - 1);
        lemma_definition(abbreviations, chunks[count - 1].text, abbreviations.len() as int);
        if k < before.len() {
            lemma_used_bounds(abbreviations, chunks, count - 1, k);
        }
    }
}

proof fn lemma_no_starts_in(fields: Seq<Field>, count: int)
    requires
        0 <= count <= fields.len(),
        forall|k: int|
            0 <= k < fields.len() ==> {
                let name = ascii_lowercase((#[trigger] fields[k]).name);
                name != "crossref"@ && name != "xdata"@
            },
    ensures
        starts_in(fields, count).len() == 0,
    decreases count,
{
    if count > 0 {
        lemma_no_starts_in(fields, count - 1);
        let name = ascii_lowercase(fields[count - 1].name);
        assert(name != "crossref"@ && name != "xdata"@);
    }
}

proof fn lemma_no_starts(entries: Seq<RawEntry>, count: int)
    requires
        0 <= count <= entries.len(),
        forall|i: int| 0 <= i < entries.len() ==> refers_to_none(#[trigger] entries[i]),
    ensures
        starts_of(entries, count).len() == 0,
    decreases count,
{
    if count > 0 {
        lemma_no_starts(entries, count - 1);
        assert(refers_to_none(entries[count - 1]));
        let fields = entries[count - 1].fields;
        lemma_no_starts_in(fields, fields.len() as int);
    }
}

/// A source whose entries refer to no others, and whose abbreviations are spelled out, is loaded
/// whenever it parses, with every entry of it.
pub proof fn law_a_source_without_references_is_loaded(source: Seq<char>, entries: Seq<Parsed>)
    requires
        written_source(source) matches Some(written) ==> (forall|i: int|
            0 <= i < written.entries.len() ==> refers_to_none(#[trigger] written.entries[i])) && (
        forall|i: int|
            0 <= i < written.abbreviations.len() ==> is_spelled_out(
                #[trigger] written.abbreviations[i],
            )),
        resolved_source(source) == Some(entries),
    ensures
        loaded_entries(source) == Some(all_reduced(entries)),
        shown_entries(source) == all_reduced(entries),
        can_be_read(source),
{
    if written_source(source) is Some {
        let written = written_source(source)->0;
        let refers = abbreviation_references(written);
        lemma_no_starts(written.entries, written.entries.len() as int);
        assert forall|i: int, k: int|
            0 <= i < written.entries.len() && 0 <= k
                < written.entries[i].fields.len() implies field_ends(
            written,
            #[trigger] written.entries[i].fields[k],
        ) by {
            let field = written.entries[i].fields[k];
            assert forall|n: int| 0 <= n < used_in(written, field).len() implies ends(
                refers,
                #[trigger] used_in(written, field)[n],
                written.abbreviations.len(),
            ) by {
                lemma_used_bounds(
                    written.abbreviations,
                    field.chunks,
                    field.chunks.len() as int,
                    n,
                );
                let d = used_in(written, field)[n];
                let own = written.abbreviations[d];
                assert(is_spelled_out(own));
                lemma_none_used(written.abbreviations, own.chunks, own.chunks.len() as int);
                assert(refers[d].len() == 0);
            }
        }
    }
}

/// A source that does not parse is told from one without entries: nothing is loaded of it, and none
/// of its entries shows.
pub proof fn law_a_malformed_source_has_no_entries(source: Seq<char>)
    requires
        resolved_source(source) is None,
    ensures
        loaded_entries(source) is None,
        shown_entries(source).len() == 0,
{
}

/// Where something is loaded of a source, it is every entry that shows.
pub proof fn law_what_is_loaded_is_what_shows(source: Seq<char>)
    ensures
        loaded_entries(source) matches Some(entries) ==> entries == shown_entries(source)
            && can_be_read(source),
        can_be_read(source) && resolved_source(source) is Some ==> loaded_entries(source) is Some,
{
}

/// A field refers to other entries where it is named `crossref` or `xdata`, in capital or small
/// letters.
pub proof fn law_two_fields_refer_to_others(name: Seq<char>)
    ensures
        is_reference(name) <==> ascii_lowercase(name) == "crossref"@ || ascii_lowercase(name)
            == "xdata"@,
{
}

// ---------------------------------------------------------------------------------------------
// Dates
// ---------------------------------------------------------------------------------------------

proof fn lemma_ascii_reads(s: Seq<char>, i: int, part: int)
    requires
        forall|k: int| 0 <= k < s.len() ==> (#[trigger] s[k]) as u32 <= 0x7f,
        0 <= i <= s.len(),
    ensures
        !reading_fails(s, i, part),
    decreases 8 - part,
{
    if part < 8 && part_start(s, i, part) is Some {
        let from = part_start(s, i, part)->0;
        lemma_part_start(s, i, part);
        let to = number_end(s, from);
        lemma_number_end(s, from);
        lemma_ascii_reads(s, to, part + 1);
    }
}

proof fn lemma_number_end(s: Seq<char>, i: int)
    requires
        0 <= i <= s.len(),
    ensures
        i <= number_end(s, i) <= s.len(),
    decreases s.len() - i,
{
    if i < s.len() && unicode_numeric(s[i]) {
        lemma_number_end(s, i + 1);
    }
}

proof fn lemma_part_start(s: Seq<char>, i: int, part: int)
    requires
        0 <= i <= s.len(),
    ensures
        part_start(s, i, part) matches Some(from) ==> 0 <= from <= s.len(),
{
    let ws = CharClass::Whitespace;
    lemma_run_end(s, ws, i);
    let at = run_end(s, ws, i);
    if at < s.len() {
        lemma_run_end(s, ws, at + 1);
    }
    lemma_run_end(s, ws, at);
    lemma_run_end(s, CharClass::Only('-'), at);
    lemma_run_end(s, ws, run_end(s, CharClass::Only('-'), at));
}

/// A date in ASCII that leaves no digit open is safe, whatever else it is.
pub proof fn law_an_ascii_date_is_safe(s: Seq<char>)
    requires
        forall|k: int|
            0 <= k < s.len() ==> (#[trigger] s[k]) as u32 <= 0x7f && s[k] != 'x' && s[k] != 'X',
    ensures
        date_is_safe(s),
{
    lemma_find_char(s, 'x', 0);
    lemma_find_char(s, 'X', 0);
    lemma_find_char(s, '/', 0);
    lemma_ascii_reads(s, 0, 0);
    if find_char(s, '/', 0) is Some {
        let end = s.skip(find_char(s, '/', 0)->0 + 1);
        assert forall|k: int| 0 <= k < end.len() implies (#[trigger] end[k]) as u32 <= 0x7f by {
            assert(s[k + find_char(s, '/', 0)->0 + 1] as u32 <= 0x7f);
        }
        lemma_ascii_reads(end, 0, 0);
    }
}

/// A date that leaves a digit of its year open is safe.
pub proof fn law_an_open_year_is_safe(digits: Seq<char>, rest: Seq<char>)
    requires
        digits.len() <= 3,
        forall|k: int| 0 <= k < digits.len() ==> '0' <= #[trigger] digits[k] <= '9',
        rest.len() > 0,
        rest[0] == 'x' || rest[0] == 'X',
    ensures
        date_is_safe(digits + rest),
{
    let s = digits + rest;
    let n = digits.len() as int;
    assert(s[n] == rest[0]);
    lemma_find_char(s, 'x', 0);
    lemma_find_char(s, 'X', 0);
    lemma_run_end(s, CharClass::Whitespace, 0);
    let start = run_end(s, CharClass::Whitespace, 0);
    if start > 0 {
        assert(CharClass::Whitespace.holds(s[0]));
        if n > 0 {
            assert(s[0] == digits[0]);
        }
    }
    lemma_run_end(s, CharClass::Digit, 0);
    let year = run_end(s, CharClass::Digit, 0);
    if year > n {
        assert(CharClass::Digit.holds(s[n]));
    }
}

/// A year is safe that starts with neither white space nor a sign, and so is one whose sign has
/// something else than white space behind it.
pub proof fn law_a_plain_year_is_safe(s: Seq<char>)
    requires
        s.len() > 0,
        !white_space(s[0]),
        (s[0] == '-' || s[0] == '+') ==> s.len() > 1 && !white_space(s[1]),
    ensures
        year_is_safe(s),
{
    lemma_run_end(s, CharClass::Whitespace, 0);
    if run_end(s, CharClass::Whitespace, 0) > 0 {
        assert(CharClass::Whitespace.holds(s[0]));
    }
    lemma_run_end(s, CharClass::Whitespace, 1);
    if s.len() > 1 && !white_space(s[1]) && run_end(s, CharClass::Whitespace, 1) > 1 {
        assert(CharClass::Whitespace.holds(s[1]));
    }
}

/// A month that is written as a name is safe.
pub proof fn law_a_month_name_is_safe(s: Seq<char>, has_day: bool)
    requires
        s.len() > 0,
        forall|k: int| 0 <= k < s.len() ==> 'a' <= #[trigger] s[k] <= 'z' || 'A' <= s[k] <= 'Z',
        !unicode_numeric(s[0]),
    ensures
        month_is_safe(s, has_day),
{
    lemma_run_end(s, CharClass::Whitespace, 0);
    let start = run_end(s, CharClass::Whitespace, 0);
    if start > 0 {
        assert(CharClass::Whitespace.holds(s[0]));
    }
    lemma_run_end(s, CharClass::Letter, 0);
    let name = run_end(s, CharClass::Letter, 0);
    if name < s.len() {
        assert(!CharClass::Letter.holds(s[name]));
    }
    lemma_run_end(s, CharClass::DateGap, name);
}

/// References can be followed where each chain of them ends and every date can be taken over.
pub proof fn law_safe_dates_can_be_taken_over(entries: Seq<Parsed>, marks: nat)
    requires
        all_end(links(entries, marks)),
        forall|j: int|
            0 <= j < entries.len() ==> has_safe_date(
                #[trigger] entries[j],
                some_merge(entries, links(entries, marks)),
            ) && has_lasting_date(entries[j]),
        forall|i: int, k: int|
            0 <= i < entries.len() && 0 <= k < links(entries, marks)[i].len() ==> 0
                <= #[trigger] links(entries, marks)[i][k] < entries.len(),
    ensures
        links_hold(entries, marks),
{
}

/// An entry without a date has nothing to take over.
pub proof fn law_an_entry_without_a_date_is_safe(entry: Parsed, merged: bool)
    requires
        field_named(entry.fields, "date"@, 0) is None,
        field_named(entry.fields, "year"@, 0) is None,
        field_named(entry.fields, "month"@, 0) is None,
    ensures
        has_safe_date(entry, merged),
        has_lasting_date(entry),
{
}

// ---------------------------------------------------------------------------------------------
// Files
// ---------------------------------------------------------------------------------------------

/// Every file named `.bib` is loaded, by its path on disk, and no other is.
pub proof fn law_every_bib_file_is_loaded(files: Seq<WorktreeFile>, count: int, path: Seq<char>)
    requires
        0 <= count <= files.len(),
    ensures
        bib_paths(files, count).contains(path) <==> exists|i: int|
            0 <= i < count && (#[trigger] files[i]).absolute@ == path && extension_of(files[i].path@)
                == Some(seq!['b', 'i', 'b']),
    decreases count,
{
    reveal_strlit("bib");
    assert("bib"@ =~= seq!['b', 'i', 'b']);
    if count > 0 {
        law_every_bib_file_is_loaded(files, count - 1, path);
        let before = bib_paths(files, count - 1);
        let after = bib_paths(files, count);
        if before.contains(path) {
            let n = choose|n: int| 0 <= n < before.len() && before[n] == path;
            assert(after[n] == path);
        } else if extension_of(files[count - 1].path@) == Some("bib"@) && files[count - 1].absolute@
            == path {
            assert(after[before.len() as int] == path);
        } else if after.contains(path) {
            let n = choose|n: int| 0 <= n < after.len() && after[n] == path;
            if n < before.len() {
                assert(before[n] == path);
            }
        }
    }
}

proof fn lemma_other_file_stays(files: Seq<File>, loaded: Loaded, path: Seq<char>)
    requires
        path != loaded.path,
        file_at(files, path, 0) is Some,
    ensures
        file_at(with_loaded(files, loaded), path, 0) == file_at(files, path, 0),
        with_loaded(files, loaded)[file_at(files, path, 0)->0] == files[file_at(files, path, 0)->0],
{
    if loaded.entries is Some {
        law_a_file_that_parses_has_its_entries(files, loaded, path);
    } else if file_at(files, loaded.path, 0) is None {
        lemma_file_at(files, path, 0);
        let i = file_at(files, path, 0)->0;
        let after = with_loaded(files, loaded);
        lemma_file_is_at(after, path, 0, i);
    }
    lemma_file_at(files, path, 0);
}

/// Of several files that are loaded, each that parses has its entries in the end, unless one behind it
/// has the same path.
pub proof fn law_every_loaded_file_is_taken_over(
    files: Seq<File>,
    loaded: Seq<Loaded>,
    count: int,
    k: int,
)
    requires
        0 <= k < count <= loaded.len(),
        loaded[k].entries is Some,
        forall|m: int| k < m < count ==> (#[trigger] loaded[m]).path != loaded[k].path,
    ensures
        ({
            let after = with_files(files, loaded, count);
            file_at(after, loaded[k].path, 0) matches Some(i) && 0 <= i < after.len()
                && after[i].entries == loaded[k].entries->0
        }),
    decreases count,
{
    let before = with_files(files, loaded, count - 1);
    let after = with_files(files, loaded, count);
    if k == count - 1 {
        law_a_file_that_parses_has_its_entries(before, loaded[k], loaded[k].path);
    } else {
        law_every_loaded_file_is_taken_over(files, loaded, count - 1, k);
        assert(loaded[count - 1].path != loaded[k].path);
        lemma_other_file_stays(before, loaded[count - 1], loaded[k].path);
    }
    lemma_file_at(after, loaded[k].path, 0);
}

} // verus!
