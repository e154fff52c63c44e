//! The references between the entries of a bibliography, and whether they can be followed.
//!
//! An entry takes fields from the entries that it refers to, which may take fields from others.
//! Following such references ends unless one leads back to where it came from. Where an entry takes
//! fields over, the date of the entry they come from is parsed, and written anew for the entry, which
//! may hand it on.

use crate::bib_dates::{
    check_date, check_month, check_year, date_is_safe, finds_open_end, has_open_end, month_is_safe,
    year_is_safe,
};
use crate::bib_source::{marked_name, stand_in};
use crate::bibliography::{parsed, Parsed, ParsedEntry};
use crate::chains::{all_chains_end, all_end, indices};
use crate::text::{same_text, to_chars, views};
use vstd::prelude::*;

verus! {

/// A field of an entry with everything in it resolved: its text, and that text taken as a list.
#[derive(Debug)]
pub struct ParsedField {
    pub name: String,
    pub text: String,
    pub items: Vec<String>,
}

/// What a [`ParsedField`] holds.
#[verifier::ext_equal]
pub struct FieldText {
    pub name: Seq<char>,
    pub text: Seq<char>,
    pub items: Seq<Seq<char>>,
}

impl View for ParsedField {
    type V = FieldText;

    open spec fn view(&self) -> FieldText {
        FieldText { name: self.name@, text: self.text@, items: views(self.items@) }
    }
}

/// What several fields hold.
pub open spec fn field_texts(fields: Seq<ParsedField>) -> Seq<FieldText> {
    Seq::new(fields.len(), |k: int| fields[k]@)
}

/// The first field of this name from index `k` on.
pub open spec fn field_named(fields: Seq<FieldText>, name: Seq<char>, k: int) -> Option<FieldText>
    decreases fields.len() - k,
{
    if k < 0 || k >= fields.len() {
        None
    } else if fields[k].name == name {
        Some(fields[k])
    } else {
        field_named(fields, name, k + 1)
    }
}

/// The names of the entries that an entry refers to, where the fields that make the references have
/// `marks` marks before their names.
pub open spec fn names_referred(entry: Parsed, marks: nat) -> Seq<Seq<char>> {
    let whole = match field_named(entry.fields, stand_in("crossref"@, marks), 0) {
        Some(field) => seq![field.text],
        None => Seq::empty(),
    };
    let listed = match field_named(entry.fields, stand_in("xdata"@, marks), 0) {
        Some(field) => field.items,
        None => Seq::empty(),
    };
    whole + listed
}

/// Whether an entry goes by this name: it is its key, or one of its further names.
pub open spec fn goes_by(entry: Parsed, name: Seq<char>) -> bool {
    ||| entry.key == name
    ||| field_named(entry.fields, "ids"@, 0) matches Some(field) && field.items.contains(name)
}

/// The entry that a name stands for among the first `count`: the last one that goes by it.
pub open spec fn entry_named(entries: Seq<Parsed>, name: Seq<char>, count: int) -> Option<int>
    decreases count,
{
    if count <= 0 {
        None
    } else if goes_by(entries[count - 1], name) {
        Some(count - 1)
    } else {
        entry_named(entries, name, count - 1)
    }
}

/// The entries that the first `count` names stand for.
pub open spec fn entries_named(entries: Seq<Parsed>, names: Seq<Seq<char>>, count: int) -> Seq<int>
    decreases count,
{
    if count <= 0 {
        Seq::empty()
    } else {
        let before = entries_named(entries, names, count - 1);
        match entry_named(entries, names[count - 1], entries.len() as int) {
            Some(j) => before.push(j),
            None => before,
        }
    }
}

/// For every entry, the entries that it takes fields from.
pub open spec fn links(entries: Seq<Parsed>, marks: nat) -> Seq<Seq<int>> {
    Seq::new(
        entries.len(),
        |i: int|
            entries_named(
                entries,
                names_referred(entries[i], marks),
                names_referred(entries[i], marks).len() as int,
            ),
    )
}

/// Whether one of these links leads to an entry.
pub open spec fn is_reached(links: Seq<Seq<int>>, j: int) -> bool {
    exists|i: int, k: int|
        0 <= i < links.len() && 0 <= k < links[i].len() && #[trigger] links[i][k] == j
}

/// Whether an entry only holds fields for others. It takes every field over that it does not have,
/// as it is.
pub open spec fn is_xdata(entry: Parsed) -> bool {
    entry.entry_type == "xdata"@
}

/// Whether an entry may parse the dates of the entries that it takes fields from: not where its type
/// has no use for one.
pub open spec fn takes_date(entry: Parsed) -> bool {
    let name = entry.entry_type;
    !(name == "xdata"@ || name == "booklet"@ || name == "manual"@ || name == "misc"@ || name
        == "set"@ || name == "software"@ || name == "unpublished"@)
}

/// Whether the dates of the entries that entry `i` refers to are parsed: by itself, or by one that
/// it hands them on to.
pub open spec fn has_dates_read(entries: Seq<Parsed>, links: Seq<Seq<int>>, i: int) -> bool {
    takes_date(entries[i]) || (is_xdata(entries[i]) && is_reached(links, i))
}

/// Whether the dates of the entries that entry `i` refers to may be written anew and parsed again.
pub open spec fn has_dates_read_again(entries: Seq<Parsed>, links: Seq<Seq<int>>, i: int) -> bool {
    (takes_date(entries[i]) || is_xdata(entries[i])) && is_reached(links, i)
}

/// Whether an entry that only holds fields for others takes fields over itself, so that a date may
/// come together from more than one entry.
pub open spec fn some_merge(entries: Seq<Parsed>, links: Seq<Seq<int>>) -> bool {
    exists|i: int| 0 <= i < entries.len() && is_xdata(#[trigger] entries[i]) && links[i].len() > 0
}

/// Whether an entry has a field of this name.
pub open spec fn has_field(entry: Parsed, name: Seq<char>) -> bool {
    field_named(entry.fields, name, 0) is Some
}

/// Whether an entry's date can be read: its `date`, or without one its `year` and `month`. A month
/// without a year is not read, unless it may come together with one.
pub open spec fn has_safe_date(entry: Parsed, merged: bool) -> bool {
    match field_named(entry.fields, "date"@, 0) {
        Some(date) => date_is_safe(date.text),
        None => {
            &&& field_named(entry.fields, "year"@, 0) matches Some(year) ==> year_is_safe(year.text)
            &&& field_named(entry.fields, "month"@, 0) matches Some(month) ==> month_is_safe(
                month.text,
                has_field(entry, "day"@),
            ) || !(merged || has_field(entry, "year"@))
        },
    }
}

/// Whether an entry's date can be read again once it was taken over and written anew.
pub open spec fn has_lasting_date(entry: Parsed) -> bool {
    field_named(entry.fields, "date"@, 0) matches Some(date) ==> !has_open_end(date.text)
}

/// Whether the date of an entry that entry `i` refers to can be taken over as often as it is.
pub open spec fn date_holds(
    entries: Seq<Parsed>,
    links: Seq<Seq<int>>,
    i: int,
    j: int,
) -> bool {
    &&& has_dates_read(entries, links, i) ==> has_safe_date(entries[j], some_merge(entries, links))
    &&& has_dates_read_again(entries, links, i) ==> has_lasting_date(entries[j])
}

/// Whether the references between entries can be followed: every chain of them ends, and the date
/// of every entry that one leads to can be taken over.
pub open spec fn links_hold(entries: Seq<Parsed>, marks: nat) -> bool {
    let links = links(entries, marks);
    &&& all_end(links)
    &&& forall|i: int, k: int|
        0 <= i < entries.len() && 0 <= k < links[i].len() ==> date_holds(
            entries,
            links,
            i,
            #[trigger] links[i][k],
        )
}

/// Finds the field of this name.
pub fn find_field<'a>(fields: &'a Vec<ParsedField>, name: &str) -> (result: Option<&'a ParsedField>)
    ensures
        match result {
            Some(field) => field_named(field_texts(fields@), name@, 0) == Some(field@),
            None => field_named(field_texts(fields@), name@, 0) is None,
        },
{
    let ghost all = field_texts(fields@);
    let mut k: usize = 0;
    while k < fields.len()
        invariant
            all == field_texts(fields@),
            k <= fields@.len(),
            field_named(all, name@, 0) == field_named(all, name@, k as int),
        decreases fields@.len() - k,
    {
        assert(all[k as int] == fields@[k as int]@);
        if same_text(fields[k].name.as_str(), name) {
            return Some(&fields[k]);
        }
        k += 1;
    }
    None
}

fn lists_name(items: &Vec<String>, name: &str) -> (result: bool)
    ensures
        result == views(items@).contains(name@),
{
    let mut k: usize = 0;
    while k < items.len()
        invariant
            k <= items@.len(),
            forall|m: int| 0 <= m < k ==> views(items@)[m] != name@,
        decreases items@.len() - k,
    {
        if same_text(items[k].as_str(), name) {
            assert(views(items@)[k as int] == name@);
            return true;
        }
        k += 1;
    }
    false
}

fn find_entry(entries: &Vec<ParsedEntry>, name: &str) -> (result: Option<usize>)
    ensures
        match result {
            Some(j) => entry_named(parsed(entries@), name@, entries@.len() as int) == Some(j as int)
                && j < entries@.len(),
            None => entry_named(parsed(entries@), name@, entries@.len() as int) is None,
        },
{
    let ghost all = parsed(entries@);
    let mut j: usize = entries.len();
    while j > 0
        invariant
            all == parsed(entries@),
            j <= entries@.len(),
            entry_named(all, name@, entries@.len() as int) == entry_named(all, name@, j as int),
        decreases j,
    {
        let entry = &entries[j - 1];
        assert(all[j - 1] == entry@);
        let further = match find_field(&entry.fields, "ids") {
            Some(field) => lists_name(&field.items, name),
            None => false,
        };
        if further || same_text(entry.key.as_str(), name) {
            return Some(j - 1);
        }
        j -= 1;
    }
    None
}

/// A list of indices as mathematical integers.
spec fn as_ints(list: Seq<usize>) -> Seq<int> {
    Seq::new(list.len(), |k: int| list[k] as int)
}

fn push_entry(list: &mut Vec<usize>, entries: &Vec<ParsedEntry>, name: &str)
    requires
        forall|k: int| 0 <= k < old(list)@.len() ==> (#[trigger] old(list)@[k]) < entries@.len(),
    ensures
        as_ints(final(list)@) == match entry_named(
            parsed(entries@),
            name@,
            entries@.len() as int,
        ) {
            Some(j) => as_ints(old(list)@).push(j),
            None => as_ints(old(list)@),
        },
        forall|k: int|
            0 <= k < final(list)@.len() ==> (#[trigger] final(list)@[k]) < entries@.len(),
{
    let ghost before = list@;
    match find_entry(entries, name) {
        Some(j) => {
            list.push(j);
            assert(as_ints(list@) =~= as_ints(before).push(j as int));
        },
        None => {},
    }
}

fn find_links(entries: &Vec<ParsedEntry>, entry: &ParsedEntry, marks: usize) -> (result: Vec<usize>)
    ensures
        as_ints(result@) == entries_named(
            parsed(entries@),
            names_referred(entry@, marks as nat),
            names_referred(entry@, marks as nat).len() as int,
        ),
        forall|k: int| 0 <= k < result@.len() ==> (#[trigger] result@[k]) < entries@.len(),
{
    let ghost all = parsed(entries@);
    let ghost names = names_referred(entry@, marks as nat);
    let whole = marked_name("crossref", marks);
    let listed = marked_name("xdata", marks);
    let mut result: Vec<usize> = Vec::new();
    assert(as_ints(result@) =~= entries_named(all, names, 0));
    let mut count: usize = 0;
    match find_field(&entry.fields, whole.as_str()) {
        Some(field) => {
            assert(names[0] == field.text@);
            push_entry(&mut result, entries, field.text.as_str());
            count = 1;
            assert(as_ints(result@) == entries_named(all, names, 1)) by {
                reveal_with_fuel(entries_named, 2);
            }
        },
        None => {},
    }
    assert(as_ints(result@) == entries_named(all, names, count as int));
    match find_field(&entry.fields, listed.as_str()) {
        Some(field) => {
            let ghost base = count as int;
            let mut k: usize = 0;
            assert(names.len() == base + field.items@.len());
            while k < field.items.len()
                invariant
                    all == parsed(entries@),
                    k <= field.items@.len(),
                    0 <= base,
                    names.len() == base + field.items@.len(),
                    forall|m: int|
                        0 <= m < field.items@.len() ==> names[base + m]
                            == #[trigger] field.items@[m]@,
                    as_ints(result@) == entries_named(all, names, base + k),
                    forall|m: int|
                        0 <= m < result@.len() ==> (#[trigger] result@[m]) < entries@.len(),
                decreases field.items@.len() - k,
            {
                assert(names[base + k] == field.items@[k as int]@);
                push_entry(&mut result, entries, field.items[k].as_str());
                k += 1;
            }
        },
        None => {},
    }
    result
}

fn date_can_be_read(entry: &ParsedEntry, merged: bool) -> (result: bool)
    ensures
        result == has_safe_date(entry@, merged),
{
    if let Some(date) = find_field(&entry.fields, "date") {
        return check_date(date.text.as_str());
    }
    let year = find_field(&entry.fields, "year");
    if let Some(year) = year {
        if !check_year(to_chars(year.text.as_str()).as_slice()) {
            return false;
        }
    }
    match find_field(&entry.fields, "month") {
        Some(month) => {
            let has_day = find_field(&entry.fields, "day").is_some();
            !(merged || year.is_some()) || check_month(month.text.as_str(), has_day)
        },
        None => true,
    }
}

fn date_lasts(entry: &ParsedEntry) -> (result: bool)
    ensures
        result == has_lasting_date(entry@),
{
    match find_field(&entry.fields, "date") {
        Some(date) => !finds_open_end(to_chars(date.text.as_str()).as_slice()),
        None => true,
    }
}

fn check_xdata(entry: &ParsedEntry) -> (result: bool)
    ensures
        result == is_xdata(entry@),
{
    same_text(entry.entry_type.as_str(), "xdata")
}

fn check_takes_date(entry: &ParsedEntry) -> (result: bool)
    ensures
        result == takes_date(entry@),
{
    let name = entry.entry_type.as_str();
    !(same_text(name, "xdata") || same_text(name, "booklet") || same_text(name, "manual")
        || same_text(name, "misc") || same_text(name, "set") || same_text(name, "software")
        || same_text(name, "unpublished"))
}

/// For every item, whether one of these links leads to it.
fn find_reached(refers: &Vec<Vec<usize>>) -> (result: Vec<bool>)
    requires
        forall|k: int, m: int|
            0 <= k < refers@.len() && 0 <= m < refers@[k]@.len() ==> (#[trigger] refers@[k]@[m])
                < refers@.len(),
    ensures
        result@.len() == refers@.len(),
        forall|j: int|
            0 <= j < result@.len() ==> #[trigger] result@[j] == is_reached(indices(refers@), j),
{
    let ghost all = indices(refers@);
    let count: usize = refers.len();
    let mut result: Vec<bool> = Vec::new();
    while result.len() < count
        invariant
            result@.len() <= count,
            forall|j: int| 0 <= j < result@.len() ==> !#[trigger] result@[j],
        decreases count - result@.len(),
    {
        result.push(false);
    }
    let mut i: usize = 0;
    while i < count
        invariant
            i <= count,
            count == refers@.len(),
            all == indices(refers@),
            result@.len() == count,
            forall|k: int, m: int|
                0 <= k < refers@.len() && 0 <= m < refers@[k]@.len() ==> (
                #[trigger] refers@[k]@[m]) < refers@.len(),
            forall|j: int| 0 <= j < count && #[trigger] result@[j] ==> is_reached(all, j),
            forall|k: int, m: int|
                0 <= k < i && 0 <= m < all[k].len() ==> result@[#[trigger] all[k][m]],
        decreases count - i,
    {
        let list = &refers[i];
        assert(all[i as int].len() == list@.len());
        let mut k: usize = 0;
        while k < list.len()
            invariant
                k <= list@.len(),
                i < count,
                count == refers@.len(),
                all == indices(refers@),
                result@.len() == count,
                list@ == refers@[i as int]@,
                all[i as int].len() == list@.len(),
                forall|n: int, m: int|
                    0 <= n < refers@.len() && 0 <= m < refers@[n]@.len() ==> (
                    #[trigger] refers@[n]@[m]) < refers@.len(),
                forall|j: int| 0 <= j < count && #[trigger] result@[j] ==> is_reached(all, j),
                forall|n: int, m: int|
                    0 <= n < i && 0 <= m < all[n].len() ==> result@[#[trigger] all[n][m]],
                forall|m: int| 0 <= m < k ==> result@[#[trigger] all[i as int][m]],
            decreases list@.len() - k,
        {
            assert(refers@[i as int]@[k as int] < count);
            let to: usize = list[k];
            assert(all[i as int][k as int] == to);
            let ghost before = result@;
            result.set(to, true);
            assert(is_reached(all, to as int));
            assert forall|n: int, m: int| 0 <= n < i && 0 <= m < all[n].len() implies
                result@[#[trigger] all[n][m]] by {
                assert(before[all[n][m]]);
                assert(refers@[n]@[m] < count);
            }
            k += 1;
        }
        i += 1;
    }
    assert forall|j: int| 0 <= j < result@.len() implies #[trigger] result@[j] == is_reached(
        indices(refers@),
        j,
    ) by {
        if is_reached(all, j) {
            let (n, m) = choose|n: int, m: int|
                0 <= n < all.len() && 0 <= m < all[n].len() && #[trigger] all[n][m] == j;
            assert(result@[all[n][m]]);
        }
    }
    result
}

fn finds_merge(entries: &Vec<ParsedEntry>, refers: &Vec<Vec<usize>>) -> (result: bool)
    requires
        refers@.len() == entries@.len(),
    ensures
        result == some_merge(parsed(entries@), indices(refers@)),
{
    let ghost all = parsed(entries@);
    let ghost there = indices(refers@);
    let mut i: usize = 0;
    while i < entries.len()
        invariant
            i <= entries@.len(),
            refers@.len() == entries@.len(),
            all == parsed(entries@),
            there == indices(refers@),
            forall|k: int| 0 <= k < i ==> !(is_xdata(#[trigger] all[k]) && there[k].len() > 0),
        decreases entries@.len() - i,
    {
        assert(all[i as int] == entries@[i as int]@);
        assert(there[i as int].len() == refers@[i as int]@.len());
        if check_xdata(&entries[i]) && refers[i].len() > 0 {
            return true;
        }
        i += 1;
    }
    false
}

/// Whether the references between entries can be followed.
pub fn check_links(entries: &Vec<ParsedEntry>, marks: usize) -> (result: bool)
    ensures
        result == links_hold(parsed(entries@), marks as nat),
{
    let count: usize = entries.len();
    let ghost all = parsed(entries@);
    let ghost there = links(all, marks as nat);
    let mut refers: Vec<Vec<usize>> = Vec::new();
    while refers.len() < count
        invariant
            count == entries@.len(),
            all == parsed(entries@),
            there == links(all, marks as nat),
            refers@.len() <= count,
            forall|k: int|
                0 <= k < refers@.len() ==> as_ints((#[trigger] refers@[k])@) == there[k],
            forall|k: int, m: int|
                0 <= k < refers@.len() && 0 <= m < refers@[k]@.len() ==> (
                #[trigger] refers@[k]@[m]) < count,
        decreases count - refers@.len(),
    {
        let i: usize = refers.len();
        assert(all[i as int] == entries@[i as int]@);
        refers.push(find_links(entries, &entries[i], marks));
    }
    assert(indices(refers@) =~~= there) by {
        assert forall|k: int| 0 <= k < refers@.len() implies indices(refers@)[k]
            == #[trigger] there[k] by {
            assert(indices(refers@)[k] =~= as_ints(refers@[k]@));
        }
    }
    assert forall|i: int, k: int| 0 <= i < there.len() && 0 <= k < there[i].len() implies 0
        <= #[trigger] there[i][k] < there.len() by {
        assert(indices(refers@)[i][k] == refers@[i]@[k] as int);
    }
    if !all_chains_end(&refers) {
        return false;
    }
    let reached = find_reached(&refers);
    let merged = finds_merge(entries, &refers);
    let mut i: usize = 0;
    while i < count
        invariant
            i <= count,
            count == entries@.len(),
            count == refers@.len(),
            count == reached@.len(),
            all == parsed(entries@),
            there == links(all, marks as nat),
            indices(refers@) == there,
            merged == some_merge(all, there),
            forall|j: int|
                0 <= j < reached@.len() ==> #[trigger] reached@[j] == is_reached(there, j),
            forall|k: int, m: int|
                0 <= k < refers@.len() && 0 <= m < refers@[k]@.len() ==> (
                #[trigger] refers@[k]@[m]) < count,
            forall|j: int, k: int|
                0 <= j < i && 0 <= k < there[j].len() ==> date_holds(
                    all,
                    there,
                    j,
                    #[trigger] there[j][k],
                ),
        decreases count - i,
    {
        let list = &refers[i];
        assert(all[i as int] == entries@[i as int]@);
        let takes = check_takes_date(&entries[i]);
        let holds = check_xdata(&entries[i]);
        let read = takes || (holds && reached[i]);
        let again = (takes || holds) && reached[i];
        let mut k: usize = 0;
        assert(indices(refers@)[i as int].len() == list@.len());
        while k < list.len()
            invariant
                k <= list@.len(),
                i < count,
                count == entries@.len(),
                count == refers@.len(),
                all == parsed(entries@),
                there == links(all, marks as nat),
                indices(refers@) == there,
                merged == some_merge(all, there),
                read == has_dates_read(all, there, i as int),
                again == has_dates_read_again(all, there, i as int),
                list@ == refers@[i as int]@,
                there[i as int].len() == list@.len(),
                forall|n: int, m: int|
                    0 <= n < refers@.len() && 0 <= m < refers@[n]@.len() ==> (
                    #[trigger] refers@[n]@[m]) < count,
                forall|m: int|
                    0 <= m < k ==> date_holds(all, there, i as int, #[trigger] there[i as int][m]),
            decreases list@.len() - k,
        {
            assert(refers@[i as int]@[k as int] < count);
            assert(indices(refers@)[i as int][k as int] == list@[k as int] as int);
            let to: usize = list[k];
            assert(there[i as int][k as int] == to);
            assert(all[to as int] == entries@[to as int]@);
            let holds = (!read || date_can_be_read(&entries[to], merged)) && (!again || date_lasts(
                &entries[to],
            ));
            assert(holds == date_holds(all, there, i as int, there[i as int][k as int]));
            if !holds {
                return false;
            }
            k += 1;
        }
        i += 1;
    }
    true
}

} // verus!
