//! The unresolved form of a BibTeX source.
//!
//! A field may name an abbreviation, which may name another one, and an entry may refer to an entry
//! to take fields from. Resolving an abbreviation follows such names to their end, so a source is
//! resolved only where there is one. Its references are looked at on their own: with the names of
//! the fields that make them changed, a source resolves to entries that refer to none.

use crate::chains::{ends, indices, which_end};
use crate::table::larger;
use crate::text::{
    ascii_lowercase, byte_offset, lemma_index_at, push_text, same_text, spells, string_of,
    to_ascii_lowercase, to_chars, Text,
};
use vstd::prelude::*;

verus! {

// ---------------------------------------------------------------------------------------------
// The source
// ---------------------------------------------------------------------------------------------

/// A part of a field: literal text, or the name of an abbreviation.
#[derive(Debug)]
pub enum SourceChunk {
    Text(String),
    Abbreviation(String),
}

/// A field as it is written, before anything in it is resolved, with the byte offset of its name.
#[derive(Debug)]
pub struct SourceField {
    pub name: String,
    pub start: usize,
    pub chunks: Vec<SourceChunk>,
}

/// An entry as it is written.
#[derive(Debug)]
pub struct SourceEntry {
    pub fields: Vec<SourceField>,
}

/// A source as it is written: its entries and the abbreviations it defines.
#[derive(Debug)]
pub struct BibSource {
    pub entries: Vec<SourceEntry>,
    pub abbreviations: Vec<SourceField>,
}

/// What a [`SourceChunk`] holds.
#[verifier::ext_equal]
pub struct Chunk {
    pub text: Seq<char>,
    pub is_abbreviation: bool,
}

/// What a [`SourceField`] holds.
#[verifier::ext_equal]
pub struct Field {
    pub name: Seq<char>,
    pub start: int,
    pub chunks: Seq<Chunk>,
}

/// What a [`SourceEntry`] holds.
#[verifier::ext_equal]
pub struct RawEntry {
    pub fields: Seq<Field>,
}

/// What a [`BibSource`] holds.
#[verifier::ext_equal]
pub struct Source {
    pub entries: Seq<RawEntry>,
    pub abbreviations: Seq<Field>,
}

impl View for SourceChunk {
    type V = Chunk;

    open spec fn view(&self) -> Chunk {
        match self {
            SourceChunk::Text(text) => Chunk { text: text@, is_abbreviation: false },
            SourceChunk::Abbreviation(name) => Chunk { text: name@, is_abbreviation: true },
        }
    }
}

impl SourceChunk {
    fn text(&self) -> (result: &str)
        ensures
            result@ == self@.text,
    {
        match self {
            SourceChunk::Text(text) => text.as_str(),
            SourceChunk::Abbreviation(name) => name.as_str(),
        }
    }

    fn is_abbreviation(&self) -> (result: bool)
        ensures
            result == self@.is_abbreviation,
    {
        matches!(self, SourceChunk::Abbreviation(_))
    }
}

impl View for SourceField {
    type V = Field;

    open spec fn view(&self) -> Field {
        Field {
            name: self.name@,
            start: self.start as int,
            chunks: Seq::new(self.chunks@.len(), |k: int| self.chunks@[k]@),
        }
    }
}

impl View for SourceEntry {
    type V = RawEntry;

    open spec fn view(&self) -> RawEntry {
        RawEntry {
            fields: Seq::new(self.fields@.len(), |k: int| self.fields@[k]@),
        }
    }
}

impl View for BibSource {
    type V = Source;

    open spec fn view(&self) -> Source {
        Source {
            entries: Seq::new(self.entries@.len(), |k: int| self.entries@[k]@),
            abbreviations: Seq::new(self.abbreviations@.len(), |k: int| self.abbreviations@[k]@),
        }
    }
}

// ---------------------------------------------------------------------------------------------
// Abbreviations
// ---------------------------------------------------------------------------------------------

/// The abbreviation of this name among the first `count`: the last one, which stands for it.
pub open spec fn definition_of(abbreviations: Seq<Field>, name: Seq<char>, count: int) -> Option<int>
    decreases count,
{
    if count <= 0 {
        None
    } else if abbreviations[count - 1].name == name {
        Some(count - 1)
    } else {
        definition_of(abbreviations, name, count - 1)
    }
}

/// The abbreviations that the first `count` parts of a field name.
pub open spec fn used(abbreviations: Seq<Field>, chunks: Seq<Chunk>, count: int) -> Seq<int>
    decreases count,
{
    if count <= 0 {
        Seq::empty()
    } else {
        let before = used(abbreviations, chunks, count - 1);
        let chunk = chunks[count - 1];
        match definition_of(abbreviations, chunk.text, abbreviations.len() as int) {
            Some(definition) => if chunk.is_abbreviation {
                before.push(definition)
            } else {
                before
            },
            None => before,
        }
    }
}

/// The abbreviations that a field names.
pub open spec fn used_in(source: Source, field: Field) -> Seq<int> {
    used(source.abbreviations, field.chunks, field.chunks.len() as int)
}

/// For every abbreviation, the abbreviations that it names.
pub open spec fn abbreviation_references(source: Source) -> Seq<Seq<int>> {
    Seq::new(source.abbreviations.len(), |i: int| used_in(source, source.abbreviations[i]))
}

/// Whether every abbreviation that a field names can be replaced by what it stands for.
pub open spec fn field_ends(source: Source, field: Field) -> bool {
    forall|k: int|
        0 <= k < used_in(source, field).len() ==> ends(
            abbreviation_references(source),
            #[trigger] used_in(source, field)[k],
            source.abbreviations.len(),
        )
}

/// Whether every abbreviation that an entry names can be replaced by what it stands for.
pub open spec fn abbreviations_end(source: Source) -> bool {
    forall|i: int, k: int|
        0 <= i < source.entries.len() && 0 <= k < source.entries[i].fields.len() ==> field_ends(
            source,
            #[trigger] source.entries[i].fields[k],
        )
}

// ---------------------------------------------------------------------------------------------
// References
// ---------------------------------------------------------------------------------------------

/// Whether a field of this name refers to other entries.
pub open spec fn is_reference(name: Seq<char>) -> bool {
    ascii_lowercase(name) == "crossref"@ || ascii_lowercase(name) == "xdata"@
}

/// Where the references among the first `count` fields have their names.
pub open spec fn starts_in(fields: Seq<Field>, count: int) -> Seq<int>
    decreases count,
{
    if count <= 0 {
        Seq::empty()
    } else if is_reference(fields[count - 1].name) {
        starts_in(fields, count - 1).push(fields[count - 1].start)
    } else {
        starts_in(fields, count - 1)
    }
}

/// Where the references of the first `count` entries have their names.
pub open spec fn starts_of(entries: Seq<RawEntry>, count: int) -> Seq<int>
    decreases count,
{
    if count <= 0 {
        Seq::empty()
    } else {
        let fields = entries[count - 1].fields;
        starts_of(entries, count - 1) + starts_in(fields, fields.len() as int)
    }
}

/// Where the references of a source have their names.
pub open spec fn reference_starts(source: Source) -> Seq<int> {
    starts_of(source.entries, source.entries.len() as int)
}

/// The length of the longest name among the first `count` fields.
pub open spec fn longest_in(fields: Seq<Field>, count: int) -> nat
    decreases count,
{
    if count <= 0 {
        0
    } else {
        larger(longest_in(fields, count - 1), fields[count - 1].name.len())
    }
}

/// The length of the longest name among the fields of the first `count` entries.
pub open spec fn longest_of(entries: Seq<RawEntry>, count: int) -> nat
    decreases count,
{
    if count <= 0 {
        0
    } else {
        let fields = entries[count - 1].fields;
        larger(longest_of(entries, count - 1), longest_in(fields, fields.len() as int))
    }
}

/// The length of the longest name of a field.
pub open spec fn longest_name(source: Source) -> nat {
    longest_of(source.entries, source.entries.len() as int)
}

/// A name with `marks` marks before it.
pub open spec fn stand_in(name: Seq<char>, marks: nat) -> Seq<char> {
    Seq::new(marks, |i: int| 'z') + name
}

/// The first `count` characters of a text, with `marks` marks before each that stands at one of
/// these byte offsets.
pub open spec fn marked(s: Seq<char>, starts: Seq<int>, marks: nat, count: int) -> Seq<char>
    decreases count,
{
    if count <= 0 {
        Seq::empty()
    } else {
        let before = marked(s, starts, marks, count - 1);
        if starts.contains(byte_offset(s, count - 1) as int) {
            before + stand_in(seq![s[count - 1]], marks)
        } else {
            before.push(s[count - 1])
        }
    }
}

/// A source whose references go by names that no field of it has: each has as many marks before it
/// as the longest name of a field is long.
pub open spec fn unlinked(s: Seq<char>, source: Source) -> Seq<char> {
    marked(s, reference_starts(source), longest_name(source), s.len() as int)
}

/// A name with so many marks before it is longer than every name of a field.
pub proof fn law_stand_ins_are_no_fields(source: Source, i: int, k: int, name: Seq<char>)
    requires
        0 <= i < source.entries.len(),
        0 <= k < source.entries[i].fields.len(),
        name.len() > 0,
    ensures
        ascii_lowercase(source.entries[i].fields[k].name) != stand_in(name, longest_name(source)),
{
    lemma_longest_of(source.entries, source.entries.len() as int, i, k);
    let own = source.entries[i].fields[k].name;
    assert(ascii_lowercase(own).len() == own.len());
    assert(stand_in(name, longest_name(source)).len() == longest_name(source) + name.len());
}

proof fn lemma_longest_in(fields: Seq<Field>, count: int, k: int)
    requires
        0 <= k < count <= fields.len(),
    ensures
        fields[k].name.len() <= longest_in(fields, count),
    decreases count,
{
    if k < count - 1 {
        lemma_longest_in(fields, count - 1, k);
    }
}

proof fn lemma_longest_of(entries: Seq<RawEntry>, count: int, i: int, k: int)
    requires
        0 <= i < count <= entries.len(),
        0 <= k < entries[i].fields.len(),
    ensures
        entries[i].fields[k].name.len() <= longest_of(entries, count),
    decreases count,
{
    if i < count - 1 {
        lemma_longest_of(entries, count - 1, i, k);
    } else {
        lemma_longest_in(entries[i].fields, entries[i].fields.len() as int, k);
    }
}

// ---------------------------------------------------------------------------------------------
// Looking at a source
// ---------------------------------------------------------------------------------------------

fn find_definition(source: &BibSource, name: &str) -> (result: Option<usize>)
    ensures
        match result {
            Some(k) => definition_of(
                source@.abbreviations,
                name@,
                source@.abbreviations.len() as int,
            ) == Some(k as int) && k < source@.abbreviations.len(),
            None => definition_of(
                source@.abbreviations,
                name@,
                source@.abbreviations.len() as int,
            ) is None,
        },
{
    let ghost all = source@.abbreviations;
    let mut k: usize = source.abbreviations.len();
    while k > 0
        invariant
            all == source@.abbreviations,
            k <= source.abbreviations@.len(),
            definition_of(all, name@, all.len() as int) == definition_of(all, name@, k as int),
        decreases k,
    {
        assert(all[k - 1] == source.abbreviations@[k - 1]@);
        if same_text(source.abbreviations[k - 1].name.as_str(), name) {
            return Some(k - 1);
        }
        k -= 1;
    }
    None
}

fn find_used(source: &BibSource, field: &SourceField) -> (result: Vec<usize>)
    ensures
        as_offsets(result@) == used_in(source@, field@),
        forall|k: int|
            0 <= k < result@.len() ==> (#[trigger] result@[k]) < source.abbreviations@.len(),
{
    let mut result: Vec<usize> = Vec::new();
    let mut k: usize = 0;
    assert(as_offsets(result@) =~= Seq::empty());
    while k < field.chunks.len()
        invariant
            k <= field.chunks@.len(),
            as_offsets(result@) == used(source@.abbreviations, field@.chunks, k as int),
            forall|m: int|
                0 <= m < result@.len() ==> (#[trigger] result@[m]) < source.abbreviations@.len(),
        decreases field.chunks@.len() - k,
    {
        let chunk = &field.chunks[k];
        assert(field@.chunks[k as int] == chunk@);
        if chunk.is_abbreviation() {
            match find_definition(source, chunk.text()) {
                Some(definition) => {
                    let ghost before = result@;
                    result.push(definition);
                    assert(as_offsets(result@) =~= as_offsets(before).push(definition as int));
                },
                None => {},
            }
        }
        k += 1;
    }
    result
}

/// Whether every abbreviation that an entry names can be replaced by what it stands for.
pub fn check_abbreviations(source: &BibSource) -> (result: bool)
    ensures
        result == abbreviations_end(source@),
{
    let count: usize = source.abbreviations.len();
    let ghost all = source@.abbreviations;
    let ghost refs = abbreviation_references(source@);
    let mut refers: Vec<Vec<usize>> = Vec::new();
    while refers.len() < count
        invariant
            count == source.abbreviations@.len(),
            all == source@.abbreviations,
            refers@.len() <= count,
            forall|k: int|
                0 <= k < refers@.len() ==> as_offsets((#[trigger] refers@[k])@) == used_in(
                    source@,
                    all[k],
                ),
            forall|k: int, m: int|
                0 <= k < refers@.len() && 0 <= m < refers@[k]@.len() ==> (
                #[trigger] refers@[k]@[m]) < count,
        decreases count - refers@.len(),
    {
        let i: usize = refers.len();
        assert(all[i as int] == source.abbreviations@[i as int]@);
        refers.push(find_used(source, &source.abbreviations[i]));
    }
    assert(indices(refers@) =~~= refs) by {
        assert forall|k: int| 0 <= k < refers@.len() implies indices(refers@)[k]
            == #[trigger] refs[k] by {
            assert(indices(refers@)[k] =~= as_offsets(refers@[k]@));
        }
    }
    assert forall|i: int, k: int| 0 <= i < refs.len() && 0 <= k < refs[i].len() implies 0
        <= #[trigger] refs[i][k] < refs.len() by {
        assert(indices(refers@)[i][k] == refers@[i]@[k] as int);
    }
    let ended = which_end(&refers);
    let mut i: usize = 0;
    while i < source.entries.len()
        invariant
            i <= source.entries@.len(),
            refs == abbreviation_references(source@),
            ended@.len() == source.abbreviations@.len(),
            forall|m: int|
                0 <= m < ended@.len() ==> #[trigger] ended@[m] == ends(
                    refs,
                    m,
                    source@.abbreviations.len(),
                ),
            forall|j: int, k: int|
                0 <= j < i && 0 <= k < source@.entries[j].fields.len() ==> field_ends(
                    source@,
                    #[trigger] source@.entries[j].fields[k],
                ),
        decreases source.entries@.len() - i,
    {
        let entry = &source.entries[i];
        assert(source@.entries[i as int] == entry@);
        let mut k: usize = 0;
        while k < entry.fields.len()
            invariant
                k <= entry.fields@.len(),
                i < source.entries@.len(),
                source@.entries[i as int] == entry@,
                refs == abbreviation_references(source@),
                ended@.len() == source.abbreviations@.len(),
                forall|m: int|
                    0 <= m < ended@.len() ==> #[trigger] ended@[m] == ends(
                        refs,
                        m,
                        source@.abbreviations.len(),
                    ),
                forall|m: int|
                    0 <= m < k ==> field_ends(source@, #[trigger] entry@.fields[m]),
            decreases entry.fields@.len() - k,
        {
            assert(entry@.fields[k as int] == entry.fields@[k as int]@);
            let names = find_used(source, &entry.fields[k]);
            let ghost here = used_in(source@, entry@.fields[k as int]);
            let mut m: usize = 0;
            while m < names.len()
                invariant
                    m <= names@.len(),
                    i < source.entries@.len(),
                    k < entry.fields@.len(),
                    source@.entries[i as int] == entry@,
                    here == used_in(source@, entry@.fields[k as int]),
                    as_offsets(names@) == here,
                    refs == abbreviation_references(source@),
                    ended@.len() == source.abbreviations@.len(),
                    forall|n: int|
                        0 <= n < names@.len() ==> (#[trigger] names@[n])
                            < source.abbreviations@.len(),
                    forall|n: int|
                        0 <= n < ended@.len() ==> #[trigger] ended@[n] == ends(
                            refs,
                            n,
                            source@.abbreviations.len(),
                        ),
                    forall|n: int|
                        0 <= n < m ==> ends(
                            refs,
                            #[trigger] here[n],
                            source@.abbreviations.len(),
                        ),
                decreases names@.len() - m,
            {
                assert(here[m as int] == names@[m as int] as int);
                if !ended[names[m]] {
                    assert(!ends(refs, here[m as int], source@.abbreviations.len()));
                    assert(!field_ends(source@, source@.entries[i as int].fields[k as int]));
                    return false;
                }
                m += 1;
            }
            assert(here.len() == names@.len());
            assert(field_ends(source@, entry@.fields[k as int]));
            k += 1;
        }
        i += 1;
    }
    true
}

fn push_starts(starts: &mut Vec<usize>, entry: &SourceEntry)
    ensures
        as_offsets(final(starts)@) == as_offsets(old(starts)@) + starts_in(
            entry@.fields,
            entry@.fields.len() as int,
        ),
{
    let ghost before = as_offsets(starts@);
    let mut k: usize = 0;
    assert(as_offsets(starts@) =~= before + starts_in(entry@.fields, 0));
    while k < entry.fields.len()
        invariant
            k <= entry.fields@.len(),
            as_offsets(starts@) == before + starts_in(entry@.fields, k as int),
        decreases entry.fields@.len() - k,
    {
        let field = &entry.fields[k];
        assert(entry@.fields[k as int] == field@);
        let name = to_chars(field.name.as_str());
        let lower = to_ascii_lowercase(name.as_slice());
        let ghost so_far = as_offsets(starts@);
        if spells(lower.as_slice(), "crossref") || spells(lower.as_slice(), "xdata") {
            starts.push(field.start);
            assert(as_offsets(starts@) =~= so_far.push(field.start as int));
        }
        k += 1;
        assert(as_offsets(starts@) =~= before + starts_in(entry@.fields, k as int));
    }
}

/// Where the references of a source have their names.
pub fn find_references(source: &BibSource) -> (result: Vec<usize>)
    ensures
        as_offsets(result@) == reference_starts(source@),
        result@.len() == reference_starts(source@).len(),
{
    let mut starts: Vec<usize> = Vec::new();
    let mut i: usize = 0;
    assert(as_offsets(starts@) =~= starts_of(source@.entries, 0));
    while i < source.entries.len()
        invariant
            i <= source.entries@.len(),
            as_offsets(starts@) == starts_of(source@.entries, i as int),
        decreases source.entries@.len() - i,
    {
        assert(source@.entries[i as int] == source.entries@[i as int]@);
        push_starts(&mut starts, &source.entries[i]);
        i += 1;
    }
    assert(as_offsets(starts@).len() == starts@.len());
    starts
}

/// Byte offsets as mathematical integers.
pub open spec fn as_offsets(list: Seq<usize>) -> Seq<int> {
    Seq::new(list.len(), |k: int| list[k] as int)
}

/// The length of the longest name of a field.
pub fn find_longest_name(source: &BibSource) -> (result: usize)
    ensures
        result == longest_name(source@),
{
    let mut longest: usize = 0;
    let mut i: usize = 0;
    while i < source.entries.len()
        invariant
            i <= source.entries@.len(),
            longest == longest_of(source@.entries, i as int),
        decreases source.entries@.len() - i,
    {
        let entry = &source.entries[i];
        assert(source@.entries[i as int] == entry@);
        let ghost before = longest;
        let mut inner: usize = 0;
        let mut k: usize = 0;
        while k < entry.fields.len()
            invariant
                k <= entry.fields@.len(),
                inner == longest_in(entry@.fields, k as int),
            decreases entry.fields@.len() - k,
        {
            assert(entry@.fields[k as int] == entry.fields@[k as int]@);
            let length: usize = to_chars(entry.fields[k].name.as_str()).len();
            if length > inner {
                inner = length;
            }
            k += 1;
        }
        if inner > longest {
            longest = inner;
        }
        i += 1;
    }
    longest
}

fn push_marks(out: &mut Vec<char>, marks: usize)
    ensures
        final(out)@ == old(out)@ + Seq::new(marks as nat, |i: int| 'z'),
{
    let mut k: usize = 0;
    while k < marks
        invariant
            k <= marks,
            out@ == old(out)@ + Seq::new(k as nat, |i: int| 'z'),
        decreases marks - k,
    {
        out.push('z');
        k += 1;
        assert(out@ =~= old(out)@ + Seq::new(k as nat, |i: int| 'z'));
    }
    assert(out@ =~= old(out)@ + Seq::new(marks as nat, |i: int| 'z'));
}

/// A name with `marks` marks before it.
pub fn marked_name(name: &str, marks: usize) -> (result: String)
    ensures
        result@ == stand_in(name@, marks as nat),
{
    let mut result: Vec<char> = Vec::new();
    push_marks(&mut result, marks);
    let mut result = string_of(result.as_slice());
    push_text(&mut result, name);
    assert(result@ =~= stand_in(name@, marks as nat));
    result
}

/// For every character whether it stands at one of these byte offsets.
fn find_marked(text: &Text, starts: &Vec<usize>) -> (result: Vec<bool>)
    requires
        text.wf(),
    ensures
        result@.len() == text@.len(),
        forall|i: int|
            0 <= i < result@.len() ==> #[trigger] result@[i] == as_offsets(starts@).contains(
                byte_offset(text@, i) as int,
            ),
{
    let ghost s = text@;
    let ghost offsets = as_offsets(starts@);
    let count: usize = text.all().len();
    let mut result: Vec<bool> = Vec::new();
    while result.len() < count
        invariant
            result@.len() <= count,
            forall|i: int| 0 <= i < result@.len() ==> !#[trigger] result@[i],
        decreases count - result@.len(),
    {
        result.push(false);
    }
    let mut k: usize = 0;
    while k < starts.len()
        invariant
            text.wf(),
            s == text@,
            offsets == as_offsets(starts@),
            k <= starts@.len(),
            result@.len() == s.len(),
            count == s.len(),
            forall|i: int|
                0 <= i < result@.len() ==> #[trigger] result@[i] == offsets.take(
                    k as int,
                ).contains(byte_offset(s, i) as int),
        decreases starts@.len() - k,
    {
        let ghost before = result@;
        let ghost start = offsets[k as int];
        assert(start == starts@[k as int] as int);
        let found = text.index_of(starts[k]);
        match found {
            Some(i) => {
                if i < count {
                    result.set(i, true);
                }
            },
            None => {},
        }
        assert forall|i: int| 0 <= i < result@.len() implies #[trigger] result@[i] == offsets.take(
            k + 1,
        ).contains(byte_offset(s, i) as int) by {
            let at = byte_offset(s, i) as int;
            let shorter = offsets.take(k as int);
            let longer = offsets.take(k + 1);
            assert(longer =~= shorter.push(start));
            assert(before[i] == shorter.contains(at));
            lemma_index_at(s, i);
            if shorter.contains(at) {
                let m = choose|m: int| 0 <= m < shorter.len() && shorter[m] == at;
                assert(longer[m] == at);
            }
            if at == start {
                assert(longer[k as int] == at);
            }
            if longer.contains(at) {
                let m = choose|m: int| 0 <= m < longer.len() && longer[m] == at;
                if m < k {
                    assert(shorter[m] == at);
                }
            }
        }
        k += 1;
    }
    assert(offsets.take(k as int) =~= offsets);
    result
}

/// A text with `marks` marks before each character at one of these byte offsets.
pub fn mark_at(text: &str, starts: &Vec<usize>, marks: usize) -> (result: Vec<char>)
    ensures
        result@ == marked(text@, as_offsets(starts@), marks as nat, text@.len() as int),
{
    let ghost offsets = as_offsets(starts@);
    let text = Text::new(text);
    let ghost s = text@;
    let flags = find_marked(&text, starts);
    let chars = text.all();
    let mut result: Vec<char> = Vec::new();
    let mut i: usize = 0;
    while i < chars.len()
        invariant
            chars@ == s,
            flags@.len() == s.len(),
            forall|k: int|
                0 <= k < flags@.len() ==> #[trigger] flags@[k] == offsets.contains(
                    byte_offset(s, k) as int,
                ),
            i <= s.len(),
            result@ == marked(s, offsets, marks as nat, i as int),
        decreases s.len() - i,
    {
        let ghost before = result@;
        if flags[i] {
            push_marks(&mut result, marks);
        }
        result.push(chars[i]);
        i += 1;
        assert(result@ =~= marked(s, offsets, marks as nat, i as int));
    }
    result
}

} // verus!
