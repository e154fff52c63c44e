//! What an embed shows: the note that its target names, or one section of it, or an image.

use crate::embed::{
    best_of, files_names, heading_titles, label_of, line_at, loaded_entry, lowered_names,
    note_section, rank_of, resolved, section_end, section_start, state_of, survives,
    unicode_lowercase, without_md, EntryView, Names, ProjectFile, StateView,
};
use crate::extract::{all_marks, SyntaxLayer};
use crate::inline_layer::width_digits;
use crate::markers::BlockLook;
use crate::path::{extension_of, stem_of};
use crate::scan_laws::{are_links, is_body, is_no_code, is_prose, lemma_body, lemma_link, lemma_no_code};
use crate::extraction::Marks;
use crate::scans::{embed_look, embed_parts, touches_code, with_embed, with_wikilink};
use crate::section_laws::{
    ends_section, is_heading, is_some_heading, law_a_heading_has_its_hashes_for_a_level,
    lemma_section_end, lemma_section_start,
};
use crate::document::{row_at, row_text};
use crate::text::{
    ascii_lowercase, byte_offset, byte_span, ends_with, find_char, has_char, join, lemma_find_char, lemma_split_from, lines,
    run_end, text_lines, trim, white_space, CharClass, lemma_run_end,
};
use crate::text_laws::{is_blank_text, is_tight, law_trimming_takes_the_outer_blanks};
use crate::walk_laws::{grows, has_block, lemma_has_block};
use crate::widget_laws::law_a_place_is_on_the_row_of_its_line;
use vstd::prelude::*;

verus! {

// ---------------------------------------------------------------------------------------------
// Blocks
// ---------------------------------------------------------------------------------------------

/// A text that is all there is on its line is that line but for the white space round it.
proof fn lemma_alone(s: Seq<char>, row: int, i: int, j: int)
    requires
        0 <= row < lines(s).len(),
        lines(s)[row].0 <= i < j <= lines(s)[row].1,
        is_tight(s.subrange(i, j)),
        is_blank_text(s.subrange(lines(s)[row].0, i)),
        is_blank_text(s.subrange(j, lines(s)[row].1)),
    ensures
        trim(row_text(s, row)) == s.subrange(i, j),
        trim(s.subrange(i, j)) == s.subrange(i, j),
        row_at(s, byte_offset(s, i) as int) == row,
{
    law_a_place_is_on_the_row_of_its_line(s, row, i);
    let (a, b) = lines(s)[row];
    lemma_split_from(s, '\n', 0);
    assert(0 <= a <= b <= s.len());
    let left = s.subrange(a, i);
    let text = s.subrange(i, j);
    let right = s.subrange(j, b);
    assert(row_text(s, row) =~= left + text + right);
    law_trimming_takes_the_outer_blanks(left, text, right);
    let none = Seq::<char>::empty();
    assert(text =~= none + text + none);
    law_trimming_takes_the_outer_blanks(none, text, none);
}

#[verifier::rlimit(60)]
proof fn lemma_embed(s: Seq<char>, m: Marks, all: Marks, row: int, base: int, open: int, close: int)
    requires
        0 <= base < open,
        open + 2 <= close,
        close + 2 <= s.len(),
        is_body(s, open + 2, close),
        !touches_code(m.code_spans, byte_span(s, (open, close + 2))),
        s[open - 1] == '!',
        s[close + 1] == ']',
        grows(with_wikilink(s, m, base, open - base, close - base), all),
        0 <= row < lines(s).len(),
        lines(s)[row].0 < open,
        close + 2 <= lines(s)[row].1,
        is_blank_text(s.subrange(lines(s)[row].0, open - 1)),
        is_blank_text(s.subrange(close + 2, lines(s)[row].1)),
    ensures
        embed_look(s.subrange(open + 2, close)) matches Some((height, look)) ==> has_block(
            s,
            all,
            row,
            row,
            look,
            height,
        ),
{
    let with = with_wikilink(s, m, base, open - base, close - base);
    lemma_body(s, open + 2, close);
    let text = s.subrange(open - 1, close + 2);
    assert(text[0] == '!');
    assert(text[text.len() - 1] == ']');
    lemma_alone(s, row, open - 1, close + 2);
    let inner = s.subrange(open + 2, close);
    assert(with == with_embed(s, m, open - 1, close + 2, inner));
    if embed_look(inner) is Some {
        let (height, look) = embed_look(inner)->0;
        lemma_has_block(s, m, with, all, row, row, look, height);
    }
}

/// An embed that is all there is on its line is a block of that line, and shows as its body says.
#[verifier::rlimit(60)]
pub proof fn law_an_embed_alone_on_its_line_is_a_block(
    s: Seq<char>,
    layers: Seq<SyntaxLayer>,
    region: (int, int),
    links: Seq<(int, int)>,
    k: int,
    row: int,
)
    requires
        is_prose(s, layers, region.0, region.1),
        are_links(s, region, links),
        0 <= k < links.len(),
        is_body(s, links[k].0 + 2, links[k].1),
        is_no_code(s, layers, links[k].0, links[k].1 + 2),
        region.0 < links[k].0,
        s[links[k].0 - 1] == '!',
        0 <= row < lines(s).len(),
        lines(s)[row].0 < links[k].0,
        links[k].1 + 2 <= lines(s)[row].1,
        is_blank_text(s.subrange(lines(s)[row].0, links[k].0 - 1)),
        is_blank_text(s.subrange(links[k].1 + 2, lines(s)[row].1)),
    ensures
        embed_look(s.subrange(links[k].0 + 2, links[k].1)) matches Some((height, look))
            ==> has_block(s, all_marks(s, layers), row, row, look, height),
{
    let all = all_marks(s, layers);
    let at = lemma_link(s, layers, region, links, k);
    let (open, close) = links[k];
    lemma_no_code(s, layers, open, close + 2);
    lemma_embed(s, at, all, row, region.0, open, close);
}

/// Whether a text is empty, or starts with a pipe.
pub open spec fn is_size_part(rest: Seq<char>) -> bool {
    rest.len() == 0 || rest[0] == '|'
}

/// The target of an embed is what stands before its first pipe, without the white space round it;
/// the size it asks for is what stands behind the pipe.
proof fn lemma_embed_parts(left: Seq<char>, target: Seq<char>, right: Seq<char>, rest: Seq<char>)
    requires
        is_blank_text(left),
        is_blank_text(right),
        target.len() == 0 || is_tight(target),
        !target.contains('|'),
        is_size_part(rest),
    ensures
        embed_parts(left + target + right + rest) == (
            target,
            if rest.len() == 0 {
                None
            } else {
                Some(rest.skip(1))
            },
        ),
{
    let front = left + target + right;
    let inner = front + rest;
    assert(inner =~= left + target + right + rest);
    lemma_find_char(inner, '|', 0);
    assert forall|i: int| 0 <= i < front.len() implies #[trigger] inner[i] != '|' by {
        if i < left.len() {
            assert(white_space(left[i]));
        } else if i < left.len() + target.len() {
            assert(target[i - left.len()] != '|');
        } else {
            assert(white_space(right[i - left.len() - target.len()]));
        }
    }
    law_trimming_takes_the_outer_blanks(left, target, right);
    if rest.len() > 0 {
        assert(inner[front.len() as int] == '|');
        assert(inner.take(front.len() as int) =~= front);
        assert(inner.skip(front.len() + 1int) =~= rest.skip(1));
    } else {
        assert(inner =~= front);
    }
}

/// Whether a target names a file with the extension of an image.
pub open spec fn names_image(target: Seq<char>) -> bool {
    extension_of(target) matches Some(extension) && {
        let lower = ascii_lowercase(extension);
        ||| lower == "png"@
        ||| lower == "jpg"@
        ||| lower == "jpeg"@
        ||| lower == "gif"@
        ||| lower == "webp"@
        ||| lower == "svg"@
        ||| lower == "bmp"@
    }
}

/// An embed of an image shows the image, as wide as the number behind its pipe says.
pub proof fn law_an_embedded_image_is_an_image(
    left: Seq<char>,
    target: Seq<char>,
    right: Seq<char>,
    rest: Seq<char>,
)
    requires
        is_blank_text(left),
        is_blank_text(right),
        target.len() == 0 || is_tight(target),
        !target.contains('|'),
        is_size_part(rest),
        names_image(target),
    ensures
        embed_look(left + target + right + rest) == Some(
            (
                8int,
                BlockLook::Image {
                    display_width: if rest.len() == 0 {
                        None
                    } else {
                        width_digits(rest.skip(1))
                    },
                    destination: Some(target),
                    alt: Seq::empty(),
                },
            ),
        ),
{
    lemma_embed_parts(left, target, right, rest);
}

/// The width that a text asks for is the number it starts with, unless that is zero or there is none.
pub proof fn law_a_width_is_the_number_in_front(digits: Seq<char>, rest: Seq<char>)
    requires
        forall|i: int| 0 <= i < digits.len() ==> '0' <= #[trigger] digits[i] <= '9',
        rest.len() == 0 || !('0' <= rest[0] <= '9'),
    ensures
        width_digits(digits + rest) == if exists|i: int|
            0 <= i < digits.len() && #[trigger] digits[i] != '0' {
            Some(digits)
        } else {
            None
        },
{
    let s = digits + rest;
    lemma_run_end(s, CharClass::Digit, 0);
    let end = run_end(s, CharClass::Digit, 0);
    if end < digits.len() {
        assert(s[end] == digits[end]);
    }
    if end > digits.len() {
        assert(CharClass::Digit.holds(s[digits.len() as int]));
        assert(s[digits.len() as int] == rest[0]);
    }
    assert(s.take(end) =~= digits);
}

/// An embed of a note shows the whole of it.
pub proof fn law_an_embedded_note_is_shown(
    left: Seq<char>,
    note: Seq<char>,
    right: Seq<char>,
    rest: Seq<char>,
)
    requires
        is_blank_text(left),
        is_blank_text(right),
        is_tight(note),
        !note.contains('|'),
        !note.contains('#'),
        is_size_part(rest),
        !names_image(note),
    ensures
        embed_look(left + note + right + rest) == Some(
            (6int, BlockLook::Embed { target: note, section: None }),
        ),
{
    lemma_embed_parts(left, note, right, rest);
    lemma_find_char(note, '#', 0);
}

/// An embed with a `#` shows one section of a note: the note before the first `#`, the section behind
/// it. One that names no note shows nothing.
pub proof fn law_an_embedded_section_is_shown(
    left: Seq<char>,
    note: Seq<char>,
    before: Seq<char>,
    after: Seq<char>,
    section: Seq<char>,
    right: Seq<char>,
    rest: Seq<char>,
)
    requires
        is_blank_text(left),
        is_blank_text(before),
        is_blank_text(after),
        is_blank_text(right),
        note.len() == 0 || is_tight(note),
        note.len() == 0 ==> before.len() == 0,
        is_tight(section),
        !note.contains('|'),
        !note.contains('#'),
        !section.contains('|'),
        is_size_part(rest),
        !names_image(note + before + seq!['#'] + after + section),
    ensures
        embed_look(left + (note + before + seq!['#'] + after + section) + right + rest)
            == if note.len() == 0 {
            None
        } else {
            Some((6int, BlockLook::Embed { target: note, section: Some(section) }))
        },
{
    let target = note + before + seq!['#'] + after + section;
    let h = (note.len() + before.len()) as int;
    assert(is_tight(target)) by {
        assert(target[0] == if note.len() > 0 {
            note[0]
        } else {
            '#'
        });
        assert(target[target.len() - 1] == section[section.len() - 1]);
    }
    assert forall|i: int| 0 <= i < target.len() implies #[trigger] target[i] != '|' by {
        if i < note.len() {
            assert(target[i] == note[i]);
        } else if i < h {
            assert(white_space(before[i - note.len()]));
        } else if i == h {
        } else if i <= h + after.len() {
            assert(white_space(after[i - h - 1]));
        } else {
            assert(target[i] == section[i - h - 1 - after.len()]);
        }
    }
    lemma_embed_parts(left, target, right, rest);
    lemma_find_char(target, '#', 0);
    assert forall|i: int| 0 <= i < h implies #[trigger] target[i] != '#' by {
        if i < note.len() {
            assert(target[i] == note[i]);
        } else {
            assert(white_space(before[i - note.len()]));
        }
    }
    assert(target[h] == '#');
    assert(find_char(target, '#', 0) == Some(h));
    let none = Seq::<char>::empty();
    assert(target.take(h) =~= none + note + before);
    law_trimming_takes_the_outer_blanks(none, note, before);
    assert(target.skip(h + 1) =~= after + section + none);
    law_trimming_takes_the_outer_blanks(after, section, none);
}

// ---------------------------------------------------------------------------------------------
// Sections
// ---------------------------------------------------------------------------------------------

/// White space round a section's name does not matter.
pub proof fn law_a_section_is_looked_up_without_blanks(
    s: Seq<char>,
    left: Seq<char>,
    name: Seq<char>,
    right: Seq<char>,
)
    requires
        is_blank_text(left),
        is_blank_text(right),
        is_tight(name),
    ensures
        note_section(s, left + name + right) == note_section(s, name),
{
    let none = Seq::<char>::empty();
    law_trimming_takes_the_outer_blanks(left, name, right);
    law_trimming_takes_the_outer_blanks(none, name, none);
    assert(none + name + none =~= name);
}

/// A section is found by its heading's text, in capital or small letters, and goes from the first
/// such heading up to the next with as few hashes or fewer.
pub proof fn law_a_section_is_found_by_its_heading(
    s: Seq<char>,
    name: Seq<char>,
    first: int,
    last: int,
    hashes: int,
)
    requires
        is_tight(name),
        0 <= first < last <= text_lines(s).len(),
        is_heading(line_at(s, first), hashes),
        unicode_lowercase(trim(line_at(s, first).skip(hashes))) == unicode_lowercase(name),
        forall|m: int, h: int|
            0 <= m < first && #[trigger] is_heading(line_at(s, m), h) ==> unicode_lowercase(
                trim(line_at(s, m).skip(h)),
            ) != unicode_lowercase(name),
        forall|m: int| first < m < last ==> !ends_section(#[trigger] line_at(s, m), hashes),
        last == text_lines(s).len() || ends_section(line_at(s, last), hashes),
    ensures
        note_section(s, name) == Some(
            join(Seq::new((last - first) as nat, |k: int| line_at(s, first + k)), "\n"@),
        ),
{
    let none = Seq::<char>::empty();
    law_trimming_takes_the_outer_blanks(none, name, none);
    assert(none + name + none =~= name);
    let titles = heading_titles(s);
    let wanted = unicode_lowercase(name);
    law_a_heading_has_its_hashes_for_a_level(line_at(s, first), hashes);
    assert(titles[first] == wanted);
    assert forall|m: int| 0 <= m < first implies !(is_some_heading(#[trigger] line_at(s, m))
        && titles[m] == wanted) by {
        if is_some_heading(line_at(s, m)) {
            let h = choose|h: int| #[trigger] is_heading(line_at(s, m), h);
            law_a_heading_has_its_hashes_for_a_level(line_at(s, m), h);
        }
    }
    lemma_section_start(s, titles, wanted, 0);
    let found = section_start(s, titles, wanted, 0);
    assert(is_some_heading(line_at(s, first)));
    assert(found == Some(first)) by {
        if found is Some && found->0 > first {
            assert(is_some_heading(line_at(s, first)));
        }
    }
    lemma_section_end(s, hashes, first + 1);
    let end = section_end(s, hashes, first + 1);
    if end < last {
        assert(ends_section(line_at(s, end), hashes));
    } else if last < end {
        assert(!ends_section(line_at(s, last), hashes));
    }
}

// ---------------------------------------------------------------------------------------------
// Targets
// ---------------------------------------------------------------------------------------------

/// `.md` behind a name need not be spelled, and nothing else is taken off it.
pub proof fn law_an_ending_need_not_be_spelled(name: Seq<char>)
    ensures
        without_md(name + ".md"@) == without_md(name),
        !ends_with(name, ".md"@) ==> without_md(name) == name,
{
    reveal_strlit(".md");
    let full = name + ".md"@;
    assert(full.skip(full.len() - 3) =~= ".md"@);
    assert(full.take(full.len() - 3) =~= name);
}

/// Whether a file is a note.
pub open spec fn is_note(file: ProjectFile) -> bool {
    file.is_file && extension_of(file.path@) == Some("md"@)
}

/// Whether a note has this path, but for `.md` and for capital letters.
pub open spec fn has_path(file: ProjectFile, wanted: Seq<char>) -> bool {
    is_note(file) && without_md(unicode_lowercase(file.path@)) == unicode_lowercase(wanted)
}

/// Whether a note has this path, or the file name of this path.
pub open spec fn answers(file: ProjectFile, wanted: Seq<char>) -> bool {
    has_path(file, wanted) || (is_note(file) && stem_of(file.path@) is Some && stem_of(wanted)
        is Some && unicode_lowercase(stem_of(file.path@)->0) == unicode_lowercase(
        stem_of(wanted)->0,
    ))
}

/// Whether of two notes that answer to a target the first answers better. Where the target spells out
/// a path, a note with that path is better than one without it, then one beside the embedding note.
/// Where it is a bare name, one beside the embedding note is better first.
pub open spec fn answers_better(a: ProjectFile, b: ProjectFile, wanted: Seq<char>) -> bool {
    let path = has_path(a, wanted) && !has_path(b, wanted);
    let as_path = has_path(a, wanted) == has_path(b, wanted);
    let beside = a.beside && !b.beside;
    let as_beside = a.beside == b.beside;
    if wanted.contains('/') {
        path || (!has_path(a, wanted) && as_path && beside)
    } else {
        beside || (as_beside && path)
    }
}

proof fn lemma_first_of_the_best(
    files: Seq<ProjectFile>,
    names: Seq<Names>,
    spelled_out: bool,
    path: Seq<char>,
    stem: Seq<char>,
    count: int,
)
    requires
        0 <= count <= files.len(),
    ensures
        match best_of(files, names, spelled_out, path, stem, count) {
            Some((rank, depth, i)) => {
                &&& 0 <= i < count
                &&& rank_of(files[i], names[i], spelled_out, path, stem) == Some(rank)
                &&& depth == files[i].depth
                &&& forall|k: int|
                    0 <= k < count ==> match rank_of(
                        #[trigger] files[k],
                        names[k],
                        spelled_out,
                        path,
                        stem,
                    ) {
                        Some(other) => rank < other || (rank == other && (depth < files[k].depth || (
                        depth == files[k].depth && i <= k))),
                        None => true,
                    }
            },
            None => forall|k: int|
                0 <= k < count ==> rank_of(#[trigger] files[k], names[k], spelled_out, path, stem)
                    is None,
        },
    decreases count,
{
    if count > 0 {
        lemma_first_of_the_best(files, names, spelled_out, path, stem, count - 1);
    }
}

/// A target resolves to a note that answers to it, and to the best of these: no other answers
/// better, none that answers as well is shallower, and none as shallow stands before it.
pub proof fn law_a_target_resolves_to_its_best_note(
    files: Seq<ProjectFile>,
    left: Seq<char>,
    wanted: Seq<char>,
    right: Seq<char>,
    i: int,
)
    requires
        is_blank_text(left),
        is_blank_text(right),
        is_tight(wanted),
        !ends_with(wanted, ".md"@),
        stem_of(wanted) is Some,
        resolved(files, left + wanted + right) == Some(i),
    ensures
        0 <= i < files.len(),
        answers(files[i], wanted),
        forall|k: int|
            0 <= k < files.len() && answers(#[trigger] files[k], wanted) ==> !answers_better(
                files[k],
                files[i],
                wanted,
            ) && (answers_better(files[i], files[k], wanted) || files[i].depth < files[k].depth || (
            files[i].depth == files[k].depth && i <= k)),
{
    let s = lemma_wanted(files, left, wanted, right);
    let names = files_names(files);
    let stem = stem_of(wanted)->0;
    lemma_first_of_the_best(
        files,
        names,
        has_char(wanted, '/'),
        unicode_lowercase(wanted),
        unicode_lowercase(stem),
        files.len() as int,
    );
    lemma_slash(wanted);
    assert forall|k: int| 0 <= k < files.len() && answers(#[trigger] files[k], wanted) implies (
    !answers_better(files[k], files[i], wanted) && (answers_better(files[i], files[k], wanted)
        || files[i].depth < files[k].depth || (files[i].depth == files[k].depth && i <= k))) by {
        let file = files[k];
        assert(names[k] == lowered_names(file.path@));
    }
}

proof fn lemma_slash(wanted: Seq<char>)
    ensures
        has_char(wanted, '/') == wanted.contains('/'),
{
    lemma_find_char(wanted, '/', 0);
    if wanted.contains('/') {
        let at = choose|at: int| 0 <= at < wanted.len() && wanted[at] == '/';
    }
}

/// What a target with white space round it is looked up by.
proof fn lemma_wanted(
    files: Seq<ProjectFile>,
    left: Seq<char>,
    wanted: Seq<char>,
    right: Seq<char>,
) -> (text: Seq<char>)
    requires
        is_blank_text(left),
        is_blank_text(right),
        is_tight(wanted),
        !ends_with(wanted, ".md"@),
    ensures
        text == left + wanted + right,
        without_md(trim(text)) == wanted,
{
    law_trimming_takes_the_outer_blanks(left, wanted, right);
    law_an_ending_need_not_be_spelled(wanted);
    left + wanted + right
}

/// A target resolves to nothing only where no note answers to it.
pub proof fn law_a_target_with_a_note_resolves(
    files: Seq<ProjectFile>,
    left: Seq<char>,
    wanted: Seq<char>,
    right: Seq<char>,
    k: int,
)
    requires
        is_blank_text(left),
        is_blank_text(right),
        is_tight(wanted),
        !ends_with(wanted, ".md"@),
        stem_of(wanted) is Some,
        0 <= k < files.len(),
        answers(files[k], wanted),
    ensures
        resolved(files, left + wanted + right) is Some,
{
    let s = lemma_wanted(files, left, wanted, right);
    let names = files_names(files);
    let stem = stem_of(wanted)->0;
    lemma_first_of_the_best(
        files,
        names,
        has_char(wanted, '/'),
        unicode_lowercase(wanted),
        unicode_lowercase(stem),
        files.len() as int,
    );
    assert(names[k] == lowered_names(files[k].path@));
}

// ---------------------------------------------------------------------------------------------
// The cache
// ---------------------------------------------------------------------------------------------

/// A note that changed is loaded again, and no other. What was missing is looked for again once a
/// note was created. What is being loaded is left to load.
pub proof fn law_only_what_changed_is_dropped(
    body: Seq<char>,
    path: (u64, Seq<char>),
    absolute: Seq<char>,
    changed: Seq<Seq<char>>,
    note_created: bool,
)
    ensures
        survives(EntryView::Ready { body, path, absolute }, changed, note_created) <==> forall|i: int|
            0 <= i < changed.len() ==> #[trigger] changed[i] != absolute,
        survives(EntryView::Missing, changed, note_created) <==> !note_created,
        survives(EntryView::Pending, changed, note_created),
{
    let entry = EntryView::Ready { body, path, absolute };
    if changed.contains(absolute) {
        let i = choose|i: int| 0 <= i < changed.len() && changed[i] == absolute;
        assert(changed[i] == absolute);
    } else {
        assert forall|i: int| 0 <= i < changed.len() implies #[trigger] changed[i] != absolute by {
            assert(changed.contains(changed[i]));
        }
    }
}

/// A note that was loaded shows whole, or the section of it that was asked for. One that could not be
/// loaded is missing, and so is a section that the note does not have.
pub proof fn law_a_loaded_note_shows(
    section: Option<Seq<char>>,
    loaded: Option<Seq<char>>,
    path: (u64, Seq<char>),
    absolute: Seq<char>,
)
    ensures
        state_of(loaded_entry(section, loaded, path, absolute)) == (match (loaded, section) {
            (None, _) => StateView::Missing,
            (Some(text), None) => StateView::Ready { body: text, path },
            (Some(text), Some(name)) => if note_section(text, name) is Some {
                StateView::Ready { body: note_section(text, name)->0, path }
            } else {
                StateView::Missing
            },
        }),
        loaded is Some && section is None ==> (loaded_entry(section, loaded, path, absolute)
            matches EntryView::Ready { absolute: kept, .. } && kept == absolute),
        state_of(EntryView::Pending) == StateView::Loading,
{
}

/// An embed of a section is labelled with its note and its section, one of a note with its note.
pub proof fn law_a_label_names_note_and_section(target: Seq<char>, section: Seq<char>)
    ensures
        label_of(target, None) == target,
        label_of(target, Some(section)) == target + seq![' ', '›', ' '] + section,
{
    reveal_strlit(" › ");
    assert(" › "@ =~= seq![' ', '›', ' ']);
}

} // verus!
