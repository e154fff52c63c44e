//! Notes embedded in notes: which note a target names, which part of it is shown, and what is
//! cached of it.

use crate::path::{extension, extension_of, file_stem, stem_of};
use crate::text::{
    ascii_lowercase, clone_option, contains_char, ends_with, find_run_end, found, has_char,
    has_suffix, join, joined,
    option_view, pairs, piece, push_text, run_end, same_option, same_text, string_of,
    text_line_ranges, text_lines, to_chars, trim, trimmed, views, CharClass,
};
use vstd::prelude::*;

verus! {

// ---------------------------------------------------------------------------------------------
// Letters
// ---------------------------------------------------------------------------------------------

/// What `str::to_lowercase` returns: the text in small letters by Unicode's tables.
pub uninterp spec fn unicode_lowercase(s: Seq<char>) -> Seq<char>;

/// Whether a text is all ASCII.
pub open spec fn all_ascii(s: Seq<char>) -> bool {
    forall|i: int| 0 <= i < s.len() ==> ((#[trigger] s[i]) as u32) < 0x80
}

/// `str::to_lowercase` goes by Unicode's tables, which depend on the text alone. Of a text that is
/// all ASCII it turns the capital letters into small ones and nothing else.
pub assume_specification[ str::to_lowercase ](s: &str) -> (result: String)
    ensures
        result@ == unicode_lowercase(s@),
        all_ascii(s@) ==> result@ == ascii_lowercase(s@),
;

// ---------------------------------------------------------------------------------------------
// Sections
// ---------------------------------------------------------------------------------------------

/// The level of the heading that a line is: how many hashes it opens with, from 1 to 6.
pub open spec fn line_level(line: Seq<char>) -> Option<int> {
    let hashes = run_end(line, CharClass::Only('#'), 0);
    if 1 <= hashes <= 6 {
        Some(hashes)
    } else {
        None
    }
}

/// The `k`th line of a text.
pub open spec fn line_at(s: Seq<char>, k: int) -> Seq<char> {
    piece(s, text_lines(s)[k])
}

/// The first line from `k` on that is a heading with the title `wanted`, where `titles` gives the
/// title of every heading.
pub open spec fn section_start(
    s: Seq<char>,
    titles: Seq<Seq<char>>,
    wanted: Seq<char>,
    k: int,
) -> Option<int>
    decreases text_lines(s).len() - k,
{
    if k < 0 || k >= text_lines(s).len() {
        None
    } else if line_level(line_at(s, k)) is Some && titles[k] == wanted {
        Some(k)
    } else {
        section_start(s, titles, wanted, k + 1)
    }
}

/// The first line from `k` on that is a heading of this level or a higher one; behind the last
/// line where there is none.
pub open spec fn section_end(s: Seq<char>, level: int, k: int) -> int
    decreases text_lines(s).len() - k,
{
    if k < 0 || k >= text_lines(s).len() {
        text_lines(s).len() as int
    } else if line_level(line_at(s, k)) matches Some(found) && found <= level {
        k
    } else {
        section_end(s, level, k + 1)
    }
}

/// The lines of a text from `first` up to `last`.
pub open spec fn lines_between(s: Seq<char>, first: int, last: int) -> Seq<Seq<char>> {
    Seq::new((last - first) as nat, |k: int| line_at(s, first + k))
}

/// The part of a text under the heading with the title `wanted`: from that heading up to the next
/// one of the same or a higher level.
pub open spec fn section_of(s: Seq<char>, titles: Seq<Seq<char>>, wanted: Seq<char>) -> Option<
    Seq<char>,
> {
    match section_start(s, titles, wanted, 0) {
        Some(first) => {
            let level = line_level(line_at(s, first))->0;
            Some(join(lines_between(s, first, section_end(s, level, first + 1)), "\n"@))
        },
        None => None,
    }
}

/// The title that a heading is looked up by: its text in small letters.
pub open spec fn heading_titles(s: Seq<char>) -> Seq<Seq<char>> {
    Seq::new(
        text_lines(s).len(),
        |k: int|
            match line_level(line_at(s, k)) {
                Some(level) => unicode_lowercase(trim(line_at(s, k).skip(level))),
                None => Seq::empty(),
            },
    )
}

/// The part of a note under the first heading with this title, however its letters are written and
/// whatever white space stands round it.
pub open spec fn note_section(s: Seq<char>, section: Seq<char>) -> Option<Seq<char>> {
    section_of(s, heading_titles(s), unicode_lowercase(trim(section)))
}

fn level_of(line: &[char]) -> (result: Option<usize>)
    ensures
        match result {
            Some(level) => line_level(line@) == Some(level as int) && level <= line@.len(),
            None => line_level(line@) is None,
        },
{
    let hashes = find_run_end(line, CharClass::Only('#'), 0);
    if 1 <= hashes && hashes <= 6 {
        Some(hashes)
    } else {
        None
    }
}

/// Whether `rows` holds the bounds of the lines of `s`, line endings aside.
spec fn line_bounds(s: Seq<char>, rows: Seq<(usize, usize)>) -> bool {
    &&& rows.len() == text_lines(s).len()
    &&& forall|k: int|
        0 <= k < rows.len() ==> {
            &&& (#[trigger] rows[k]).0 <= rows[k].1 <= s.len()
            &&& text_lines(s)[k] == (rows[k].0 as int, rows[k].1 as int)
        }
}

fn read_line_bounds(s: &[char]) -> (rows: Vec<(usize, usize)>)
    ensures
        line_bounds(s@, rows@),
{
    let rows = text_line_ranges(s);
    assert(pairs(rows@).len() == text_lines(s@).len());
    assert forall|k: int| 0 <= k < rows@.len() implies text_lines(s@)[k] == (
        (#[trigger] rows@[k]).0 as int,
        rows@[k].1 as int,
    ) by {
        assert(pairs(rows@)[k] == text_lines(s@)[k]);
    }
    rows
}

/// The part of a text under the heading whose title, as `titles` gives it for every line, is
/// `wanted`. `None` where no heading has that title.
pub fn section_titled(text: &str, titles: &Vec<String>, wanted: &str) -> (result: Option<String>)
    requires
        titles@.len() == text_lines(text@).len(),
    ensures
        option_view(result) == section_of(text@, views(titles@), wanted@),
{
    let chars = to_chars(text);
    let s = chars.as_slice();
    let rows = read_line_bounds(s);
    let ghost all = views(titles@);
    let mut first: usize = 0;
    let mut level: usize = 0;
    let mut found = false;
    while first < rows.len() && !found
        invariant
            line_bounds(s@, rows@),
            titles@.len() == rows@.len(),
            all == views(titles@),
            first <= rows@.len(),
            section_start(s@, all, wanted@, 0) == section_start(s@, all, wanted@, first as int),
            found ==> first < rows@.len() && line_level(line_at(s@, first as int)) == Some(
                level as int,
            ) && section_start(s@, all, wanted@, first as int) == Some(first as int),
        decreases rows@.len() - first + if found {
            0int
        } else {
            1int
        },
    {
        assert(rows@[first as int].0 <= rows@[first as int].1 <= s@.len());
        let line = &s[rows[first].0..rows[first].1];
        match level_of(line) {
            Some(hashes) if same_text(titles[first].as_str(), wanted) => {
                level = hashes;
                found = true;
            },
            _ => {
                first += 1;
            },
        }
    }
    if !found {
        return None;
    }
    let mut last: usize = first + 1;
    while last < rows.len()
        invariant_except_break
            section_end(s@, level as int, first + 1) == section_end(s@, level as int, last as int),
        invariant
            line_bounds(s@, rows@),
            first < last <= rows@.len(),
        ensures
            last == section_end(s@, level as int, first + 1),
        decreases rows@.len() - last,
    {
        assert(rows@[last as int].0 <= rows@[last as int].1 <= s@.len());
        let line = &s[rows[last].0..rows[last].1];
        let ends = match level_of(line) {
            Some(hashes) => hashes <= level,
            None => false,
        };
        if ends {
            break;
        }
        last += 1;
    }
    let mut parts: Vec<String> = Vec::new();
    let mut k: usize = first;
    while k < last
        invariant
            line_bounds(s@, rows@),
            first <= k <= last <= rows@.len(),
            parts@.len() == k - first,
            forall|m: int|
                0 <= m < parts@.len() ==> (#[trigger] parts@[m])@ == line_at(s@, first + m),
        decreases last - k,
    {
        assert(rows@[k as int].0 <= rows@[k as int].1 <= s@.len());
        parts.push(string_of(&s[rows[k].0..rows[k].1]));
        k += 1;
    }
    assert(views(parts@) =~= lines_between(s@, first as int, last as int));
    Some(joined(&parts, "\n"))
}

/// The part of a note under one heading, in capital or small letters: from that heading up to the
/// next one of the same or a higher level. `None` where the note has no such heading.
pub fn embed_section(text: &str, section: &str) -> (result: Option<String>)
    ensures
        option_view(result) == note_section(text@, section@),
{
    let chars = to_chars(text);
    let s = chars.as_slice();
    let rows = read_line_bounds(s);
    let mut titles: Vec<String> = Vec::new();
    let mut k: usize = 0;
    while k < rows.len()
        invariant
            line_bounds(s@, rows@),
            k <= rows@.len(),
            titles@.len() == k,
            forall|m: int| 0 <= m < k ==> (#[trigger] titles@[m])@ == heading_titles(s@)[m],
        decreases rows@.len() - k,
    {
        assert(rows@[k as int].0 <= rows@[k as int].1 <= s@.len());
        let line = &s[rows[k].0..rows[k].1];
        match level_of(line) {
            Some(level) => {
                let title = &line[level..line.len()];
                assert(title@ =~= line@.skip(level as int));
                titles.push(string_of(trimmed(title)).as_str().to_lowercase());
            },
            None => {
                titles.push(String::new());
            },
        }
        assert(titles@[k as int]@ =~= heading_titles(s@)[k as int]);
        k += 1;
    }
    assert(views(titles@) =~= heading_titles(s@));
    let section = to_chars(section);
    let wanted = string_of(trimmed(section.as_slice())).as_str().to_lowercase();
    section_titled(text, &titles, wanted.as_str())
}

// ---------------------------------------------------------------------------------------------
// Targets
// ---------------------------------------------------------------------------------------------

/// A file of the project, as a target is matched against it.
#[derive(Debug)]
pub struct ProjectFile {
    pub worktree_id: u64,
    /// The slash-separated path within its worktree.
    pub path: String,
    /// The path on disk.
    pub absolute: String,
    /// Whether it is a file rather than a folder.
    pub is_file: bool,
    /// How many names its path is made of.
    pub depth: usize,
    /// Whether it lies in the folder of the embedding note.
    pub beside: bool,
}

/// A text without the `.md` endings behind it.
pub open spec fn without_md(s: Seq<char>) -> Seq<char>
    decreases s.len(),
{
    if s.len() >= 3 && ends_with(s, ".md"@) {
        without_md(s.take(s.len() - 3))
    } else {
        s
    }
}

fn strip_md(s: &[char]) -> (result: &[char])
    ensures
        result@ == without_md(s@),
{
    let md = to_chars(".md");
    let mut end: usize = s.len();
    assert(s@.take(end as int) =~= s@);
    while end >= 3 && has_suffix(&s[0..end], md.as_slice())
        invariant
            end <= s@.len(),
            md@ == ".md"@,
            without_md(s@) == without_md(s@.take(end as int)),
        decreases end,
    {
        assert(s@.subrange(0, end as int) =~= s@.take(end as int));
        assert(s@.take(end as int).take(end - 3) =~= s@.take(end - 3));
        end -= 3;
    }
    assert(s@.subrange(0, end as int) =~= s@.take(end as int));
    &s[0..end]
}

/// The names that a note answers to, in small letters: its path without `.md`, and its file name
/// without an extension.
#[derive(Debug)]
pub struct NoteNames {
    pub path: String,
    pub stem: Option<String>,
}

/// What [`NoteNames`] holds.
pub struct Names {
    pub path: Seq<char>,
    pub stem: Option<Seq<char>>,
}

impl View for NoteNames {
    type V = Names;

    open spec fn view(&self) -> Names {
        Names { path: self.path@, stem: option_view(self.stem) }
    }
}

/// How well a note answers to a target: `None` where it does not. A target that spells out a path,
/// as its slash shows, names a note by its whole path first, else by its file name, beside the
/// embedding note before elsewhere. A bare name goes by the file name alone: beside the embedding
/// note first, and in each place a note at the root that bears the name in full before the others.
pub open spec fn rank_of(
    file: ProjectFile,
    names: Names,
    spelled_out: bool,
    wanted_path: Seq<char>,
    wanted_stem: Seq<char>,
) -> Option<int> {
    if !file.is_file || extension_of(file.path@) != Some("md"@) {
        None
    } else if names.path == wanted_path {
        if spelled_out || file.beside {
            Some(0)
        } else {
            Some(2)
        }
    } else if names.stem == Some(wanted_stem) {
        if file.beside {
            Some(1)
        } else {
            Some(3)
        }
    } else {
        None
    }
}

/// Whether a note of this rank and depth is preferred to the best one so far.
pub open spec fn is_better(rank: int, depth: int, best: Option<(int, int, int)>) -> bool {
    match best {
        Some((best_rank, best_depth, _)) => rank < best_rank || (rank == best_rank && depth
            < best_depth),
        None => true,
    }
}

/// The best of the first `count` notes, as its rank, its depth and its index: the best rank, then
/// the shallowest, then the first.
pub open spec fn best_of(
    files: Seq<ProjectFile>,
    names: Seq<Names>,
    spelled_out: bool,
    wanted_path: Seq<char>,
    wanted_stem: Seq<char>,
    count: int,
) -> Option<(int, int, int)>
    decreases count,
{
    if count <= 0 {
        None
    } else {
        let best = best_of(files, names, spelled_out, wanted_path, wanted_stem, count - 1);
        let file = files[count - 1];
        match rank_of(file, names[count - 1], spelled_out, wanted_path, wanted_stem) {
            Some(rank) => if is_better(rank, file.depth as int, best) {
                Some((rank, file.depth as int, count - 1))
            } else {
                best
            },
            None => best,
        }
    }
}

/// What several names hold.
pub open spec fn all_names(names: Seq<NoteNames>) -> Seq<Names> {
    Seq::new(names.len(), |k: int| names[k]@)
}

fn rank_file(
    file: &ProjectFile,
    names: &NoteNames,
    spelled_out: bool,
    wanted_path: &str,
    wanted_stem: &str,
) -> (result: Option<u32>)
    ensures
        match result {
            Some(rank) => rank_of(*file, names@, spelled_out, wanted_path@, wanted_stem@) == Some(
                rank as int,
            ),
            None => rank_of(*file, names@, spelled_out, wanted_path@, wanted_stem@) is None,
        },
{
    if !file.is_file {
        return None;
    }
    let is_note = match extension(file.path.as_str()) {
        Some(extension) => same_text(extension.as_str(), "md"),
        None => false,
    };
    if !is_note {
        return None;
    }
    if same_text(names.path.as_str(), wanted_path) {
        return if spelled_out || file.beside {
            Some(0)
        } else {
            Some(2)
        };
    }
    let same_stem = match &names.stem {
        Some(stem) => same_text(stem.as_str(), wanted_stem),
        None => false,
    };
    if same_stem {
        if file.beside {
            Some(1)
        } else {
            Some(3)
        }
    } else {
        None
    }
}

/// The index of the file that a target names, where `names` gives the names each file answers to
/// in small letters. `None` where none answers.
pub fn best_note(
    files: &Vec<ProjectFile>,
    names: &Vec<NoteNames>,
    spelled_out: bool,
    wanted_path: &str,
    wanted_stem: &str,
) -> (result: Option<usize>)
    requires
        names@.len() == files@.len(),
    ensures
        match best_of(
            files@,
            all_names(names@),
            spelled_out,
            wanted_path@,
            wanted_stem@,
            files@.len() as int,
        ) {
            Some((_, _, index)) => result == Some(index as usize) && 0 <= index < files@.len(),
            None => result is None,
        },
{
    let ghost all = all_names(names@);
    let mut best: Option<(u32, usize, usize)> = None;
    let mut k: usize = 0;
    while k < files.len()
        invariant
            k <= files@.len(),
            names@.len() == files@.len(),
            all == all_names(names@),
            match best {
                Some((rank, depth, index)) => best_of(
                    files@,
                    all,
                    spelled_out,
                    wanted_path@,
                    wanted_stem@,
                    k as int,
                ) == Some((rank as int, depth as int, index as int)) && index < k,
                None => best_of(files@, all, spelled_out, wanted_path@, wanted_stem@, k as int) is None,
            },
        decreases files@.len() - k,
    {
        match rank_file(&files[k], &names[k], spelled_out, wanted_path, wanted_stem) {
            Some(rank) => {
                let depth = files[k].depth;
                let better = match best {
                    Some((best_rank, best_depth, _)) => rank < best_rank || (rank == best_rank
                        && depth < best_depth),
                    None => true,
                };
                if better {
                    best = Some((rank, depth, k));
                }
            },
            None => {},
        }
        k += 1;
    }
    match best {
        Some((_, _, index)) => Some(index),
        None => None,
    }
}

/// The names that a file answers to, in small letters.
pub open spec fn lowered_names(path: Seq<char>) -> Names {
    Names {
        path: without_md(unicode_lowercase(path)),
        stem: match stem_of(path) {
            Some(stem) => Some(unicode_lowercase(stem)),
            None => None,
        },
    }
}

/// The names that several files answer to.
pub open spec fn files_names(files: Seq<ProjectFile>) -> Seq<Names> {
    Seq::new(files.len(), |k: int| lowered_names(files[k].path@))
}

/// The file that a target names: its index among the files. A target with a slash spells out a path
/// and names the note at that path; a bare one names a note by its file name, one beside the
/// embedding note before any other, and a shallow one before a deep one. `.md` need not be spelled.
pub open spec fn resolved(files: Seq<ProjectFile>, target: Seq<char>) -> Option<int> {
    let wanted = without_md(trim(target));
    match stem_of(wanted) {
        Some(stem) => if wanted.len() == 0 {
            None
        } else {
            match best_of(
                files,
                files_names(files),
                has_char(wanted, '/'),
                unicode_lowercase(wanted),
                unicode_lowercase(stem),
                files.len() as int,
            ) {
                Some((_, _, index)) => Some(index),
                None => None,
            }
        },
        None => None,
    }
}

/// Resolves a wikilink target to the index of one of the project's files.
pub fn resolve_embed_target(files: &Vec<ProjectFile>, target: &str) -> (result: Option<usize>)
    ensures
        found(result) == resolved(files@, target@),
{
    let chars = to_chars(target);
    let wanted = strip_md(trimmed(chars.as_slice()));
    if wanted.len() == 0 {
        return None;
    }
    let spelled_out = contains_char(wanted, '/');
    let wanted = string_of(wanted);
    let wanted_stem = match file_stem(wanted.as_str()) {
        Some(stem) => stem.as_str().to_lowercase(),
        None => {
            return None;
        },
    };
    let wanted_path = wanted.as_str().to_lowercase();
    let mut names: Vec<NoteNames> = Vec::new();
    let mut k: usize = 0;
    while k < files.len()
        invariant
            k <= files@.len(),
            names@.len() == k,
            forall|m: int| 0 <= m < k ==> (#[trigger] names@[m])@ == files_names(files@)[m],
        decreases files@.len() - k,
    {
        let file = &files[k];
        let lower = file.path.as_str().to_lowercase();
        let lower = to_chars(lower.as_str());
        let path = string_of(strip_md(lower.as_slice()));
        let stem = match file_stem(file.path.as_str()) {
            Some(stem) => Some(stem.as_str().to_lowercase()),
            None => None,
        };
        names.push(NoteNames { path, stem });
        k += 1;
    }
    assert(all_names(names@) =~= files_names(files@));
    best_note(files, &names, spelled_out, wanted_path.as_str(), wanted_stem.as_str())
}

proof fn lemma_best_of(
    files: Seq<ProjectFile>,
    names: Seq<Names>,
    spelled_out: bool,
    wanted_path: Seq<char>,
    wanted_stem: Seq<char>,
    count: int,
    k: int,
)
    requires
        0 <= k < count <= files.len(),
        rank_of(files[k], names[k], spelled_out, wanted_path, wanted_stem) is Some,
    ensures
        best_of(files, names, spelled_out, wanted_path, wanted_stem, count) matches Some(best) && best.0
            <= rank_of(files[k], names[k], spelled_out, wanted_path, wanted_stem)->0 && (best.0 == rank_of(
            files[k],
            names[k],
            spelled_out,
            wanted_path,
            wanted_stem,
        )->0 ==> best.1 <= files[k].depth),
    decreases count,
{
    if k < count - 1 {
        lemma_best_of(files, names, spelled_out, wanted_path, wanted_stem, count - 1, k);
    }
}

proof fn lemma_best_has_its_rank(
    files: Seq<ProjectFile>,
    names: Seq<Names>,
    spelled_out: bool,
    wanted_path: Seq<char>,
    wanted_stem: Seq<char>,
    count: int,
)
    requires
        0 <= count <= files.len(),
    ensures
        best_of(files, names, spelled_out, wanted_path, wanted_stem, count) matches Some(best) ==> 0
            <= best.2 < count && rank_of(
            files[best.2],
            names[best.2],
            spelled_out,
            wanted_path,
            wanted_stem,
        ) == Some(best.0) && best.1 == files[best.2].depth,
    decreases count,
{
    if count > 0 {
        lemma_best_has_its_rank(files, names, spelled_out, wanted_path, wanted_stem, count - 1);
    }
}

/// A note that a target spells out the path of is never passed over for one that merely has its
/// file name, nor a note beside the embedding one for one elsewhere that a bare name would also do
/// for, nor a shallow note for a deep one that answers as well.
pub proof fn law_a_better_answer_wins(
    files: Seq<ProjectFile>,
    names: Seq<Names>,
    spelled_out: bool,
    wanted_path: Seq<char>,
    wanted_stem: Seq<char>,
    k: int,
)
    requires
        0 <= k < files.len(),
        rank_of(files[k], names[k], spelled_out, wanted_path, wanted_stem) is Some,
    ensures
        ({
            let rank = rank_of(files[k], names[k], spelled_out, wanted_path, wanted_stem)->0;
            let count = files.len() as int;
            best_of(files, names, spelled_out, wanted_path, wanted_stem, count) matches Some(best)
                && best.0 <= rank && (best.0 == rank ==> best.1 <= files[k].depth)
        }),
        !spelled_out && files[k].beside ==> ({
            let count = files.len() as int;
            best_of(files, names, spelled_out, wanted_path, wanted_stem, count) matches Some(best)
                && files[best.2].beside
        }),
{
    let count = files.len() as int;
    lemma_best_of(files, names, spelled_out, wanted_path, wanted_stem, count, k);
    lemma_best_has_its_rank(files, names, spelled_out, wanted_path, wanted_stem, count);
}

// ---------------------------------------------------------------------------------------------
// The cache
// ---------------------------------------------------------------------------------------------

/// One embed: the folder of the embedding note, the target, and the section of it.
#[derive(Debug)]
pub struct EmbedKey {
    pub source_directory: Option<String>,
    pub target: String,
    pub section: Option<String>,
}

/// What an [`EmbedKey`] holds.
pub struct KeyView {
    pub source_directory: Option<Seq<char>>,
    pub target: Seq<char>,
    pub section: Option<Seq<char>>,
}

impl View for EmbedKey {
    type V = KeyView;

    open spec fn view(&self) -> KeyView {
        KeyView {
            source_directory: option_view(self.source_directory),
            target: self.target@,
            section: option_view(self.section),
        }
    }
}

/// A file of the project: its worktree, and its path within it.
#[derive(Debug)]
pub struct ProjectPath {
    pub worktree_id: u64,
    pub path: String,
}

impl View for ProjectPath {
    type V = (u64, Seq<char>);

    open spec fn view(&self) -> (u64, Seq<char>) {
        (self.worktree_id, self.path@)
    }
}

impl Clone for ProjectPath {
    fn clone(&self) -> (result: Self)
        ensures
            result@ == self@,
    {
        ProjectPath { worktree_id: self.worktree_id, path: self.path.clone() }
    }
}

/// What is known of an embed: its note is being loaded, is loaded, or is not there.
#[derive(Debug)]
pub enum EmbedEntry {
    Pending,
    Ready { body: String, path: ProjectPath, absolute: String },
    Missing,
}

/// What an [`EmbedEntry`] holds.
pub enum EntryView {
    Pending,
    Ready { body: Seq<char>, path: (u64, Seq<char>), absolute: Seq<char> },
    Missing,
}

impl View for EmbedEntry {
    type V = EntryView;

    open spec fn view(&self) -> EntryView {
        match self {
            EmbedEntry::Pending => EntryView::Pending,
            EmbedEntry::Ready { body, path, absolute } => EntryView::Ready {
                body: body@,
                path: path@,
                absolute: absolute@,
            },
            EmbedEntry::Missing => EntryView::Missing,
        }
    }
}

/// What an embed shows.
#[derive(Debug)]
pub enum EmbedState {
    Loading,
    Missing,
    Ready { body: String, path: ProjectPath },
}

/// What an [`EmbedState`] holds.
pub enum StateView {
    Loading,
    Missing,
    Ready { body: Seq<char>, path: (u64, Seq<char>) },
}

impl View for EmbedState {
    type V = StateView;

    open spec fn view(&self) -> StateView {
        match self {
            EmbedState::Loading => StateView::Loading,
            EmbedState::Missing => StateView::Missing,
            EmbedState::Ready { body, path } => StateView::Ready { body: body@, path: path@ },
        }
    }
}

/// What an embed shows whose entry is this one.
pub open spec fn state_of(entry: EntryView) -> StateView {
    match entry {
        EntryView::Pending => StateView::Loading,
        EntryView::Missing => StateView::Missing,
        EntryView::Ready { body, path, .. } => StateView::Ready { body, path },
    }
}

/// A text that stands for what an embed shows.
pub open spec fn reuse_key_of(state: StateView) -> Seq<char> {
    match state {
        StateView::Loading => "\u{0}loading"@,
        StateView::Missing => "\u{0}missing"@,
        StateView::Ready { body, .. } => "\u{0}ready\n"@ + body,
    }
}

impl EmbedState {
    /// A text that stands for what the embed shows, so that a widget is drawn anew when that
    /// changes.
    pub fn reuse_key(&self) -> (result: String)
        ensures
            result@ == reuse_key_of(self@),
    {
        match self {
            EmbedState::Loading => "\u{0}loading".to_owned(),
            EmbedState::Missing => "\u{0}missing".to_owned(),
            EmbedState::Ready { body, .. } => {
                let mut key = "\u{0}ready\n".to_owned();
                push_text(&mut key, body.as_str());
                key
            },
        }
    }
}

/// Embeds that show different bodies, or are in different states, have different keys.
pub proof fn law_reuse_keys_tell_states_apart(a: StateView, b: StateView)
    requires
        reuse_key_of(a) == reuse_key_of(b),
    ensures
        match (a, b) {
            (StateView::Ready { body: first, .. }, StateView::Ready { body: second, .. }) => first
                == second,
            (StateView::Loading, StateView::Loading) => true,
            (StateView::Missing, StateView::Missing) => true,
            _ => false,
        },
{
    reveal_strlit("\u{0}loading");
    reveal_strlit("\u{0}missing");
    reveal_strlit("\u{0}ready\n");
    let loading = "\u{0}loading"@;
    let missing = "\u{0}missing"@;
    let ready = "\u{0}ready\n"@;
    assert(loading[1] == 'l' && missing[1] == 'm' && ready[1] == 'r');
    match (a, b) {
        (StateView::Ready { body: first, .. }, StateView::Ready { body: second, .. }) => {
            assert((ready + first).skip(ready.len() as int) =~= first);
            assert((ready + second).skip(ready.len() as int) =~= second);
        },
        (StateView::Ready { body, .. }, _) => {
            assert((ready + body)[1] == 'r');
        },
        (_, StateView::Ready { body, .. }) => {
            assert((ready + body)[1] == 'r');
        },
        _ => {},
    }
}

/// Loaded embeds, each key once.
#[derive(Debug)]
pub struct EmbedCache {
    entries: Vec<(EmbedKey, EmbedEntry)>,
}

/// Where a key stands among entries.
spec fn holds_key(entries: Seq<(EmbedKey, EmbedEntry)>, i: int, key: KeyView) -> bool {
    0 <= i < entries.len() && entries[i].0@ == key
}

/// The entries as a map.
spec fn entries_map(entries: Seq<(EmbedKey, EmbedEntry)>) -> Map<KeyView, EntryView> {
    Map::new(
        |key: KeyView| exists|i: int| #[trigger] holds_key(entries, i, key),
        |key: KeyView| entries[choose|i: int| #[trigger] holds_key(entries, i, key)].1@,
    )
}

/// No key stands twice.
spec fn keys_once(entries: Seq<(EmbedKey, EmbedEntry)>) -> bool {
    forall|i: int, j: int|
        0 <= i < j < entries.len() ==> (#[trigger] entries[i]).0@ != (#[trigger] entries[j]).0@
}

proof fn lemma_entry_at(entries: Seq<(EmbedKey, EmbedEntry)>, i: int)
    requires
        keys_once(entries),
        0 <= i < entries.len(),
    ensures
        entries_map(entries).dom().contains(entries[i].0@),
        entries_map(entries)[entries[i].0@] == entries[i].1@,
{
    let key = entries[i].0@;
    assert(holds_key(entries, i, key));
    let j = choose|j: int| #[trigger] holds_key(entries, j, key);
    if i < j {
        assert(entries[i].0@ != entries[j].0@);
    } else if j < i {
        assert(entries[j].0@ != entries[i].0@);
    }
}

fn same_key(a: &EmbedKey, b: &EmbedKey) -> (result: bool)
    ensures
        result == (a@ == b@),
{
    same_option(&a.source_directory, &b.source_directory) && same_text(
        a.target.as_str(),
        b.target.as_str(),
    ) && same_option(&a.section, &b.section)
}

impl Clone for EmbedKey {
    fn clone(&self) -> (result: Self)
        ensures
            result@ == self@,
    {
        EmbedKey {
            source_directory: clone_option(&self.source_directory),
            target: self.target.clone(),
            section: clone_option(&self.section),
        }
    }
}

impl View for EmbedCache {
    type V = Map<KeyView, EntryView>;

    closed spec fn view(&self) -> Map<KeyView, EntryView> {
        entries_map(self.entries@)
    }
}

/// What of a cache a set of changed notes leaves: no note that changed, and nothing missing where
/// a note was created.
pub open spec fn survives(entry: EntryView, changed: Seq<Seq<char>>, note_created: bool) -> bool {
    match entry {
        EntryView::Ready { absolute, .. } => !changed.contains(absolute),
        EntryView::Missing => !note_created,
        EntryView::Pending => true,
    }
}

fn contains_text(texts: &Vec<String>, text: &str) -> (result: bool)
    ensures
        result == views(texts@).contains(text@),
{
    let mut i: usize = 0;
    while i < texts.len()
        invariant
            i <= texts@.len(),
            forall|k: int| 0 <= k < i ==> #[trigger] views(texts@)[k] != text@,
        decreases texts@.len() - i,
    {
        if same_text(texts[i].as_str(), text) {
            assert(views(texts@)[i as int] == text@);
            return true;
        }
        i += 1;
    }
    false
}

impl EmbedCache {
    /// Each key stands once.
    pub closed spec fn wf(&self) -> bool {
        keys_once(self.entries@)
    }

    /// An empty cache.
    pub fn new() -> (result: Self)
        ensures
            result.wf(),
            result@ == Map::<KeyView, EntryView>::empty(),
    {
        let result = EmbedCache { entries: Vec::new() };
        assert(result@ =~= Map::empty());
        result
    }

    fn position(&self, key: &EmbedKey) -> (result: Option<usize>)
        requires
            self.wf(),
        ensures
            match result {
                Some(i) => i < self.entries@.len() && self.entries@[i as int].0@ == key@
                    && self@.dom().contains(key@) && self@[key@] == self.entries@[i as int].1@,
                None => !self@.dom().contains(key@),
            },
    {
        let mut i: usize = 0;
        while i < self.entries.len()
            invariant
                self.wf(),
                i <= self.entries@.len(),
                forall|k: int| 0 <= k < i ==> (#[trigger] self.entries@[k]).0@ != key@,
            decreases self.entries@.len() - i,
        {
            if same_key(&self.entries[i].0, key) {
                proof {
                    lemma_entry_at(self.entries@, i as int);
                }
                return Some(i);
            }
            i += 1;
        }
        None
    }

    /// What an embed shows that has been asked for before.
    pub fn lookup(&self, key: &EmbedKey) -> (result: Option<EmbedState>)
        requires
            self.wf(),
        ensures
            match result {
                Some(state) => self@.dom().contains(key@) && state@ == state_of(self@[key@]),
                None => !self@.dom().contains(key@),
            },
    {
        match self.position(key) {
            Some(i) => {
                let state = match &self.entries[i].1 {
                    EmbedEntry::Pending => EmbedState::Loading,
                    EmbedEntry::Missing => EmbedState::Missing,
                    EmbedEntry::Ready { body, path, .. } => EmbedState::Ready {
                        body: body.clone(),
                        path: path.clone(),
                    },
                };
                Some(state)
            },
            None => None,
        }
    }

    /// Records what is known of an embed.
    pub fn insert(&mut self, key: EmbedKey, entry: EmbedEntry)
        requires
            old(self).wf(),
        ensures
            final(self).wf(),
            final(self)@ == old(self)@.insert(key@, entry@),
    {
        let ghost before = self.entries@;
        let ghost map = self@;
        let ghost key_view = key@;
        let ghost entry_view = entry@;
        match self.position(&key) {
            Some(i) => {
                self.entries.remove(i);
                self.entries.insert(i, (key, entry));
                assert(self.entries@ =~= before.update(i as int, (key, entry)));
            },
            None => {
                assert forall|k: int| 0 <= k < before.len() implies (#[trigger] before[k]).0@
                    != key_view by {
                    assert(holds_key(before, k, before[k].0@));
                }
                self.entries.push((key, entry));
            },
        }
        let ghost after = self.entries@;
        proof {
            assert(keys_once(after));
            assert forall|k: KeyView| #[trigger]
                entries_map(after).dom().contains(k) == map.insert(key_view, entry_view).dom().contains(
                    k,
                ) by {
                if entries_map(after).dom().contains(k) {
                    let j = choose|j: int| #[trigger] holds_key(after, j, k);
                    if k != key_view {
                        assert(holds_key(before, j, k));
                    }
                } else if map.dom().contains(k) {
                    let j = choose|j: int| #[trigger] holds_key(before, j, k);
                    assert(holds_key(after, j, k));
                } else if k == key_view {
                    let j = if before.len() < after.len() {
                        before.len() as int
                    } else {
                        choose|j: int| #[trigger] holds_key(before, j, k)
                    };
                    assert(holds_key(after, j, k));
                }
            }
            assert forall|k: KeyView| entries_map(after).dom().contains(k) implies #[trigger] entries_map(
                after,
            )[k] == map.insert(key_view, entry_view)[k] by {
                let j = choose|j: int| #[trigger] holds_key(after, j, k);
                lemma_entry_at(after, j);
                if k != key_view {
                    lemma_entry_at(before, j);
                }
            }
            assert(entries_map(after) =~= map.insert(key_view, entry_view));
        }
    }

    /// What an embed shows, with whether its note has to be loaded now. Where it has not been
    /// asked for before, `resolved` says whether the project has a note for it; without a project
    /// there is nothing to resolve it against, and nothing is recorded.
    pub fn embed_state(&mut self, key: &EmbedKey, has_project: bool, resolved: bool) -> (result: (
        EmbedState,
        bool,
    ))
        requires
            old(self).wf(),
        ensures
            final(self).wf(),
            if old(self)@.dom().contains(key@) {
                &&& (result.0@, result.1) == (state_of(old(self)@[key@]), false)
                &&& final(self)@ == old(self)@
            } else if !has_project {
                &&& (result.0@, result.1) == (StateView::Missing, false)
                &&& final(self)@ == old(self)@
            } else if !resolved {
                &&& (result.0@, result.1) == (StateView::Missing, false)
                &&& final(self)@ == old(self)@.insert(key@, EntryView::Missing)
            } else {
                &&& (result.0@, result.1) == (StateView::Loading, true)
                &&& final(self)@ == old(self)@.insert(key@, EntryView::Pending)
            },
    {
        match self.lookup(key) {
            Some(state) => {
                return (state, false);
            },
            None => {},
        }
        if !has_project {
            return (EmbedState::Missing, false);
        }
        if !resolved {
            self.insert(key.clone(), EmbedEntry::Missing);
            return (EmbedState::Missing, false);
        }
        self.insert(key.clone(), EmbedEntry::Pending);
        (EmbedState::Loading, true)
    }

    /// Records a note that was loaded for an embed, or that could not be: the whole text, or the
    /// section that the embed asks for. A section that the text does not have is missing.
    pub fn record_loaded(
        &mut self,
        key: EmbedKey,
        loaded: Option<String>,
        path: ProjectPath,
        absolute: String,
    )
        requires
            old(self).wf(),
        ensures
            final(self).wf(),
            final(self)@ == old(self)@.insert(
                key@,
                loaded_entry(key@.section, option_view(loaded), path@, absolute@),
            ),
    {
        let entry = match loaded {
            Some(text) => {
                let body = match &key.section {
                    Some(section) => embed_section(text.as_str(), section.as_str()),
                    None => Some(text),
                };
                match body {
                    Some(body) => EmbedEntry::Ready { body, path, absolute },
                    None => EmbedEntry::Missing,
                }
            },
            None => EmbedEntry::Missing,
        };
        self.insert(key, entry);
    }

    /// Drops what a set of changed notes makes stale, and reports whether anything was dropped. A
    /// note that was created may be what a missing one was waiting for.
    pub fn evict_embeds(&mut self, changed: &Vec<String>, note_created: bool) -> (result: bool)
        requires
            old(self).wf(),
        ensures
            final(self).wf(),
            forall|key: KeyView| #[trigger]
                final(self)@.dom().contains(key) == (old(self)@.dom().contains(key) && survives(
                    old(self)@[key],
                    views(changed@),
                    note_created,
                )),
            forall|key: KeyView|
                final(self)@.dom().contains(key) ==> #[trigger] final(self)@[key] == old(
                    self,
                )@[key],
            result == !(forall|key: KeyView| #[trigger]
                old(self)@.dom().contains(key) ==> survives(
                    old(self)@[key],
                    views(changed@),
                    note_created,
                )),
    {
        let ghost before = self.entries@;
        let ghost gone = views(changed@);
        let mut dropped = false;
        let mut i: usize = 0;
        let ghost mut from: Seq<int> = Seq::new(before.len(), |k: int| k);
        assert forall|j: int| 0 <= j < before.len() implies from.contains(j) by {
            assert(from[j] == j);
        }
        while i < self.entries.len()
            invariant
                i <= self.entries@.len(),
                keys_once(before),
                gone == views(changed@),
                from.len() == self.entries@.len(),
                forall|k: int|
                    0 <= k < from.len() ==> 0 <= (#[trigger] from[k]) < before.len()
                        && self.entries@[k] == before[from[k]],
                forall|k: int, m: int|
                    0 <= k < m < from.len() ==> (#[trigger] from[k]) < (#[trigger] from[m]),
                forall|k: int|
                    0 <= k < i ==> survives(
                        (#[trigger] self.entries@[k]).1@,
                        gone,
                        note_created,
                    ),
                forall|j: int|
                    0 <= j < before.len() && survives((#[trigger] before[j]).1@, gone, note_created)
                        ==> from.contains(j),
                !dropped ==> self.entries@ == before,
                dropped ==> exists|j: int|
                    0 <= j < before.len() && !survives(
                        (#[trigger] before[j]).1@,
                        gone,
                        note_created,
                    ),
            decreases self.entries@.len() - i,
        {
            let keep = match &self.entries[i].1 {
                EmbedEntry::Ready { absolute, .. } => !contains_text(changed, absolute.as_str()),
                EmbedEntry::Missing => !note_created,
                EmbedEntry::Pending => true,
            };
            assert(keep == survives(self.entries@[i as int].1@, gone, note_created));
            if keep {
                i += 1;
            } else {
                let ghost old_from = from;
                let ghost at = i as int;
                assert(!survives(before[from[at]].1@, gone, note_created));
                self.entries.remove(i);
                dropped = true;
                proof {
                    from = from.remove(at);
                    assert forall|j: int|
                        0 <= j < before.len() && survives(
                            (#[trigger] before[j]).1@,
                            gone,
                            note_created,
                        ) implies from.contains(j) by {
                        let k = choose|k: int| 0 <= k < old_from.len() && old_from[k] == j;
                        if k < at {
                            assert(from[k] == j);
                        } else {
                            assert(k != at);
                            assert(from[k - 1] == j);
                        }
                    }
                }
            }
        }
        let ghost after = self.entries@;
        proof {
            assert forall|a: int, b: int| 0 <= a < b < after.len() implies (#[trigger] after[a]).0@
                != (#[trigger] after[b]).0@ by {
                assert(from[a] < from[b]);
                assert(before[from[a]].0@ != before[from[b]].0@);
            }
            assert forall|key: KeyView| #[trigger]
                entries_map(after).dom().contains(key) == (entries_map(before).dom().contains(key)
                    && survives(entries_map(before)[key], gone, note_created)) by {
                if entries_map(after).dom().contains(key) {
                    let k = choose|k: int| #[trigger] holds_key(after, k, key);
                    assert(holds_key(before, from[k], key));
                    lemma_entry_at(before, from[k]);
                } else if entries_map(before).dom().contains(key) {
                    let j = choose|j: int| #[trigger] holds_key(before, j, key);
                    lemma_entry_at(before, j);
                    if survives(before[j].1@, gone, note_created) {
                        let k = choose|k: int| 0 <= k < from.len() && from[k] == j;
                        assert(holds_key(after, k, key));
                    }
                }
            }
            assert forall|key: KeyView| entries_map(after).dom().contains(
                key,
            ) implies #[trigger] entries_map(after)[key] == entries_map(before)[key] by {
                let k = choose|k: int| #[trigger] holds_key(after, k, key);
                lemma_entry_at(after, k);
                lemma_entry_at(before, from[k]);
            }
            if dropped {
                let j = choose|j: int|
                    0 <= j < before.len() && !survives(
                        (#[trigger] before[j]).1@,
                        gone,
                        note_created,
                    );
                lemma_entry_at(before, j);
                assert(old(self)@.dom().contains(before[j].0@));
            } else {
                assert forall|key: KeyView| #[trigger]
                    old(self)@.dom().contains(key) implies survives(
                    old(self)@[key],
                    gone,
                    note_created,
                ) by {
                    let j = choose|j: int| #[trigger] holds_key(before, j, key);
                    lemma_entry_at(before, j);
                    assert(survives(after[j].1@, gone, note_created));
                }
            }
        }
        dropped
    }
}

/// What is recorded of a note that was loaded, or could not be.
pub open spec fn loaded_entry(
    section: Option<Seq<char>>,
    loaded: Option<Seq<char>>,
    path: (u64, Seq<char>),
    absolute: Seq<char>,
) -> EntryView {
    match loaded {
        Some(text) => match section {
            Some(section) => match note_section(text, section) {
                Some(body) => EntryView::Ready { body, path, absolute },
                None => EntryView::Missing,
            },
            None => EntryView::Ready { body: text, path, absolute },
        },
        None => EntryView::Missing,
    }
}

/// What an embed card is labelled: its target, with the section behind it.
pub open spec fn label_of(target: Seq<char>, section: Option<Seq<char>>) -> Seq<char> {
    match section {
        Some(section) => target + " › "@ + section,
        None => target,
    }
}

/// What an embed card is labelled.
pub fn embed_label(target: &str, section: &Option<String>) -> (result: String)
    ensures
        result@ == label_of(target@, option_view(*section)),
{
    let mut label = target.to_owned();
    match section {
        Some(section) => {
            push_text(&mut label, " › ");
            push_text(&mut label, section.as_str());
        },
        None => {},
    }
    label
}

} // verus!
