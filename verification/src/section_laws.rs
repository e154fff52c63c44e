//! What the section of a note is: a heading and what stands under it.

use crate::embed::{
    heading_titles, line_at, line_level, lines_between, section_end, section_of, section_start,
    unicode_lowercase,
};
use crate::text::{join, lemma_run_end, run_end, text_lines, CharClass};
use crate::text_laws::{is_blank_text, is_tight, law_trimming_takes_the_outer_blanks};
use vstd::prelude::*;

verus! {

/// Whether a line opens with exactly so many hashes, from one to six, and so is a heading.
pub open spec fn is_heading(line: Seq<char>, hashes: int) -> bool {
    &&& 1 <= hashes <= 6
    &&& hashes <= line.len()
    &&& forall|k: int| 0 <= k < hashes ==> #[trigger] line[k] == '#'
    &&& line.len() == hashes || line[hashes] != '#'
}

/// Whether a line is a heading of this level or a higher one, which has fewer hashes.
pub open spec fn ends_section(line: Seq<char>, level: int) -> bool {
    exists|hashes: int| #[trigger] is_heading(line, hashes) && hashes <= level
}

/// Whether a line is a heading of any level.
pub open spec fn is_some_heading(line: Seq<char>) -> bool {
    exists|hashes: int| #[trigger] is_heading(line, hashes)
}

/// A line has as its level how many hashes it opens with, and none where these are none, or more
/// than six.
pub proof fn law_a_heading_has_its_hashes_for_a_level(line: Seq<char>, hashes: int)
    ensures
        is_heading(line, hashes) == (line_level(line) == Some(hashes)),
        is_some_heading(line) == (line_level(line) is Some),
{
    let class = CharClass::Only('#');
    lemma_run_end(line, class, 0);
    let end = run_end(line, class, 0);
    assert forall|n: int| #[trigger] is_heading(line, n) implies line_level(line) == Some(n) by {
        if end < n {
            assert(line[end] == '#');
        } else if n < end {
            assert(class.holds(line[n]));
        }
    }
    if 1 <= end <= 6 {
        assert forall|k: int| 0 <= k < end implies #[trigger] line[k] == '#' by {
            assert(class.holds(line[k]));
        }
        assert(is_heading(line, end));
    }
}

pub(crate) proof fn lemma_section_start(s: Seq<char>, titles: Seq<Seq<char>>, wanted: Seq<char>, k: int)
    requires
        0 <= k,
    ensures
        match section_start(s, titles, wanted, k) {
            Some(first) => k <= first < text_lines(s).len() && is_some_heading(line_at(s, first))
                && titles[first] == wanted && forall|m: int|
                k <= m < first ==> !(is_some_heading(#[trigger] line_at(s, m)) && titles[m]
                    == wanted),
            None => forall|m: int|
                k <= m < text_lines(s).len() ==> !(is_some_heading(#[trigger] line_at(s, m))
                    && titles[m] == wanted),
        },
    decreases text_lines(s).len() - k,
{
    if k < text_lines(s).len() {
        law_a_heading_has_its_hashes_for_a_level(line_at(s, k), 0);
        if !(line_level(line_at(s, k)) is Some && titles[k] == wanted) {
            lemma_section_start(s, titles, wanted, k + 1);
        }
    }
}

pub(crate) proof fn lemma_section_end(s: Seq<char>, level: int, k: int)
    requires
        0 <= k <= text_lines(s).len(),
    ensures
        k <= section_end(s, level, k) <= text_lines(s).len(),
        forall|m: int|
            k <= m < section_end(s, level, k) ==> !ends_section(#[trigger] line_at(s, m), level),
        section_end(s, level, k) < text_lines(s).len() ==> ends_section(
            line_at(s, section_end(s, level, k)),
            level,
        ),
    decreases text_lines(s).len() - k,
{
    if k < text_lines(s).len() {
        let line = line_at(s, k);
        assert(ends_section(line, level) == (line_level(line) matches Some(found) && found
            <= level)) by {
            law_a_heading_has_its_hashes_for_a_level(line, 0);
            if let Some(found) = line_level(line) {
                law_a_heading_has_its_hashes_for_a_level(line, found);
                assert(is_heading(line, found));
            }
            if ends_section(line, level) {
                let hashes = choose|hashes: int| #[trigger]
                    is_heading(line, hashes) && hashes <= level;
                law_a_heading_has_its_hashes_for_a_level(line, hashes);
            }
        }
        if !ends_section(line, level) {
            lemma_section_end(s, level, k + 1);
        }
    }
}

/// A section is a run of lines of the note with newlines between them. Its first line is a heading
/// with the wanted title, the first of the note. No line behind that is a heading with as few hashes
/// or fewer, and the line behind the section, if there is one, is such a heading.
pub proof fn law_a_section_ends_before_the_next_heading(
    s: Seq<char>,
    titles: Seq<Seq<char>>,
    wanted: Seq<char>,
) -> (bounds: (int, int, int))
    requires
        section_of(s, titles, wanted) is Some,
    ensures
        ({
            let (first, last, level) = bounds;
            &&& 0 <= first < last <= text_lines(s).len()
            &&& section_of(s, titles, wanted)->0 == join(
                Seq::new((last - first) as nat, |k: int| line_at(s, first + k)),
                seq!['\n'],
            )
            &&& is_heading(line_at(s, first), level)
            &&& titles[first] == wanted
            &&& forall|m: int|
                0 <= m < first ==> !(is_some_heading(#[trigger] line_at(s, m)) && titles[m]
                    == wanted)
            &&& forall|m: int|
                first < m < last ==> !ends_section(#[trigger] line_at(s, m), level)
            &&& last < text_lines(s).len() ==> ends_section(line_at(s, last), level)
        }),
{
    reveal_strlit("\n");
    assert("\n"@ =~= seq!['\n']);
    lemma_section_start(s, titles, wanted, 0);
    let first = section_start(s, titles, wanted, 0)->0;
    let line = line_at(s, first);
    let level = line_level(line)->0;
    law_a_heading_has_its_hashes_for_a_level(line, level);
    lemma_section_end(s, level, first + 1);
    let last = section_end(s, level, first + 1);
    assert(lines_between(s, first, last) =~= Seq::new(
        (last - first) as nat,
        |k: int| line_at(s, first + k),
    ));
    (first, last, level)
}

/// A note has a section wherever one of its headings has the wanted title, and only there.
pub proof fn law_a_titled_heading_has_its_section(
    s: Seq<char>,
    titles: Seq<Seq<char>>,
    wanted: Seq<char>,
)
    ensures
        section_of(s, titles, wanted) is Some == exists|m: int|
            0 <= m < text_lines(s).len() && is_some_heading(#[trigger] line_at(s, m)) && titles[m]
                == wanted,
{
    lemma_section_start(s, titles, wanted, 0);
}

/// A heading is looked up by its text behind the hashes, without white space round it, in small
/// letters.
pub proof fn law_a_heading_has_its_text_for_a_title(
    s: Seq<char>,
    k: int,
    hashes: int,
    left: Seq<char>,
    title: Seq<char>,
    right: Seq<char>,
)
    requires
        0 <= k < text_lines(s).len(),
        is_heading(line_at(s, k), hashes),
        line_at(s, k).skip(hashes) == left + title + right,
        is_blank_text(left),
        is_blank_text(right),
        title.len() == 0 || is_tight(title),
    ensures
        heading_titles(s)[k] == unicode_lowercase(title),
{
    law_a_heading_has_its_hashes_for_a_level(line_at(s, k), hashes);
    law_trimming_takes_the_outer_blanks(left, title, right);
}

} // verus!
