//! What the prose of a text comes to: wikilinks, citations, footnotes, highlights and tags, each said
//! of the characters that stand in a region.

use crate::citation::{citation_key_char, key_at, key_text, keys_from};
use crate::document::line_start;
use crate::extract::{all_marks, walk_layers, SyntaxLayer};
use crate::extraction::Marks;
use crate::markers::{InlineLook, InlineMark};
use crate::scans::{
    citations_of, footnotes_of, highlights_of, is_citation, is_footnote, is_highlight, key_spans,
    letter_classes, region_span, region_tags, tag_end, tag_run_end, tags_from, tags_of,
    touches_code, unicode_alphanumeric, unicode_numeric, wikilinks_of, with_citation,
    with_citations, with_footnote, with_footnotes, with_highlight, with_highlights, with_tags,
    with_wikilink, with_wikilinks,
};
use crate::text::{
    ascii_alphanumeric, byte_offset, byte_span, find_char, find_pair, has_part,
    lemma_byte_offset_grows, lemma_find_char, lemma_find_char_back, lemma_index_at, lemma_run_end,
    lemma_run_start, piece, run_end, run_start, white_space, CharClass,
};
use crate::walk_laws::{
    grows, hides, lemma_citations_grow, lemma_footnotes_grow, lemma_grows_on, lemma_highlights_grow,
    lemma_last_is_there, lemma_scans_grow, lemma_still_there, lemma_tags_grow, lemma_wikilinks_grow,
};
use crate::wikilink::{is_link_body, shown_from};
use vstd::prelude::*;

verus! {

// ---------------------------------------------------------------------------------------------
// Regions
// ---------------------------------------------------------------------------------------------

/// The byte range of the characters from `i` up to `j`.
pub open spec fn bytes_between(s: Seq<char>, i: int, j: int) -> (int, int) {
    (byte_offset(s, i) as int, byte_offset(s, j) as int)
}

/// Whether a text has prose from character `i` up to `j`.
pub open spec fn is_prose(s: Seq<char>, layers: Seq<SyntaxLayer>, i: int, j: int) -> bool {
    0 <= i <= j <= s.len() && all_marks(s, layers).prose_regions.contains(bytes_between(s, i, j))
}

/// Whether no code of a text has a character from `i` up to `j`.
pub open spec fn is_no_code(s: Seq<char>, layers: Seq<SyntaxLayer>, i: int, j: int) -> bool {
    let code = all_marks(s, layers).code_spans;
    forall|k: int|
        0 <= k < code.len() ==> (#[trigger] code[k]).1 <= byte_offset(s, i) || byte_offset(s, j)
            <= code[k].0
}

proof fn lemma_wikilinks_of_region(
    s: Seq<char>,
    m: Marks,
    regions: Seq<(int, int)>,
    count: int,
    k: int,
) -> (at: Marks)
    requires
        0 <= k < count <= regions.len(),
        region_span(s, regions[k]) is Some,
    ensures
        at.code_spans == m.code_spans,
        grows(with_wikilinks(s, at, region_span(s, regions[k])->0, 0), wikilinks_of(s, m, regions, count)),
    decreases count,
{
    let before = wikilinks_of(s, m, regions, count - 1);
    lemma_scans_grow(s, m, regions, count - 1);
    if k == count - 1 {
        before
    } else {
        let at = lemma_wikilinks_of_region(s, m, regions, count - 1, k);
        if region_span(s, regions[count - 1]) is Some {
            let region = region_span(s, regions[count - 1])->0;
            lemma_wikilinks_grow(s, before, region, 0);
            lemma_grows_on(
                with_wikilinks(s, at, region_span(s, regions[k])->0, 0),
                before,
                wikilinks_of(s, m, regions, count),
            );
        }
        at
    }
}

proof fn lemma_citations_of_region(
    s: Seq<char>,
    m: Marks,
    regions: Seq<(int, int)>,
    count: int,
    k: int,
) -> (at: Marks)
    requires
        0 <= k < count <= regions.len(),
        region_span(s, regions[k]) is Some,
    ensures
        at.code_spans == m.code_spans,
        grows(with_citations(s, at, region_span(s, regions[k])->0, 0), citations_of(s, m, regions, count)),
    decreases count,
{
    let before = citations_of(s, m, regions, count - 1);
    lemma_scans_grow(s, m, regions, count - 1);
    if k == count - 1 {
        before
    } else {
        let at = lemma_citations_of_region(s, m, regions, count - 1, k);
        if region_span(s, regions[count - 1]) is Some {
            let region = region_span(s, regions[count - 1])->0;
            lemma_citations_grow(s, before, region, 0);
            lemma_grows_on(
                with_citations(s, at, region_span(s, regions[k])->0, 0),
                before,
                citations_of(s, m, regions, count),
            );
        }
        at
    }
}

proof fn lemma_footnotes_of_region(
    s: Seq<char>,
    m: Marks,
    regions: Seq<(int, int)>,
    count: int,
    k: int,
) -> (at: Marks)
    requires
        0 <= k < count <= regions.len(),
        region_span(s, regions[k]) is Some,
    ensures
        at.code_spans == m.code_spans,
        grows(with_footnotes(s, at, region_span(s, regions[k])->0, 0), footnotes_of(s, m, regions, count)),
    decreases count,
{
    let before = footnotes_of(s, m, regions, count - 1);
    lemma_scans_grow(s, m, regions, count - 1);
    if k == count - 1 {
        before
    } else {
        let at = lemma_footnotes_of_region(s, m, regions, count - 1, k);
        if region_span(s, regions[count - 1]) is Some {
            let region = region_span(s, regions[count - 1])->0;
            lemma_footnotes_grow(s, before, region, 0);
            lemma_grows_on(
                with_footnotes(s, at, region_span(s, regions[k])->0, 0),
                before,
                footnotes_of(s, m, regions, count),
            );
        }
        at
    }
}

proof fn lemma_highlights_of_region(
    s: Seq<char>,
    m: Marks,
    regions: Seq<(int, int)>,
    count: int,
    k: int,
) -> (at: Marks)
    requires
        0 <= k < count <= regions.len(),
        region_span(s, regions[k]) is Some,
    ensures
        at.code_spans == m.code_spans,
        grows(with_highlights(s, at, region_span(s, regions[k])->0, 0), highlights_of(s, m, regions, count)),
    decreases count,
{
    let before = highlights_of(s, m, regions, count - 1);
    lemma_scans_grow(s, m, regions, count - 1);
    if k == count - 1 {
        before
    } else {
        let at = lemma_highlights_of_region(s, m, regions, count - 1, k);
        if region_span(s, regions[count - 1]) is Some {
            let region = region_span(s, regions[count - 1])->0;
            lemma_highlights_grow(s, before, region, 0);
            lemma_grows_on(
                with_highlights(s, at, region_span(s, regions[k])->0, 0),
                before,
                highlights_of(s, m, regions, count),
            );
        }
        at
    }
}

proof fn lemma_tags_of_region(
    s: Seq<char>,
    m: Marks,
    regions: Seq<(int, int)>,
    count: int,
    k: int,
) -> (at: Marks)
    requires
        0 <= k < count <= regions.len(),
        region_span(s, regions[k]) is Some,
    ensures
        at.code_spans == m.code_spans,
        ({
            let region = region_span(s, regions[k])->0;
            let tags = region_tags(s, region);
            grows(
                with_tags(s, at, region.0, tags, tags.len() as int),
                tags_of(s, m, regions, count),
            )
        }),
    decreases count,
{
    let before = tags_of(s, m, regions, count - 1);
    lemma_scans_grow(s, m, regions, count - 1);
    if k == count - 1 {
        before
    } else {
        let at = lemma_tags_of_region(s, m, regions, count - 1, k);
        if region_span(s, regions[count - 1]) is Some {
            let other = region_span(s, regions[count - 1])->0;
            let others = region_tags(s, other);
            lemma_tags_grow(s, before, other.0, others, others.len() as int);
            let region = region_span(s, regions[k])->0;
            let tags = region_tags(s, region);
            lemma_grows_on(
                with_tags(s, at, region.0, tags, tags.len() as int),
                before,
                tags_of(s, m, regions, count),
            );
        }
        at
    }
}

/// The steps of the scans, each with the marks that it leaves.
#[verifier::rlimit(60)]
proof fn lemma_stages(s: Seq<char>, layers: Seq<SyntaxLayer>) -> (stages: (
    Marks,
    Marks,
    Marks,
    Marks,
    Marks,
))
    ensures
        ({
            let all = all_marks(s, layers);
            let (walked, linked, cited, noted, marked) = stages;
            let regions = all.prose_regions;
            let count = regions.len() as int;
            &&& linked == wikilinks_of(s, walked, regions, count)
            &&& cited == citations_of(s, linked, regions, count)
            &&& noted == footnotes_of(s, cited, regions, count)
            &&& marked == highlights_of(s, noted, regions, count)
            &&& all == tags_of(s, marked, regions, count)
            &&& walked.code_spans == all.code_spans
            &&& linked.code_spans == all.code_spans
            &&& cited.code_spans == all.code_spans
            &&& noted.code_spans == all.code_spans
            &&& marked.code_spans == all.code_spans
            &&& grows(linked, all)
            &&& grows(cited, all)
            &&& grows(noted, all)
            &&& grows(marked, all)
        }),
{
    let walked = walk_layers(s, layers, layers.len() as int);
    let regions = walked.prose_regions;
    let count = regions.len() as int;
    let linked = wikilinks_of(s, walked, regions, count);
    lemma_scans_grow(s, walked, regions, count);
    let cited = citations_of(s, linked, regions, count);
    lemma_scans_grow(s, linked, regions, count);
    let noted = footnotes_of(s, cited, regions, count);
    lemma_scans_grow(s, cited, regions, count);
    let marked = highlights_of(s, noted, regions, count);
    lemma_scans_grow(s, noted, regions, count);
    let all = tags_of(s, marked, regions, count);
    lemma_scans_grow(s, marked, regions, count);
    lemma_grows_on(noted, marked, all);
    lemma_grows_on(cited, noted, all);
    lemma_grows_on(linked, cited, all);
    (walked, linked, cited, noted, marked)
}

/// The region that starts at character `i` and ends before `j`, as the scans find it.
proof fn lemma_prose(s: Seq<char>, layers: Seq<SyntaxLayer>, i: int, j: int) -> (k: int)
    requires
        is_prose(s, layers, i, j),
    ensures
        0 <= k < all_marks(s, layers).prose_regions.len(),
        region_span(s, all_marks(s, layers).prose_regions[k]) == Some((i, j)),
{
    let regions = all_marks(s, layers).prose_regions;
    let bytes = bytes_between(s, i, j);
    let k = choose|k: int| 0 <= k < regions.len() && regions[k] == bytes;
    lemma_index_at(s, i);
    lemma_index_at(s, j);
    lemma_byte_offset_grows(s, i, j);
    k
}

pub(crate) proof fn lemma_no_code(s: Seq<char>, layers: Seq<SyntaxLayer>, i: int, j: int)
    requires
        is_no_code(s, layers, i, j),
    ensures
        !touches_code(all_marks(s, layers).code_spans, byte_span(s, (i, j))),
{
}

/// What is hidden stays hidden while more is found.
proof fn lemma_hidden(before: Marks, range: (int, int), reveal: (int, int), after: Marks, all: Marks)
    requires
        after.inline.len() > before.inline.len(),
        after.inline[before.inline.len() as int] == (InlineMark {
            range,
            look: InlineLook::Hide { reveal_span: reveal },
        }),
        grows(after, all),
    ensures
        hides(all, range, reveal),
{
    let mark = InlineMark { range, look: InlineLook::Hide { reveal_span: reveal } };
    assert(after.inline.contains(mark));
    lemma_still_there(after.inline, all.inline, mark);
}

/// Two characters of a text, one right behind the other.
pub open spec fn stands(s: Seq<char>, i: int, a: char, b: char) -> bool {
    s[i] == a && s[i + 1] == b
}

pub(crate) proof fn lemma_pair_is_at(r: Seq<char>, a: char, b: char, from: int, at: int)
    requires
        0 <= from <= at,
        at + 1 < r.len(),
        stands(r, at, a, b),
        forall|i: int| from <= i < at ==> !#[trigger] stands(r, i, a, b),
    ensures
        find_pair(r, a, b, from) == Some(at),
    decreases at - from,
{
    if from < at {
        assert(!stands(r, from, a, b));
        lemma_pair_is_at(r, a, b, from + 1, at);
    }
}

/// The first pair at or behind a place is not behind any other.
proof fn lemma_pair_by(r: Seq<char>, a: char, b: char, from: int, at: int)
    requires
        0 <= from <= at,
        at + 1 < r.len(),
        stands(r, at, a, b),
    ensures
        find_pair(r, a, b, from) is Some,
        from <= find_pair(r, a, b, from)->0 <= at,
        stands(r, find_pair(r, a, b, from)->0, a, b),
    decreases at - from,
{
    if from < at && !stands(r, from, a, b) {
        lemma_pair_by(r, a, b, from + 1, at);
    }
}

proof fn lemma_char_is_at(r: Seq<char>, c: char, from: int, at: int)
    requires
        0 <= from <= at < r.len(),
        r[at] == c,
        forall|i: int| from <= i < at ==> #[trigger] r[i] != c,
    ensures
        find_char(r, c, from) == Some(at),
{
    lemma_find_char(r, c, from);
}

// ---------------------------------------------------------------------------------------------
// Wikilinks
// ---------------------------------------------------------------------------------------------

/// Whether the next link of a region behind `from` opens at `open` and closes at `close`.
pub open spec fn is_next_link(
    s: Seq<char>,
    region: (int, int),
    from: int,
    open: int,
    close: int,
) -> bool {
    &&& region.0 <= from <= open
    &&& open + 2 <= close
    &&& close + 2 <= region.1
    &&& stands(s, open, '[', '[')
    &&& stands(s, close, ']', ']')
    &&& forall|i: int| from <= i < open ==> !#[trigger] stands(s, i, '[', '[')
    &&& forall|i: int| open + 2 <= i < close ==> !#[trigger] stands(s, i, ']', ']')
}

/// Whether these are the first links of a region, by where each opens and closes.
pub open spec fn are_links(s: Seq<char>, region: (int, int), links: Seq<(int, int)>) -> bool {
    forall|k: int|
        0 <= k < links.len() ==> is_next_link(
            s,
            region,
            if k == 0 {
                region.0
            } else {
                links[k - 1].1 + 2
            },
            (#[trigger] links[k]).0,
            links[k].1,
        )
}

proof fn lemma_next_link(s: Seq<char>, m: Marks, region: (int, int), from: int, open: int, close: int)
    requires
        0 <= region.0 <= region.1 <= s.len(),
        is_next_link(s, region, from, open, close),
    ensures
        with_wikilinks(s, m, region, from - region.0) == with_wikilinks(
            s,
            with_wikilink(s, m, region.0, open - region.0, close - region.0),
            region,
            close + 2 - region.0,
        ),
{
    let r = piece(s, region);
    let base = region.0;
    assert forall|i: int| from - base <= i < open - base implies !#[trigger] stands(
        r,
        i,
        '[',
        '[',
    ) by {
        assert(!stands(s, i + base, '[', '['));
    }
    assert forall|i: int| open - base + 2 <= i < close - base implies !#[trigger] stands(
        r,
        i,
        ']',
        ']',
    ) by {
        assert(!stands(s, i + base, ']', ']'));
    }
    lemma_pair_is_at(r, '[', '[', from - base, open - base);
    lemma_pair_is_at(r, ']', ']', open - base + 2, close - base);
}

proof fn lemma_links(
    s: Seq<char>,
    m: Marks,
    region: (int, int),
    links: Seq<(int, int)>,
    k: int,
) -> (at: Marks)
    requires
        0 <= region.0 <= region.1 <= s.len(),
        are_links(s, region, links),
        0 <= k < links.len(),
    ensures
        at.code_spans == m.code_spans,
        with_wikilinks(s, m, region, 0) == with_wikilinks(
            s,
            with_wikilink(s, at, region.0, links[k].0 - region.0, links[k].1 - region.0),
            region,
            links[k].1 + 2 - region.0,
        ),
    decreases k,
{
    let link = links[k];
    if k == 0 {
        lemma_next_link(s, m, region, region.0, link.0, link.1);
        m
    } else {
        let before = links[k - 1];
        let at = lemma_links(s, m, region, links, k - 1);
        let next = with_wikilink(s, at, region.0, before.0 - region.0, before.1 - region.0);
        assert(is_next_link(s, region, before.1 + 2, link.0, link.1));
        lemma_next_link(s, next, region, before.1 + 2, link.0, link.1);
        next
    }
}

/// The marks before a link of a region, and what the link adds to them.
#[verifier::rlimit(60)]
pub(crate) proof fn lemma_link(
    s: Seq<char>,
    layers: Seq<SyntaxLayer>,
    region: (int, int),
    links: Seq<(int, int)>,
    k: int,
) -> (at: Marks)
    requires
        is_prose(s, layers, region.0, region.1),
        are_links(s, region, links),
        0 <= k < links.len(),
    ensures
        at.code_spans == all_marks(s, layers).code_spans,
        grows(
            with_wikilink(s, at, region.0, links[k].0 - region.0, links[k].1 - region.0),
            all_marks(s, layers),
        ),
{
    let all = all_marks(s, layers);
    let regions = all.prose_regions;
    let (walked, linked, cited, noted, marked) = lemma_stages(s, layers);
    let n = lemma_prose(s, layers, region.0, region.1);
    let first = lemma_wikilinks_of_region(s, walked, regions, regions.len() as int, n);
    let at = lemma_links(s, first, region, links, k);
    let with = with_wikilink(s, at, region.0, links[k].0 - region.0, links[k].1 - region.0);
    lemma_wikilinks_grow(s, with, region, links[k].1 + 2 - region.0);
    lemma_grows_on(with, with_wikilinks(s, first, region, 0), linked);
    lemma_grows_on(with, linked, all);
    at
}

/// Whether a link can have this body: characters of one line, with no other link opened in it.
pub open spec fn is_body(s: Seq<char>, i: int, j: int) -> bool {
    &&& i < j
    &&& forall|k: int| i <= k < j ==> #[trigger] s[k] != '\n'
    &&& forall|k: int| i <= k < j - 1 ==> !#[trigger] stands(s, k, '[', '[')
}

pub(crate) proof fn lemma_body(s: Seq<char>, i: int, j: int)
    requires
        0 <= i <= j <= s.len(),
        is_body(s, i, j),
    ensures
        is_link_body(s.subrange(i, j)),
{
    let inner = s.subrange(i, j);
    lemma_find_char(inner, '\n', 0);
    if find_char(inner, '\n', 0) is Some {
        let at = find_char(inner, '\n', 0)->0;
        assert(s[i + at] == '\n');
    }
    if has_part(inner, seq!['[', '[']) {
        let needle = seq!['[', '['];
        let k = choose|k: int|
            0 <= k <= inner.len() - needle.len() && #[trigger] inner.subrange(k, k + needle.len())
                == needle;
        assert(inner.subrange(k, k + needle.len())[0] == '[');
        assert(inner.subrange(k, k + needle.len())[1] == '[');
        assert(stands(s, i + k, '[', '['));
    }
}

/// Whether what shows of a link's body starts at `shown`: behind its first pipe, or with it where it
/// has none.
pub open spec fn shows_from(s: Seq<char>, i: int, j: int, shown: int) -> bool {
    ||| shown == i && forall|k: int| i <= k < j ==> #[trigger] s[k] != '|'
    ||| i < shown <= j && s[shown - 1] == '|' && forall|k: int|
        i <= k < shown - 1 ==> #[trigger] s[k] != '|'
}

pub(crate) proof fn lemma_shown(s: Seq<char>, i: int, j: int, shown: int)
    requires
        0 <= i <= j <= s.len(),
        shows_from(s, i, j, shown),
    ensures
        shown_from(s.subrange(i, j)) == shown - i,
{
    let inner = s.subrange(i, j);
    lemma_find_char(inner, '|', 0);
    if find_char(inner, '|', 0) is Some {
        let at = find_char(inner, '|', 0)->0;
        assert(s[i + at] == '|');
        if at != shown - 1 - i {
            if at > shown - 1 - i {
                assert(inner[shown - 1 - i] == '|');
            }
            assert(false);
        }
    } else if shown > i {
        assert(inner[shown - 1 - i] == '|');
    }
}

/// What a wikilink adds, said of the text.
#[verifier::rlimit(60)]
proof fn lemma_with_wikilink(
    s: Seq<char>,
    at: Marks,
    all: Marks,
    base: int,
    open: int,
    close: int,
    shown: int,
)
    requires
        0 <= base <= open,
        open + 2 <= close,
        close + 2 <= s.len(),
        grows(with_wikilink(s, at, base, open - base, close - base), all),
        is_body(s, open + 2, close),
        !touches_code(at.code_spans, byte_span(s, (open, close + 2))),
        base < open ==> s[open - 1] != '!',
        shows_from(s, open + 2, close, shown),
    ensures
        hides(all, bytes_between(s, open, shown), bytes_between(s, open, close + 2)),
        hides(all, bytes_between(s, close, close + 2), bytes_between(s, open, close + 2)),
        all.link_text.contains(bytes_between(s, shown, close)),
{
    let with = with_wikilink(s, at, base, open - base, close - base);
    lemma_body(s, open + 2, close);
    lemma_shown(s, open + 2, close, shown);
    lemma_byte_offset_grows(s, open, shown);
    lemma_byte_offset_grows(s, close, close + 2);
    let reveal = bytes_between(s, open, close + 2);
    lemma_hidden(at, bytes_between(s, open, shown), reveal, with, all);
    let mark = InlineMark {
        range: bytes_between(s, close, close + 2),
        look: InlineLook::Hide { reveal_span: reveal },
    };
    assert(with.inline.last() == mark);
    lemma_still_there(with.inline, all.inline, mark);
    lemma_last_is_there(at.link_text, bytes_between(s, shown, close));
    lemma_still_there(with.link_text, all.link_text, bytes_between(s, shown, close));
}

/// A wikilink shows as its name, or as its alias where it has one: its brackets, its target and its
/// pipe are hidden until the selection touches the link.
#[verifier::rlimit(60)]
pub proof fn law_a_wikilink_shows_its_name(
    s: Seq<char>,
    layers: Seq<SyntaxLayer>,
    region: (int, int),
    links: Seq<(int, int)>,
    k: int,
    shown: int,
)
    requires
        is_prose(s, layers, region.0, region.1),
        are_links(s, region, links),
        0 <= k < links.len(),
        is_body(s, links[k].0 + 2, links[k].1),
        is_no_code(s, layers, links[k].0, links[k].1 + 2),
        region.0 < links[k].0 ==> s[links[k].0 - 1] != '!',
        shows_from(s, links[k].0 + 2, links[k].1, shown),
    ensures
        ({
            let (open, close) = links[k];
            let all = all_marks(s, layers);
            let reveal = bytes_between(s, open, close + 2);
            &&& hides(all, bytes_between(s, open, shown), reveal)
            &&& hides(all, bytes_between(s, close, close + 2), reveal)
            &&& all.link_text.contains(bytes_between(s, shown, close))
        }),
{
    let all = all_marks(s, layers);
    let at = lemma_link(s, layers, region, links, k);
    let (open, close) = links[k];
    lemma_no_code(s, layers, open, close + 2);
    lemma_with_wikilink(s, at, all, region.0, open, close, shown);
}

/// A link in code adds nothing, nor does one with an empty body, one over two lines, or one with
/// another link opened in it.
pub proof fn law_what_is_no_wikilink_stays_text(
    s: Seq<char>,
    m: Marks,
    base: int,
    open: int,
    close: int,
)
    requires
        0 <= base,
        0 <= open,
        open + 2 <= close,
        base + close + 2 <= s.len(),
        ({
            let start = base + open;
            let end = base + close;
            ||| start + 2 == end
            ||| exists|k: int| start + 2 <= k < end && #[trigger] s[k] == '\n'
            ||| exists|k: int| start + 2 <= k < end - 1 && #[trigger] stands(s, k, '[', '[')
            ||| touches_code(m.code_spans, bytes_between(s, start, end + 2))
        }),
    ensures
        with_wikilink(s, m, base, open, close) == m,
{
    let start = base + open;
    let end = base + close;
    let inner = s.subrange(start + 2, end);
    lemma_find_char(inner, '\n', 0);
    if exists|k: int| start + 2 <= k < end && #[trigger] s[k] == '\n' {
        let k = choose|k: int| start + 2 <= k < end && #[trigger] s[k] == '\n';
        assert(inner[k - start - 2] == '\n');
    } else if exists|k: int| start + 2 <= k < end - 1 && #[trigger] stands(s, k, '[', '[') {
        let k = choose|k: int| start + 2 <= k < end - 1 && #[trigger] stands(s, k, '[', '[');
        let needle = seq!['[', '['];
        assert(inner.subrange(k - start - 2, k - start - 2 + needle.len()) =~= needle);
    }
}

// ---------------------------------------------------------------------------------------------
// Citations
// ---------------------------------------------------------------------------------------------

/// A key of a citation is made of ASCII letters and digits and of these characters.
pub proof fn law_a_key_is_made_of_these(c: char)
    ensures
        citation_key_char(c) <==> {
            ||| 'a' <= c <= 'z'
            ||| 'A' <= c <= 'Z'
            ||| '0' <= c <= '9'
            ||| "_:.#$%&-+?<>~/"@.contains(c)
        },
{
    reveal_strlit("_:.#$%&-+?<>~/");
    let list = "_:.#$%&-+?<>~/"@;
    assert(list =~= seq![
        '_',
        ':',
        '.',
        '#',
        '$',
        '%',
        '&',
        '-',
        '+',
        '?',
        '<',
        '>',
        '~',
        '/',
    ]);
    if citation_key_char(c) && !ascii_alphanumeric(c) {
        assert(exists|i: int| 0 <= i < list.len() && list[i] == c) by {
            assert(list[0] == c || list[1] == c || list[2] == c || list[3] == c || list[4] == c
                || list[5] == c || list[6] == c || list[7] == c || list[8] == c || list[9] == c
                || list[10] == c || list[11] == c || list[12] == c || list[13] == c);
        }
    }
}

/// Whether a character is an ASCII letter, an ASCII digit or `_`.
pub open spec fn is_word_char(c: char) -> bool {
    ||| 'a' <= c <= 'z'
    ||| 'A' <= c <= 'Z'
    ||| '0' <= c <= '9'
    ||| c == '_'
}

/// Whether a key of the group from `i` up to `j` starts with the `@` at `at` and ends before `end`:
/// the `@` opens the group or has white space, `;` or `-` before it, the key starts and ends with a
/// letter, a digit or `_`, and what stands between it and `stop`, where no more of a key can stand,
/// is punctuation.
pub open spec fn has_key(s: Seq<char>, i: int, j: int, at: int, end: int, stop: int) -> bool {
    &&& i <= at
    &&& at + 1 < end <= stop <= j
    &&& s[at] == '@'
    &&& at == i || white_space(s[at - 1]) || s[at - 1] == ';' || s[at - 1] == '-'
    &&& is_word_char(s[at + 1])
    &&& is_word_char(s[end - 1])
    &&& forall|k: int| at < k < stop ==> citation_key_char(#[trigger] s[k])
    &&& forall|k: int| end <= k < stop ==> !is_word_char(#[trigger] s[k])
    &&& stop == j || !citation_key_char(s[stop])
}

proof fn lemma_key(s: Seq<char>, i: int, j: int, at: int, end: int, stop: int)
    requires
        0 <= i <= j <= s.len(),
        has_key(s, i, j, at, end, stop),
    ensures
        key_at(s.subrange(i, j), at - i) == Some(end - i),
{
    let inner = s.subrange(i, j);
    let a = at - i;
    lemma_run_end(inner, CharClass::CitationKey, a + 1);
    let run = run_end(inner, CharClass::CitationKey, a + 1);
    if run < stop - i {
        assert(citation_key_char(s[run + i]));
    }
    if run > stop - i {
        assert(CharClass::CitationKey.holds(inner[stop - i]));
    }
    let text = inner.subrange(a + 1, run);
    let punctuation = CharClass::KeyPunctuation;
    lemma_run_start(text, punctuation, text.len() as int);
    let cut = run_start(text, punctuation, text.len() as int);
    let want = end - at - 1;
    if cut < want {
        assert(punctuation.holds(text[want - 1]));
        assert(text[want - 1] == s[end - 1]);
    }
    if cut > want {
        assert(text[cut - 1] == s[at + 1 + cut - 1]);
        assert(!is_word_char(s[at + 1 + cut - 1]));
    }
    assert(key_text(inner, a, run)[0] == s[at + 1]);
    if a > 0 {
        assert(inner[a - 1] == s[at - 1]);
    }
}

proof fn lemma_key_listed(inner: Seq<char>, from: int, at: int, end: int)
    requires
        0 <= from <= at < inner.len(),
        key_at(inner, at) == Some(end),
    ensures
        keys_from(inner, from).contains((at, end)),
    decreases at - from,
{
    let rest = keys_from(inner, from + 1);
    if from == at {
        assert(keys_from(inner, from) == seq![(at, end)] + rest);
        assert(keys_from(inner, from)[0] == (at, end));
    } else {
        lemma_key_listed(inner, from + 1, at, end);
        let k = choose|k: int| 0 <= k < rest.len() && rest[k] == (at, end);
        if key_at(inner, from) is Some {
            assert(keys_from(inner, from)[k + 1] == (at, end));
        }
    }
}

proof fn lemma_citation_reached(
    s: Seq<char>,
    m: Marks,
    region: (int, int),
    from: int,
    open: int,
    close: int,
) -> (at: Marks)
    requires
        0 <= region.0 <= region.1 <= s.len(),
        0 <= from <= open < close < region.1 - region.0,
        piece(s, region)[open] == '[',
        find_char(piece(s, region), ']', open + 1) == Some(close),
        is_citation(s, m, region, open, close),
    ensures
        at.code_spans == m.code_spans,
        grows(with_citation(s, at, region, open, close), with_citations(s, m, region, from)),
    decreases open - from,
{
    let r = piece(s, region);
    lemma_find_char(r, '[', from);
    let o = find_char(r, '[', from)->0;
    lemma_find_char(r, ']', o + 1);
    lemma_find_char(r, ']', open + 1);
    let c = find_char(r, ']', o + 1)->0;
    if o == open {
        lemma_citations_grow(s, with_citation(s, m, region, open, close), region, close + 1);
        m
    } else if is_citation(s, m, region, o, c) {
        let inner = r.subrange(o + 1, c);
        lemma_find_char(inner, '[', 0);
        if open < c {
            assert(inner[open - o - 1] == '[');
        }
        lemma_citation_reached(s, with_citation(s, m, region, o, c), region, c + 1, open, close)
    } else {
        lemma_citation_reached(s, m, region, o + 1, open, close)
    }
}

/// The marks before a citation of a region, and what it adds to them.
#[verifier::rlimit(60)]
proof fn lemma_citation(
    s: Seq<char>,
    layers: Seq<SyntaxLayer>,
    region: (int, int),
    open: int,
    close: int,
) -> (at: Marks)
    requires
        is_prose(s, layers, region.0, region.1),
        0 <= open < close < region.1 - region.0,
        piece(s, region)[open] == '[',
        find_char(piece(s, region), ']', open + 1) == Some(close),
        is_citation(s, all_marks(s, layers), region, open, close),
    ensures
        grows(with_citation(s, at, region, open, close), all_marks(s, layers)),
{
    let all = all_marks(s, layers);
    let regions = all.prose_regions;
    let (walked, linked, cited, noted, marked) = lemma_stages(s, layers);
    let n = lemma_prose(s, layers, region.0, region.1);
    let first = lemma_citations_of_region(s, linked, regions, regions.len() as int, n);
    assert(is_citation(s, first, region, open, close));
    let at = lemma_citation_reached(s, first, region, 0, open, close);
    let with = with_citation(s, at, region, open, close);
    lemma_grows_on(with, with_citations(s, first, region, 0), cited);
    lemma_grows_on(with, cited, all);
    at
}

/// What a citation adds, said of the text.
#[verifier::rlimit(60)]
proof fn lemma_with_citation(
    s: Seq<char>,
    before: Marks,
    all: Marks,
    region: (int, int),
    open: int,
    close: int,
    key: (int, int),
)
    requires
        0 <= region.0 <= open < close < region.1 <= s.len(),
        grows(with_citation(s, before, region, open - region.0, close - region.0), all),
        keys_from(s.subrange(open + 1, close), 0).contains((key.0 - open - 1, key.1 - open - 1)),
    ensures
        hides(all, bytes_between(s, open, open + 1), bytes_between(s, open, close + 1)),
        hides(all, bytes_between(s, close, close + 1), bytes_between(s, open, close + 1)),
        all.citations.contains(bytes_between(s, key.0, key.1)),
{
    let with = with_citation(s, before, region, open - region.0, close - region.0);
    lemma_byte_offset_grows(s, open, open + 1);
    lemma_byte_offset_grows(s, close, close + 1);
    let reveal = bytes_between(s, open, close + 1);
    lemma_hidden(before, bytes_between(s, open, open + 1), reveal, with, all);
    let mark = InlineMark {
        range: bytes_between(s, close, close + 1),
        look: InlineLook::Hide { reveal_span: reveal },
    };
    assert(with.inline.last() == mark);
    lemma_still_there(with.inline, all.inline, mark);
    let keys = keys_from(s.subrange(open + 1, close), 0);
    let want = (key.0 - open - 1, key.1 - open - 1);
    let k = choose|k: int| 0 <= k < keys.len() && keys[k] == want;
    let bytes = bytes_between(s, key.0, key.1);
    assert(key_spans(s, open + 1, keys)[k] == bytes);
    assert(with.citations[before.citations.len() + k] == bytes);
    lemma_still_there(with.citations, all.citations, bytes);
}

/// What is a citation, said of the text.
proof fn lemma_citation_shape(
    s: Seq<char>,
    m: Marks,
    region: (int, int),
    open: int,
    close: int,
    at: int,
    end: int,
    stop: int,
)
    requires
        0 <= region.0 <= open < close < region.1 <= s.len(),
        s[open] == '[',
        s[close] == ']',
        forall|k: int|
            open < k < close ==> #[trigger] s[k] != ']' && s[k] != '[' && s[k] != '\n',
        open > region.0 ==> s[open - 1] != '[' && s[open - 1] != '!' && s[open - 1] != ']',
        close + 1 < region.1 ==> s[close + 1] != '(' && s[close + 1] != '[',
        !touches_code(m.code_spans, byte_span(s, (open, close + 1))),
        has_key(s, open + 1, close, at, end, stop),
    ensures
        piece(s, region)[open - region.0] == '[',
        find_char(piece(s, region), ']', open - region.0 + 1) == Some(close - region.0),
        is_citation(s, m, region, open - region.0, close - region.0),
        keys_from(s.subrange(open + 1, close), 0).contains((at - open - 1, end - open - 1)),
{
    let r = piece(s, region);
    let o = open - region.0;
    let c = close - region.0;
    let inner = r.subrange(o + 1, c);
    assert(inner =~= s.subrange(open + 1, close));
    assert forall|i: int| o + 1 <= i < c implies #[trigger] r[i] != ']' by {
        assert(s[i + region.0] != ']');
    }
    lemma_char_is_at(r, ']', o + 1, c);
    lemma_find_char(inner, '\n', 0);
    lemma_find_char(inner, '[', 0);
    assert forall|i: int| 0 <= i < inner.len() implies #[trigger] inner[i] != '\n' && inner[i]
        != '[' by {
        assert(s[i + open + 1] != ']');
    }
    lemma_key(s, open + 1, close, at, end, stop);
    lemma_key_listed(inner, 0, at - open - 1, end - open - 1);
}

/// A bracket with a key in it is a citation: its brackets are hidden until the selection touches it,
/// and each of its keys is marked. It stays on one line, is no code, has no other bracket in it, and
/// is no part of a wikilink, an image or a link.
#[verifier::rlimit(60)]
pub proof fn law_a_citation_shows_its_keys(
    s: Seq<char>,
    layers: Seq<SyntaxLayer>,
    region: (int, int),
    open: int,
    close: int,
    at: int,
    end: int,
    stop: int,
)
    requires
        is_prose(s, layers, region.0, region.1),
        region.0 <= open < close < region.1,
        s[open] == '[',
        s[close] == ']',
        forall|k: int|
            open < k < close ==> #[trigger] s[k] != ']' && s[k] != '[' && s[k] != '\n',
        open > region.0 ==> s[open - 1] != '[' && s[open - 1] != '!' && s[open - 1] != ']',
        close + 1 < region.1 ==> s[close + 1] != '(' && s[close + 1] != '[',
        is_no_code(s, layers, open, close + 1),
        has_key(s, open + 1, close, at, end, stop),
    ensures
        ({
            let all = all_marks(s, layers);
            let reveal = bytes_between(s, open, close + 1);
            &&& hides(all, bytes_between(s, open, open + 1), reveal)
            &&& hides(all, bytes_between(s, close, close + 1), reveal)
            &&& all.citations.contains(bytes_between(s, at, end))
        }),
{
    let all = all_marks(s, layers);
    lemma_no_code(s, layers, open, close + 1);
    lemma_citation_shape(s, all, region, open, close, at, end, stop);
    let before = lemma_citation(s, layers, region, open - region.0, close - region.0);
    lemma_with_citation(s, before, all, region, open, close, (at, end));
}

// ---------------------------------------------------------------------------------------------
// Footnotes
// ---------------------------------------------------------------------------------------------

proof fn lemma_footnote_reached(
    s: Seq<char>,
    m: Marks,
    region: (int, int),
    from: int,
    open: int,
    close: int,
) -> (at: Marks)
    requires
        0 <= region.0 <= region.1 <= s.len(),
        0 <= from <= open,
        open + 2 <= close < region.1 - region.0,
        stands(piece(s, region), open, '[', '^'),
        find_char(piece(s, region), ']', open + 2) == Some(close),
        is_footnote(s, m, region, open, close),
    ensures
        at.code_spans == m.code_spans,
        grows(
            with_footnote(s, at, region.0 + open, region.0 + close + 1),
            with_footnotes(s, m, region, from),
        ),
    decreases open - from,
{
    let r = piece(s, region);
    lemma_pair_by(r, '[', '^', from, open);
    let o = find_pair(r, '[', '^', from)->0;
    lemma_find_char(r, ']', o + 2);
    lemma_find_char(r, ']', open + 2);
    if o == open {
        let with = with_footnote(s, m, region.0 + open, region.0 + close + 1);
        lemma_footnotes_grow(s, with, region, close + 1);
        m
    } else {
        let c = find_char(r, ']', o + 2)->0;
        assert(open >= o + 2);
        if is_footnote(s, m, region, o, c) {
            let label = r.subrange(o + 2, c);
            lemma_find_char(label, '[', 0);
            if open < c {
                assert(label[open - o - 2] == '[');
            }
            let with = with_footnote(s, m, region.0 + o, region.0 + c + 1);
            lemma_footnote_reached(s, with, region, c + 1, open, close)
        } else {
            lemma_footnote_reached(s, m, region, o + 2, open, close)
        }
    }
}

/// The marks before a footnote of a region, and what it adds to them.
#[verifier::rlimit(60)]
proof fn lemma_footnote(
    s: Seq<char>,
    layers: Seq<SyntaxLayer>,
    region: (int, int),
    open: int,
    close: int,
) -> (at: Marks)
    requires
        is_prose(s, layers, region.0, region.1),
        0 <= open,
        open + 2 <= close < region.1 - region.0,
        stands(piece(s, region), open, '[', '^'),
        find_char(piece(s, region), ']', open + 2) == Some(close),
        is_footnote(s, all_marks(s, layers), region, open, close),
    ensures
        grows(
            with_footnote(s, at, region.0 + open, region.0 + close + 1),
            all_marks(s, layers),
        ),
{
    let all = all_marks(s, layers);
    let regions = all.prose_regions;
    let (walked, linked, cited, noted, marked) = lemma_stages(s, layers);
    let n = lemma_prose(s, layers, region.0, region.1);
    let first = lemma_footnotes_of_region(s, cited, regions, regions.len() as int, n);
    assert(is_footnote(s, first, region, open, close));
    let at = lemma_footnote_reached(s, first, region, 0, open, close);
    let with = with_footnote(s, at, region.0 + open, region.0 + close + 1);
    lemma_grows_on(with, with_footnotes(s, first, region, 0), noted);
    lemma_grows_on(with, noted, all);
    at
}

/// What a footnote adds, said of the text.
#[verifier::rlimit(60)]
proof fn lemma_with_footnote(
    s: Seq<char>,
    before: Marks,
    all: Marks,
    open: int,
    close: int,
    line: int,
)
    requires
        0 <= line <= open,
        open + 2 < close < s.len(),
        grows(with_footnote(s, before, open, close + 1), all),
        line == 0 || s[line - 1] == '\n',
        forall|k: int| line <= k < open ==> #[trigger] s[k] != '\n',
    ensures
        if (forall|k: int| line <= k < open ==> white_space(#[trigger] s[k])) && close + 1 < s.len()
            && s[close + 1] == ':' {
            all.definition_ranges.contains(bytes_between(s, open, close + 2))
        } else {
            all.inline.contains(
                InlineMark {
                    range: bytes_between(s, open, close + 1),
                    look: InlineLook::Footnote { label: s.subrange(open + 2, close) },
                },
            )
        },
{
    let with = with_footnote(s, before, open, close + 1);
    lemma_find_char_back(s, '\n', open);
    assert(line_start(s, open) == line);
    let lead = s.subrange(line, open);
    let blank = forall|k: int| line <= k < open ==> white_space(#[trigger] s[k]);
    if blank {
        assert forall|i: int| 0 <= i < lead.len() implies CharClass::Whitespace.holds(
            #[trigger] lead[i],
        ) by {
            assert(white_space(s[i + line]));
        }
    } else {
        let k = choose|k: int| line <= k < open && !white_space(#[trigger] s[k]);
        assert(!CharClass::Whitespace.holds(lead[k - line]));
    }
    if blank && close + 1 < s.len() && s[close + 1] == ':' {
        let range = bytes_between(s, open, close + 2);
        lemma_last_is_there(before.definition_ranges, range);
        lemma_still_there(with.definition_ranges, all.definition_ranges, range);
    } else {
        let mark = InlineMark {
            range: bytes_between(s, open, close + 1),
            look: InlineLook::Footnote { label: s.subrange(open + 2, close) },
        };
        lemma_last_is_there(before.inline, mark);
        lemma_still_there(with.inline, all.inline, mark);
    }
}

/// A footnote shows as its label, unless it opens its line and has a colon behind it: that is the
/// footnote's definition, and is muted with its colon. A label is one word.
#[verifier::rlimit(60)]
pub proof fn law_a_footnote_shows_its_label(
    s: Seq<char>,
    layers: Seq<SyntaxLayer>,
    region: (int, int),
    open: int,
    close: int,
    line: int,
)
    requires
        is_prose(s, layers, region.0, region.1),
        region.0 <= open,
        open + 2 < close < region.1,
        stands(s, open, '[', '^'),
        s[close] == ']',
        forall|k: int|
            open + 2 <= k < close ==> #[trigger] s[k] != ']' && s[k] != '[' && !white_space(s[k]),
        is_no_code(s, layers, open, close + 1),
        0 <= line <= open,
        line == 0 || s[line - 1] == '\n',
        forall|k: int| line <= k < open ==> #[trigger] s[k] != '\n',
    ensures
        ({
            let all = all_marks(s, layers);
            let opens_line = forall|k: int| line <= k < open ==> white_space(#[trigger] s[k]);
            if opens_line && close + 1 < s.len() && s[close + 1] == ':' {
                all.definition_ranges.contains(bytes_between(s, open, close + 2))
            } else {
                all.inline.contains(
                    InlineMark {
                        range: bytes_between(s, open, close + 1),
                        look: InlineLook::Footnote { label: s.subrange(open + 2, close) },
                    },
                )
            }
        }),
{
    let all = all_marks(s, layers);
    let r = piece(s, region);
    let o = open - region.0;
    let c = close - region.0;
    let label = r.subrange(o + 2, c);
    assert forall|i: int| o + 2 <= i < c implies #[trigger] r[i] != ']' by {
        assert(s[i + region.0] != ']');
    }
    lemma_char_is_at(r, ']', o + 2, c);
    lemma_find_char(label, '[', 0);
    assert forall|i: int| 0 <= i < label.len() implies #[trigger] label[i] != '[' && !white_space(
        label[i],
    ) by {
        assert(s[i + open + 2] != ']');
    }
    lemma_no_code(s, layers, open, close + 1);
    let before = lemma_footnote(s, layers, region, o, c);
    lemma_with_footnote(s, before, all, open, close, line);
}

// ---------------------------------------------------------------------------------------------
// Highlights
// ---------------------------------------------------------------------------------------------

/// Whether the next text between two pairs of `=` behind `from` is highlighted, and stands between
/// the pairs at `open` and `close`: it is on one line, and sits tight between them.
pub open spec fn is_next_highlight(
    s: Seq<char>,
    layers: Seq<SyntaxLayer>,
    region: (int, int),
    from: int,
    open: int,
    close: int,
) -> bool {
    &&& region.0 <= from <= open
    &&& open + 2 < close
    &&& close + 2 <= region.1
    &&& stands(s, open, '=', '=')
    &&& stands(s, close, '=', '=')
    &&& forall|i: int| from <= i < open ==> !#[trigger] stands(s, i, '=', '=')
    &&& forall|i: int| open + 2 <= i < close ==> !#[trigger] stands(s, i, '=', '=')
    &&& forall|i: int| open + 2 <= i < close ==> #[trigger] s[i] != '\n'
    &&& !white_space(s[open + 2])
    &&& !white_space(s[close - 1])
    &&& is_no_code(s, layers, open, close + 2)
}

/// Whether these are the first highlights of a region, by where each opens and closes.
pub open spec fn are_highlights(
    s: Seq<char>,
    layers: Seq<SyntaxLayer>,
    region: (int, int),
    places: Seq<(int, int)>,
) -> bool {
    forall|k: int|
        0 <= k < places.len() ==> is_next_highlight(
            s,
            layers,
            region,
            if k == 0 {
                region.0
            } else {
                places[k - 1].1 + 2
            },
            (#[trigger] places[k]).0,
            places[k].1,
        )
}

proof fn lemma_next_highlight(
    s: Seq<char>,
    layers: Seq<SyntaxLayer>,
    m: Marks,
    region: (int, int),
    from: int,
    open: int,
    close: int,
)
    requires
        0 <= region.0 <= region.1 <= s.len(),
        m.code_spans == all_marks(s, layers).code_spans,
        is_next_highlight(s, layers, region, from, open, close),
    ensures
        with_highlights(s, m, region, from - region.0) == with_highlights(
            s,
            with_highlight(s, m, open, close + 2),
            region,
            close + 2 - region.0,
        ),
{
    let r = piece(s, region);
    let base = region.0;
    assert forall|i: int| from - base <= i < open - base implies !#[trigger] stands(
        r,
        i,
        '=',
        '=',
    ) by {
        assert(!stands(s, i + base, '=', '='));
    }
    assert forall|i: int| open - base + 2 <= i < close - base implies !#[trigger] stands(
        r,
        i,
        '=',
        '=',
    ) by {
        assert(!stands(s, i + base, '=', '='));
    }
    lemma_pair_is_at(r, '=', '=', from - base, open - base);
    lemma_pair_is_at(r, '=', '=', open - base + 2, close - base);
    let inner = r.subrange(open - base + 2, close - base);
    lemma_find_char(inner, '\n', 0);
    assert forall|i: int| 0 <= i < inner.len() implies #[trigger] inner[i] != '\n' by {
        assert(s[i + open + 2] != '\n');
    }
    lemma_no_code(s, layers, open, close + 2);
    assert(is_highlight(s, m, region, open - base, close - base));
}

proof fn lemma_highlights(
    s: Seq<char>,
    layers: Seq<SyntaxLayer>,
    m: Marks,
    region: (int, int),
    places: Seq<(int, int)>,
    k: int,
) -> (at: Marks)
    requires
        0 <= region.0 <= region.1 <= s.len(),
        m.code_spans == all_marks(s, layers).code_spans,
        are_highlights(s, layers, region, places),
        0 <= k < places.len(),
    ensures
        at.code_spans == m.code_spans,
        with_highlights(s, m, region, 0) == with_highlights(
            s,
            with_highlight(s, at, places[k].0, places[k].1 + 2),
            region,
            places[k].1 + 2 - region.0,
        ),
    decreases k,
{
    let place = places[k];
    if k == 0 {
        lemma_next_highlight(s, layers, m, region, region.0, place.0, place.1);
        m
    } else {
        let before = places[k - 1];
        let at = lemma_highlights(s, layers, m, region, places, k - 1);
        let next = with_highlight(s, at, before.0, before.1 + 2);
        assert(is_next_highlight(s, layers, region, before.1 + 2, place.0, place.1));
        lemma_next_highlight(s, layers, next, region, before.1 + 2, place.0, place.1);
        next
    }
}

/// The marks before a highlight of a region, and what it adds to them.
#[verifier::rlimit(60)]
proof fn lemma_highlight(
    s: Seq<char>,
    layers: Seq<SyntaxLayer>,
    region: (int, int),
    places: Seq<(int, int)>,
    k: int,
) -> (at: Marks)
    requires
        is_prose(s, layers, region.0, region.1),
        are_highlights(s, layers, region, places),
        0 <= k < places.len(),
    ensures
        grows(with_highlight(s, at, places[k].0, places[k].1 + 2), all_marks(s, layers)),
{
    let all = all_marks(s, layers);
    let regions = all.prose_regions;
    let (walked, linked, cited, noted, marked) = lemma_stages(s, layers);
    let n = lemma_prose(s, layers, region.0, region.1);
    let first = lemma_highlights_of_region(s, noted, regions, regions.len() as int, n);
    let at = lemma_highlights(s, layers, first, region, places, k);
    let with = with_highlight(s, at, places[k].0, places[k].1 + 2);
    lemma_highlights_grow(s, with, region, places[k].1 + 2 - region.0);
    lemma_grows_on(with, with_highlights(s, first, region, 0), marked);
    lemma_grows_on(with, marked, all);
    at
}

/// What a highlight adds, said of the text.
#[verifier::rlimit(60)]
proof fn lemma_with_highlight(s: Seq<char>, before: Marks, all: Marks, open: int, close: int)
    requires
        0 <= open,
        open + 2 <= close,
        close + 2 <= s.len(),
        grows(with_highlight(s, before, open, close + 2), all),
    ensures
        hides(all, bytes_between(s, open, open + 2), bytes_between(s, open, close + 2)),
        hides(all, bytes_between(s, close, close + 2), bytes_between(s, open, close + 2)),
        all.highlights.contains(bytes_between(s, open + 2, close)),
{
    let with = with_highlight(s, before, open, close + 2);
    lemma_byte_offset_grows(s, open, open + 2);
    lemma_byte_offset_grows(s, close, close + 2);
    let reveal = bytes_between(s, open, close + 2);
    lemma_hidden(before, bytes_between(s, open, open + 2), reveal, with, all);
    let mark = InlineMark {
        range: bytes_between(s, close, close + 2),
        look: InlineLook::Hide { reveal_span: reveal },
    };
    assert(with.inline.last() == mark);
    lemma_still_there(with.inline, all.inline, mark);
    let body = bytes_between(s, open + 2, close);
    lemma_last_is_there(before.highlights, body);
    lemma_still_there(with.highlights, all.highlights, body);
}

/// A highlight is marked without its equals signs, which are hidden until the selection touches it.
#[verifier::rlimit(60)]
pub proof fn law_a_highlight_hides_its_marks(
    s: Seq<char>,
    layers: Seq<SyntaxLayer>,
    region: (int, int),
    places: Seq<(int, int)>,
    k: int,
)
    requires
        is_prose(s, layers, region.0, region.1),
        are_highlights(s, layers, region, places),
        0 <= k < places.len(),
    ensures
        ({
            let (open, close) = places[k];
            let all = all_marks(s, layers);
            let reveal = bytes_between(s, open, close + 2);
            &&& hides(all, bytes_between(s, open, open + 2), reveal)
            &&& hides(all, bytes_between(s, close, close + 2), reveal)
            &&& all.highlights.contains(bytes_between(s, open + 2, close))
        }),
{
    let all = all_marks(s, layers);
    let at = lemma_highlight(s, layers, region, places, k);
    let (open, close) = places[k];
    assert(is_next_highlight(
        s,
        layers,
        region,
        if k == 0 {
            region.0
        } else {
            places[k - 1].1 + 2
        },
        open,
        close,
    ));
    lemma_with_highlight(s, at, all, open, close);
}

/// Marks whose text does not sit tight between them, or goes over two lines, are no highlight. The
/// second of them may still open one.
pub proof fn law_loose_marks_are_no_highlight(
    s: Seq<char>,
    m: Marks,
    region: (int, int),
    from: int,
    open: int,
    close: int,
)
    requires
        0 <= region.0 <= region.1 <= s.len(),
        region.0 <= from <= open,
        open + 2 <= close,
        close + 2 <= region.1,
        stands(s, open, '=', '='),
        stands(s, close, '=', '='),
        forall|i: int| from <= i < open ==> !#[trigger] stands(s, i, '=', '='),
        forall|i: int| open + 2 <= i < close ==> !#[trigger] stands(s, i, '=', '='),
        ({
            ||| open + 2 == close
            ||| white_space(s[open + 2])
            ||| white_space(s[close - 1])
            ||| exists|i: int| open + 2 <= i < close && #[trigger] s[i] == '\n'
        }),
    ensures
        with_highlights(s, m, region, from - region.0) == with_highlights(
            s,
            m,
            region,
            open + 2 - region.0,
        ),
{
    let r = piece(s, region);
    let base = region.0;
    assert forall|i: int| from - base <= i < open - base implies !#[trigger] stands(
        r,
        i,
        '=',
        '=',
    ) by {
        assert(!stands(s, i + base, '=', '='));
    }
    assert forall|i: int| open - base + 2 <= i < close - base implies !#[trigger] stands(
        r,
        i,
        '=',
        '=',
    ) by {
        assert(!stands(s, i + base, '=', '='));
    }
    lemma_pair_is_at(r, '=', '=', from - base, open - base);
    lemma_pair_is_at(r, '=', '=', open - base + 2, close - base);
    let inner = r.subrange(open - base + 2, close - base);
    lemma_find_char(inner, '\n', 0);
    if exists|i: int| open + 2 <= i < close && #[trigger] s[i] == '\n' {
        let i = choose|i: int| open + 2 <= i < close && #[trigger] s[i] == '\n';
        assert(inner[i - open - 2] == '\n');
    }
}

// ---------------------------------------------------------------------------------------------
// Tags
// ---------------------------------------------------------------------------------------------

/// Whether a character can stand in a tag.
pub open spec fn is_tag_char(c: char) -> bool {
    unicode_alphanumeric(c) || c == '_' || c == '-' || c == '/'
}

proof fn lemma_tag_run(r: Seq<char>, i: int, stop: int)
    requires
        0 <= i <= stop <= r.len(),
        forall|k: int| i <= k < stop ==> is_tag_char(#[trigger] r[k]),
        stop == r.len() || !is_tag_char(r[stop]),
    ensures
        tag_run_end(r, letter_classes(r), i) == stop,
    decreases stop - i,
{
    if i < stop {
        assert(is_tag_char(r[i]));
        lemma_tag_run(r, i + 1, stop);
    }
}

proof fn lemma_tag_listed(r: Seq<char>, from: int, at: int, end: int)
    requires
        0 <= from <= at < r.len(),
        tag_end(r, letter_classes(r), at) == Some(end),
    ensures
        tags_from(r, letter_classes(r), from).contains((at, end)),
    decreases at - from,
{
    let classes = letter_classes(r);
    let rest = tags_from(r, classes, from + 1);
    if from == at {
        assert(tags_from(r, classes, from)[0] == (at, end));
    } else {
        lemma_tag_listed(r, from + 1, at, end);
        let k = choose|k: int| 0 <= k < rest.len() && rest[k] == (at, end);
        if tag_end(r, classes, from) is Some {
            assert(tags_from(r, classes, from)[k + 1] == (at, end));
        }
    }
}

proof fn lemma_tag_added(s: Seq<char>, m: Marks, base: int, tags: Seq<(int, int)>, count: int, k: int)
    requires
        0 <= k < count <= tags.len(),
        !touches_code(m.code_spans, byte_span(s, (base + tags[k].0, base + tags[k].1))),
    ensures
        with_tags(s, m, base, tags, count).tags.contains(
            byte_span(s, (base + tags[k].0, base + tags[k].1)),
        ),
    decreases count,
{
    let before = with_tags(s, m, base, tags, count - 1);
    let range = byte_span(s, (base + tags[k].0, base + tags[k].1));
    if k == count - 1 {
        lemma_last_is_there(before.tags, range);
    } else {
        lemma_tag_added(s, m, base, tags, count - 1, k);
        lemma_still_there(before.tags, with_tags(s, m, base, tags, count).tags, range);
    }
}

/// A `#` that opens a word is a tag, with the letters, numbers, `_`, `-` and `/` behind it up to the
/// last that is no `-` or `/`, where they are not all numbers.
#[verifier::rlimit(60)]
pub proof fn law_a_tag_is_a_word_with_a_letter(
    s: Seq<char>,
    layers: Seq<SyntaxLayer>,
    region: (int, int),
    at: int,
    end: int,
    stop: int,
    letter: int,
)
    requires
        is_prose(s, layers, region.0, region.1),
        region.0 <= at,
        at < letter < end <= stop <= region.1,
        s[at] == '#',
        at == region.0 || white_space(s[at - 1]),
        forall|k: int| at < k < stop ==> is_tag_char(#[trigger] s[k]),
        stop == region.1 || !is_tag_char(s[stop]),
        s[end - 1] != '-' && s[end - 1] != '/',
        forall|k: int| end <= k < stop ==> #[trigger] s[k] == '-' || s[k] == '/',
        !unicode_numeric(s[letter]),
        is_no_code(s, layers, at, end),
    ensures
        all_marks(s, layers).tags.contains(bytes_between(s, at, end)),
{
    let all = all_marks(s, layers);
    let regions = all.prose_regions;
    let (walked, linked, cited, noted, marked) = lemma_stages(s, layers);
    let n = lemma_prose(s, layers, region.0, region.1);
    let before = lemma_tags_of_region(s, marked, regions, regions.len() as int, n);
    let r = piece(s, region);
    let base = region.0;
    let classes = letter_classes(r);
    assert forall|k: int| at - base + 1 <= k < stop - base implies is_tag_char(#[trigger] r[k]) by {
        assert(is_tag_char(s[k + base]));
    }
    lemma_tag_run(r, at - base + 1, stop - base);
    let run = r.subrange(at - base + 1, stop - base);
    let separator = CharClass::TagSeparator;
    lemma_run_start(run, separator, run.len() as int);
    let cut = run_start(run, separator, run.len() as int);
    let want = end - at - 1;
    if cut < want {
        assert(separator.holds(run[want - 1]));
        assert(run[want - 1] == s[end - 1]);
    }
    if cut > want {
        assert(run[cut - 1] == s[at + cut]);
        assert(s[at + cut] == '-' || s[at + cut] == '/');
    }
    assert(!classes[letter - base].1);
    assert(tag_end(r, classes, at - base) == Some(end - base));
    lemma_tag_listed(r, 0, at - base, end - base);
    let tags = region_tags(s, region);
    let k = choose|k: int| 0 <= k < tags.len() && tags[k] == (at - base, end - base);
    lemma_no_code(s, layers, at, end);
    lemma_tag_added(s, before, base, tags, tags.len() as int, k);
    let with = with_tags(s, before, base, tags, tags.len() as int);
    lemma_still_there(with.tags, all.tags, bytes_between(s, at, end));
}

proof fn lemma_tags_are(r: Seq<char>, from: int, k: int)
    requires
        0 <= from,
        0 <= k < tags_from(r, letter_classes(r), from).len(),
    ensures
        ({
            let (at, end) = tags_from(r, letter_classes(r), from)[k];
            from <= at < r.len() && tag_end(r, letter_classes(r), at) == Some(end)
        }),
    decreases r.len() - from,
{
    if from < r.len() {
        let classes = letter_classes(r);
        if tag_end(r, classes, from) is Some {
            if k > 0 {
                lemma_tags_are(r, from + 1, k - 1);
            }
        } else {
            lemma_tags_are(r, from + 1, k);
        }
    }
}

/// A tag of a region starts with a `#` that opens a word, and has something else than a number in it.
pub proof fn law_only_words_with_a_letter_are_tags(s: Seq<char>, region: (int, int), k: int)
    requires
        0 <= region.0 <= region.1 <= s.len(),
        0 <= k < region_tags(s, region).len(),
    ensures
        ({
            let (at, end) = region_tags(s, region)[k];
            let r = s.subrange(region.0, region.1);
            &&& 0 <= at < end <= r.len()
            &&& r[at] == '#'
            &&& at == 0 || white_space(r[at - 1])
            &&& exists|i: int| at < i < end && !#[trigger] unicode_numeric(r[i])
            &&& forall|i: int| at < i < end ==> #[trigger] is_tag_char(r[i])
        }),
{
    let r = piece(s, region);
    let classes = letter_classes(r);
    lemma_tags_are(r, 0, k);
    let (at, end) = region_tags(s, region)[k];
    lemma_tag_chars(r, at + 1);
    let run = r.subrange(at + 1, tag_run_end(r, classes, at + 1));
    lemma_run_start(run, CharClass::TagSeparator, run.len() as int);
    let i = choose|i: int| at + 1 <= i < end && !(#[trigger] classes[i]).1;
    assert(!unicode_numeric(r[i]));
}

proof fn lemma_tag_chars(r: Seq<char>, i: int)
    requires
        0 <= i <= r.len(),
    ensures
        i <= tag_run_end(r, letter_classes(r), i) <= r.len(),
        forall|k: int| i <= k < tag_run_end(r, letter_classes(r), i) ==> #[trigger] is_tag_char(r[k]),
    decreases r.len() - i,
{
    if i < r.len() && is_tag_char(r[i]) {
        lemma_tag_chars(r, i + 1);
    }
}

} // verus!
