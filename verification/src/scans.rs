//! What an extraction finds by scanning prose for syntax that the grammars have no nodes for:
//! wikilinks and embeds, citations, footnotes, highlights, tags.

use crate::citation::{key_ranges, keys_from};
use crate::document::{line_start, row_at, row_text, Document};
use crate::extraction::{
    push_range, with_block, with_hidden, with_inline, Extraction, Marks,
};
use crate::image::{image_extension, is_image_extension_chars};
use crate::inline_layer::{read_width, width_digits};
use crate::markers::{BlockLook, BlockRenderKind, InlineKind, InlineLook};
use crate::path::{extension_chars, extension_of};
use crate::text::{
    all_class, ascii_alphanumeric, ascii_digit, ascii_lowercase, byte_offset, byte_span,
    contains_char, contains_class, ends_with_class, find_char, find_pair, has_char, has_class,
    index_at, index_of_char, index_of_pair, is_all_class, is_boundary, is_whitespace,
    last_index_of_char, lemma_byte_offset_grows, lemma_run_start, pairs, piece, same_chars,
    starts_with_class, string_of, trim, trim_end_by, trimmed, trimmed_end, white_space, CharClass,
};
use crate::wikilink::{check_link_body, find_shown, is_link_body, shown_from};
use std::ops::Range;
use vstd::prelude::*;

verus! {

/// Whether a byte range touches one of several code spans.
pub open spec fn touches_code(code_spans: Seq<(int, int)>, range: (int, int)) -> bool {
    exists|i: int|
        0 <= i < code_spans.len() && (#[trigger] code_spans[i]).0 < range.1 && range.0
            < code_spans[i].1
}

/// The index range of a region of prose, where the region is a range of the text.
pub open spec fn region_span(s: Seq<char>, region: (int, int)) -> Option<(int, int)> {
    if region.0 <= region.1 && is_boundary(s, region.0) && is_boundary(s, region.1) {
        Some((index_at(s, region.0), index_at(s, region.1)))
    } else {
        None
    }
}

fn find_region(document: &Document, region: &Range<usize>) -> (result: Option<(usize, usize)>)
    requires
        document.wf(),
    ensures
        match result {
            Some((start, end)) => region_span(
                document@,
                (region.start as int, region.end as int),
            ) == Some((start as int, end as int)) && start <= end <= document@.len(),
            None => region_span(document@, (region.start as int, region.end as int)) is None,
        },
{
    if region.start > region.end {
        return None;
    }
    match (document.text().index_of(region.start), document.text().index_of(region.end)) {
        (Some(start), Some(end)) => {
            proof {
                if end < start {
                    lemma_byte_offset_grows(document@, end as int, start as int);
                }
            }
            Some((start, end))
        },
        _ => None,
    }
}

impl Extraction {
    fn in_code(&self, start: usize, end: usize) -> (result: bool)
        ensures
            result == touches_code(self@.code_spans, (start as int, end as int)),
    {
        let mut i: usize = 0;
        while i < self.code_spans.len()
            invariant
                i <= self.code_spans@.len(),
                forall|k: int|
                    0 <= k < i ==> !((#[trigger] self@.code_spans[k]).0 < end && start
                        < self@.code_spans[k].1),
            decreases self.code_spans@.len() - i,
        {
            assert(self@.code_spans[i as int] == (
                self.code_spans@[i as int].start as int,
                self.code_spans@[i as int].end as int,
            ));
            if self.code_spans[i].start < end && start < self.code_spans[i].end {
                return true;
            }
            i += 1;
        }
        false
    }
}

// ---------------------------------------------------------------------------------------------
// Wikilinks
// ---------------------------------------------------------------------------------------------

/// Where an embed leads, and the size it asks for: the two sides of its first pipe.
pub open spec fn embed_parts(inner: Seq<char>) -> (Seq<char>, Option<Seq<char>>) {
    match find_char(inner, '|', 0) {
        Some(at) => (trim(inner.take(at)), Some(inner.skip(at + 1))),
        None => (trim(inner), None),
    }
}

/// How an embed shows: as an image where its target is one, else as a note, or one section of it.
/// An embed of a section of its own note does not show.
pub open spec fn embed_look(inner: Seq<char>) -> Option<(int, BlockLook)> {
    let (target, size) = embed_parts(inner);
    if extension_of(target) matches Some(extension) && image_extension(
        ascii_lowercase(extension),
    ) {
        Some(
            (
                8,
                BlockLook::Image {
                    display_width: match size {
                        Some(size) => width_digits(size),
                        None => None,
                    },
                    destination: Some(target),
                    alt: Seq::empty(),
                },
            ),
        )
    } else {
        let (note, section) = match find_char(target, '#', 0) {
            Some(at) => (trim(target.take(at)), Some(trim(target.skip(at + 1)))),
            None => (target, None),
        };
        if note.len() == 0 {
            None
        } else {
            Some((6, BlockLook::Embed { target: note, section }))
        }
    }
}

/// What an embed from index `start` up to `end` adds: a block, where it is all there is on its
/// line.
pub open spec fn with_embed(s: Seq<char>, m: Marks, start: int, end: int, inner: Seq<char>) -> Marks {
    let row = row_at(s, byte_offset(s, start) as int);
    if trim(row_text(s, row)) != trim(s.subrange(start, end)) {
        m
    } else {
        match embed_look(inner) {
            Some((height, look)) => with_block(s, m, (row, row), height, look),
            None => m,
        }
    }
}

/// What a wikilink adds whose `[[` stands at index `open` and whose `]]` at `close` of the region
/// that starts at `base`.
pub open spec fn with_wikilink(s: Seq<char>, m: Marks, base: int, open: int, close: int) -> Marks {
    let start = base + open;
    let end = base + close + 2;
    let inner = s.subrange(start + 2, end - 2);
    let reveal = byte_span(s, (start, end));
    if !is_link_body(inner) || touches_code(m.code_spans, reveal) {
        m
    } else if open > 0 && s[start - 1] == '!' {
        with_embed(s, m, start - 1, end, inner)
    } else {
        let shown = start + 2 + shown_from(inner);
        let opened = with_hidden(m, byte_span(s, (start, shown)), reveal);
        let closed = with_hidden(opened, byte_span(s, (end - 2, end)), reveal);
        Marks { link_text: closed.link_text.push(byte_span(s, (shown, end - 2))), ..closed }
    }
}

/// What the wikilinks of a region add, from index `from` of it on.
pub open spec fn with_wikilinks(s: Seq<char>, m: Marks, region: (int, int), from: int) -> Marks
    decreases region.1 - region.0 - from,
{
    let r = piece(s, region);
    match find_pair(r, '[', '[', from) {
        Some(open) => match find_pair(r, ']', ']', open + 2) {
            Some(close) => if from <= open && open + 2 <= close && close + 2 <= region.1
                - region.0 {
                with_wikilinks(s, with_wikilink(s, m, region.0, open, close), region, close + 2)
            } else {
                m
            },
            None => m,
        },
        None => m,
    }
}

/// What the wikilinks of the first `count` regions add.
pub open spec fn wikilinks_of(s: Seq<char>, m: Marks, regions: Seq<(int, int)>, count: int) -> Marks
    decreases count,
{
    if count <= 0 {
        m
    } else {
        let before = wikilinks_of(s, m, regions, count - 1);
        match region_span(s, regions[count - 1]) {
            Some(region) => with_wikilinks(s, before, region, 0),
            None => before,
        }
    }
}

fn read_embed(inner: &[char]) -> (result: Option<(u32, BlockRenderKind)>)
    ensures
        match result {
            Some((height, kind)) => embed_look(inner@) == Some((height as int, kind@)),
            None => embed_look(inner@) is None,
        },
{
    let pipe = index_of_char(inner, '|', 0);
    let target = match pipe {
        Some(at) => {
            let part = &inner[0..at];
            assert(part@ =~= inner@.take(at as int));
            trimmed(part)
        },
        None => trimmed(inner),
    };
    let is_image = match extension_chars(target) {
        Some(extension) => is_image_extension_chars(extension.as_slice()),
        None => false,
    };
    if is_image {
        let display_width = match pipe {
            Some(at) => {
                let size = &inner[at + 1..inner.len()];
                assert(size@ =~= inner@.skip(at + 1));
                read_width(size)
            },
            None => None,
        };
        return Some(
            (
                8,
                BlockRenderKind::Image {
                    display_width,
                    destination: Some(string_of(target)),
                    alt: String::new(),
                },
            ),
        );
    }
    match index_of_char(target, '#', 0) {
        Some(at) => {
            let note = &target[0..at];
            assert(note@ =~= target@.take(at as int));
            let section = &target[at + 1..target.len()];
            assert(section@ =~= target@.skip(at + 1));
            let note = trimmed(note);
            if note.len() == 0 {
                return None;
            }
            Some(
                (
                    6,
                    BlockRenderKind::Embed {
                        target: string_of(note),
                        section: Some(string_of(trimmed(section))),
                    },
                ),
            )
        },
        None => {
            if target.len() == 0 {
                return None;
            }
            Some((6, BlockRenderKind::Embed { target: string_of(target), section: None }))
        },
    }
}

impl Extraction {
    /// Adds an embed as a block where it is all there is on its line. `start..end` are the embed's
    /// indices, `inner` what stands between its brackets.
    fn embed_block(&mut self, document: &Document, start: usize, end: usize, inner: &[char])
        requires
            document.wf(),
            start <= end <= document@.len(),
        ensures
            final(self)@ == with_embed(
                document@,
                old(self)@,
                start as int,
                end as int,
                inner@,
            ),
    {
        let row = document.row_of(document.text().offset(start));
        if !same_chars(
            trimmed(document.row_chars(row)),
            trimmed(document.text().part(start, end)),
        ) {
            return;
        }
        match read_embed(inner) {
            Some((height, kind)) => {
                self.push_block_rows(document, row, row, height, kind);
            },
            None => {},
        }
    }

    fn wikilink(&mut self, document: &Document, base: usize, open: usize, close: usize)
        requires
            document.wf(),
            open + 2 <= close,
            base + close + 2 <= document@.len(),
        ensures
            final(self)@ == with_wikilink(
                document@,
                old(self)@,
                base as int,
                open as int,
                close as int,
            ),
    {
        let length: usize = document.text().len();
        let start: usize = base + open;
        let end: usize = base + close + 2;
        let inner = document.text().part(start + 2, end - 2);
        if !check_link_body(inner) {
            return;
        }
        let first = document.text().offset(start);
        let last = document.text().offset(end);
        if self.in_code(first, last) {
            return;
        }
        if open > 0 && document.text().char_at(start - 1) == '!' {
            self.embed_block(document, start - 1, end, inner);
            return;
        }
        let shown: usize = start + 2 + find_shown(inner);
        let shown = document.text().offset(shown);
        let closing = document.text().offset(end - 2);
        self.conceal(first..shown, first..last);
        self.conceal(closing..last, first..last);
        let ghost closed = self@;
        push_range(&mut self.link_text, shown, closing);
        assert(self@ =~= (Marks {
            link_text: closed.link_text.push((shown as int, closing as int)),
            ..closed
        }));
    }

    fn wikilinks_in(&mut self, document: &Document, start: usize, end: usize)
        requires
            document.wf(),
            start <= end <= document@.len(),
        ensures
            final(self)@ == with_wikilinks(
                document@,
                old(self)@,
                (start as int, end as int),
                0,
            ),
            final(self)@.prose_regions == old(self)@.prose_regions,
    {
        let ghost s = document@;
        let ghost region = (start as int, end as int);
        let r = document.text().part(start, end);
        let mut from: usize = 0;
        let ghost goal = with_wikilinks(s, self@, region, 0);
        loop
            invariant_except_break
                with_wikilinks(s, self@, region, from as int) == goal,
            invariant
                document.wf(),
                s == document@,
                region == (start as int, end as int),
                start <= end <= s.len(),
                r@ == piece(s, region),
                from <= r@.len(),
                self@.prose_regions == old(self)@.prose_regions,
            ensures
                self@ == goal,
            decreases r@.len() - from,
        {
            let length: usize = r.len();
            let open = match index_of_pair(r, '[', '[', from) {
                Some(open) => open,
                None => {
                    break;
                },
            };
            let close = match index_of_pair(r, ']', ']', open + 2) {
                Some(close) => close,
                None => {
                    break;
                },
            };
            self.wikilink(document, start, open, close);
            from = close + 2;
        }
    }

    /// Conceals wikilinks (`[[Note]]`, `[[Note|alias]]`) in the prose, and adds embeds
    /// (`![[Note]]`) as blocks. Code spans are left alone.
    pub fn scan_wikilinks(&mut self, document: &Document)
        requires
            document.wf(),
        ensures
            final(self)@ == wikilinks_of(
                document@,
                old(self)@,
                old(self)@.prose_regions,
                old(self)@.prose_regions.len() as int,
            ),
    {
        let ghost s = document@;
        let ghost regions = self@.prose_regions;
        let mut i: usize = 0;
        while i < self.prose_regions.len()
            invariant
                document.wf(),
                s == document@,
                regions == old(self)@.prose_regions,
                self@.prose_regions == regions,
                i <= regions.len(),
                self@ == wikilinks_of(s, old(self)@, regions, i as int),
            decreases regions.len() - i,
        {
            assert(self@.prose_regions.len() == self.prose_regions@.len());
            assert(self@.prose_regions[i as int] == (
                self.prose_regions@[i as int].start as int,
                self.prose_regions@[i as int].end as int,
            ));
            match find_region(document, &self.prose_regions[i]) {
                Some((start, end)) => {
                    self.wikilinks_in(document, start, end);
                },
                None => {},
            }
            i += 1;
        }
        assert(self@.prose_regions.len() == self.prose_regions@.len());
    }
}

// ---------------------------------------------------------------------------------------------
// Citations
// ---------------------------------------------------------------------------------------------

/// Whether the bracket from index `open` to `close` of a region is a citation group: it has a key,
/// stays on one line, is no part of a wikilink, an image or a link, and is no code.
pub open spec fn is_citation(s: Seq<char>, m: Marks, region: (int, int), open: int, close: int) -> bool {
    let r = piece(s, region);
    let inner = r.subrange(open + 1, close);
    &&& inner.len() > 0
    &&& !has_char(inner, '\n')
    &&& !has_char(inner, '[')
    &&& !(open > 0 && (r[open - 1] == '[' || r[open - 1] == '!' || r[open - 1] == ']'))
    &&& !(close + 1 < r.len() && (r[close + 1] == '(' || r[close + 1] == '['))
    &&& keys_from(inner, 0).len() > 0
    &&& !touches_code(m.code_spans, byte_span(s, (region.0 + open, region.0 + close + 1)))
}

/// The byte ranges of keys of a group whose inner text starts at index `base`.
pub open spec fn key_spans(s: Seq<char>, base: int, keys: Seq<(int, int)>) -> Seq<(int, int)> {
    Seq::new(keys.len(), |k: int| byte_span(s, (base + keys[k].0, base + keys[k].1)))
}

/// What a citation group adds: its brackets hidden, its keys.
pub open spec fn with_citation(s: Seq<char>, m: Marks, region: (int, int), open: int, close: int) -> Marks {
    let start = region.0 + open;
    let end = region.0 + close + 1;
    let reveal = byte_span(s, (start, end));
    let opened = with_hidden(m, byte_span(s, (start, start + 1)), reveal);
    let closed = with_hidden(opened, byte_span(s, (end - 1, end)), reveal);
    let keys = keys_from(s.subrange(start + 1, end - 1), 0);
    Marks { citations: closed.citations + key_spans(s, start + 1, keys), ..closed }
}

/// What the citations of a region add, from index `from` of it on.
pub open spec fn with_citations(s: Seq<char>, m: Marks, region: (int, int), from: int) -> Marks
    decreases region.1 - region.0 - from,
{
    let r = piece(s, region);
    match find_char(r, '[', from) {
        Some(open) => match find_char(r, ']', open + 1) {
            Some(close) => if from <= open < close < region.1 - region.0 {
                if is_citation(s, m, region, open, close) {
                    with_citations(s, with_citation(s, m, region, open, close), region, close + 1)
                } else {
                    with_citations(s, m, region, open + 1)
                }
            } else {
                m
            },
            None => m,
        },
        None => m,
    }
}

/// What the citations of the first `count` regions add.
pub open spec fn citations_of(s: Seq<char>, m: Marks, regions: Seq<(int, int)>, count: int) -> Marks
    decreases count,
{
    if count <= 0 {
        m
    } else {
        let before = citations_of(s, m, regions, count - 1);
        match region_span(s, regions[count - 1]) {
            Some(region) => with_citations(s, before, region, 0),
            None => before,
        }
    }
}

impl Extraction {
    fn push_keys(&mut self, document: &Document, base: usize, keys: &Vec<(usize, usize)>)
        requires
            document.wf(),
            base <= document@.len(),
            forall|k: int|
                0 <= k < keys@.len() ==> (#[trigger] keys@[k]).0 <= keys@[k].1 && base + keys@[k].1
                    <= document@.len(),
        ensures
            final(self)@ == (Marks {
                citations: old(self)@.citations + key_spans(
                    document@,
                    base as int,
                    pairs(keys@),
                ),
                ..old(self)@
            }),
    {
        let ghost all = key_spans(document@, base as int, pairs(keys@));
        let mut k: usize = 0;
        assert(self@ =~= (Marks {
            citations: old(self)@.citations + all.take(0),
            ..old(self)@
        }));
        while k < keys.len()
            invariant
                document.wf(),
                k <= keys@.len(),
                all == key_spans(document@, base as int, pairs(keys@)),
                forall|m: int|
                    0 <= m < keys@.len() ==> (#[trigger] keys@[m]).0 <= keys@[m].1 && base
                        + keys@[m].1 <= document@.len(),
                self@ == (Marks {
                    citations: old(self)@.citations + all.take(k as int),
                    ..old(self)@
                }),
            decreases keys@.len() - k,
        {
            let length: usize = document.text().len();
            assert(keys@[k as int].0 <= keys@[k as int].1);
            let start = document.text().offset(base + keys[k].0);
            let end = document.text().offset(base + keys[k].1);
            push_range(&mut self.citations, start, end);
            assert(all[k as int] == (start as int, end as int));
            k += 1;
            assert(all.take(k as int) =~= all.take(k - 1).push(all[k - 1]));
            assert(self@ =~= (Marks {
                citations: old(self)@.citations + all.take(k as int),
                ..old(self)@
            }));
        }
        assert(all.take(k as int) =~= all);
    }

    fn citation(&mut self, document: &Document, start: usize, end: usize, open: usize, close: usize) -> (
        accepted: bool)
        requires
            document.wf(),
            start <= end <= document@.len(),
            open < close < end - start,
        ensures
            accepted == is_citation(
                document@,
                old(self)@,
                (start as int, end as int),
                open as int,
                close as int,
            ),
            final(self)@ == (if accepted {
                with_citation(
                    document@,
                    old(self)@,
                    (start as int, end as int),
                    open as int,
                    close as int,
                )
            } else {
                old(self)@
            }),
    {
        let ghost s = document@;
        let r = document.text().part(start, end);
        let inner = &r[open + 1..close];
        if inner.len() == 0 || contains_char(inner, '\n') || contains_char(inner, '[') {
            return false;
        }
        if open > 0 && (r[open - 1] == '[' || r[open - 1] == '!' || r[open - 1] == ']') {
            return false;
        }
        if close < r.len() - 1 && (r[close + 1] == '(' || r[close + 1] == '[') {
            return false;
        }
        let keys = key_ranges(inner);
        assert(pairs(keys@).len() == keys_from(inner@, 0).len());
        if keys.len() == 0 {
            return false;
        }
        let text = document.text();
        let first = text.offset(start + open);
        let inside = text.offset(start + open + 1);
        let closing = text.offset(start + close);
        let last = text.offset(start + close + 1);
        if self.in_code(first, last) {
            return false;
        }
        self.conceal(first..inside, first..last);
        self.conceal(closing..last, first..last);
        assert(inner@ =~= s.subrange(start + open + 1, start + close));
        self.push_keys(document, start + open + 1, &keys);
        true
    }

    fn citations_in(&mut self, document: &Document, start: usize, end: usize)
        requires
            document.wf(),
            start <= end <= document@.len(),
        ensures
            final(self)@ == with_citations(
                document@,
                old(self)@,
                (start as int, end as int),
                0,
            ),
            final(self)@.prose_regions == old(self)@.prose_regions,
    {
        let ghost s = document@;
        let ghost region = (start as int, end as int);
        let r = document.text().part(start, end);
        let mut from: usize = 0;
        let ghost goal = with_citations(s, self@, region, 0);
        loop
            invariant_except_break
                with_citations(s, self@, region, from as int) == goal,
            invariant
                document.wf(),
                s == document@,
                region == (start as int, end as int),
                start <= end <= s.len(),
                r@ == piece(s, region),
                from <= r@.len(),
                self@.prose_regions == old(self)@.prose_regions,
            ensures
                self@ == goal,
            decreases r@.len() - from,
        {
            let open = match index_of_char(r, '[', from) {
                Some(open) => open,
                None => {
                    break;
                },
            };
            let close = match index_of_char(r, ']', open + 1) {
                Some(close) => close,
                None => {
                    break;
                },
            };
            if self.citation(document, start, end, open, close) {
                from = close + 1;
            } else {
                from = open + 1;
            }
        }
    }

    /// Conceals the brackets of Pandoc citations in the prose and adds their keys. Brackets that are
    /// really links, and brackets without a valid key, are left alone, as are code spans.
    pub fn scan_citations(&mut self, document: &Document)
        requires
            document.wf(),
        ensures
            final(self)@ == citations_of(
                document@,
                old(self)@,
                old(self)@.prose_regions,
                old(self)@.prose_regions.len() as int,
            ),
    {
        let ghost s = document@;
        let ghost regions = self@.prose_regions;
        let mut i: usize = 0;
        while i < self.prose_regions.len()
            invariant
                document.wf(),
                s == document@,
                regions == old(self)@.prose_regions,
                self@.prose_regions == regions,
                i <= regions.len(),
                self@ == citations_of(s, old(self)@, regions, i as int),
            decreases regions.len() - i,
        {
            assert(self@.prose_regions.len() == self.prose_regions@.len());
            assert(self@.prose_regions[i as int] == (
                self.prose_regions@[i as int].start as int,
                self.prose_regions@[i as int].end as int,
            ));
            match find_region(document, &self.prose_regions[i]) {
                Some((start, end)) => {
                    self.citations_in(document, start, end);
                },
                None => {},
            }
            i += 1;
        }
        assert(self@.prose_regions.len() == self.prose_regions@.len());
    }
}

// ---------------------------------------------------------------------------------------------
// Footnotes
// ---------------------------------------------------------------------------------------------

/// Whether the bracket from index `open` to `close` of a region is a footnote: its label is one
/// word, and it is no code.
pub open spec fn is_footnote(s: Seq<char>, m: Marks, region: (int, int), open: int, close: int) -> bool {
    let label = piece(s, region).subrange(open + 2, close);
    &&& label.len() > 0
    &&& !has_class(label, CharClass::Whitespace)
    &&& !has_char(label, '[')
    &&& !touches_code(m.code_spans, byte_span(s, (region.0 + open, region.0 + close + 1)))
}

/// What a footnote adds: one that opens its line with a colon behind it is a definition and is
/// muted, any other shows as its label.
pub open spec fn with_footnote(s: Seq<char>, m: Marks, start: int, end: int) -> Marks {
    if all_class(s.subrange(line_start(s, start), start), CharClass::Whitespace) && end < s.len()
        && s[end] == ':' {
        Marks {
            definition_ranges: m.definition_ranges.push(byte_span(s, (start, end + 1))),
            ..m
        }
    } else {
        with_inline(
            m,
            byte_span(s, (start, end)),
            InlineLook::Footnote { label: s.subrange(start + 2, end - 1) },
        )
    }
}

/// What the footnotes of a region add, from index `from` of it on.
pub open spec fn with_footnotes(s: Seq<char>, m: Marks, region: (int, int), from: int) -> Marks
    decreases region.1 - region.0 - from,
{
    let r = piece(s, region);
    match find_pair(r, '[', '^', from) {
        Some(open) => match find_char(r, ']', open + 2) {
            Some(close) => if from <= open && open + 2 <= close < region.1 - region.0 {
                if is_footnote(s, m, region, open, close) {
                    with_footnotes(
                        s,
                        with_footnote(s, m, region.0 + open, region.0 + close + 1),
                        region,
                        close + 1,
                    )
                } else {
                    with_footnotes(s, m, region, open + 2)
                }
            } else {
                m
            },
            None => m,
        },
        None => m,
    }
}

/// What the footnotes of the first `count` regions add.
pub open spec fn footnotes_of(s: Seq<char>, m: Marks, regions: Seq<(int, int)>, count: int) -> Marks
    decreases count,
{
    if count <= 0 {
        m
    } else {
        let before = footnotes_of(s, m, regions, count - 1);
        match region_span(s, regions[count - 1]) {
            Some(region) => with_footnotes(s, before, region, 0),
            None => before,
        }
    }
}

impl Extraction {
    fn footnote(&mut self, document: &Document, start: usize, end: usize)
        requires
            document.wf(),
            start + 3 <= end <= document@.len(),
        ensures
            final(self)@ == with_footnote(document@, old(self)@, start as int, end as int),
    {
        let text = document.text();
        let line: usize = match last_index_of_char(text.all(), '\n', start) {
            Some(at) => at + 1,
            None => 0,
        };
        let opens_line = is_all_class(text.part(line, start), CharClass::Whitespace);
        if opens_line && end < text.len() && text.char_at(end) == ':' {
            push_range(&mut self.definition_ranges, text.offset(start), text.offset(end + 1));
            assert(self@ =~= with_footnote(document@, old(self)@, start as int, end as int));
        } else {
            let label = string_of(text.part(start + 2, end - 1));
            self.push_inline(
                text.offset(start)..text.offset(end),
                InlineKind::Footnote { label },
            );
        }
    }

    fn footnotes_in(&mut self, document: &Document, start: usize, end: usize)
        requires
            document.wf(),
            start <= end <= document@.len(),
        ensures
            final(self)@ == with_footnotes(
                document@,
                old(self)@,
                (start as int, end as int),
                0,
            ),
            final(self)@.prose_regions == old(self)@.prose_regions,
    {
        let ghost s = document@;
        let ghost region = (start as int, end as int);
        let text = document.text();
        let length: usize = text.len();
        let r = text.part(start, end);
        let mut from: usize = 0;
        let ghost goal = with_footnotes(s, self@, region, 0);
        loop
            invariant_except_break
                with_footnotes(s, self@, region, from as int) == goal,
            invariant
                document.wf(),
                text.wf(),
                text@ == s,
                length == s.len(),
                s == document@,
                region == (start as int, end as int),
                start <= end <= s.len(),
                r@ == piece(s, region),
                from <= r@.len(),
                self@.prose_regions == old(self)@.prose_regions,
            ensures
                self@ == goal,
            decreases r@.len() - from,
        {
            let open = match index_of_pair(r, '[', '^', from) {
                Some(open) => open,
                None => {
                    break;
                },
            };
            let close = match index_of_char(r, ']', open + 2) {
                Some(close) => close,
                None => {
                    break;
                },
            };
            let label = &r[open + 2..close];
            let plain = label.len() > 0 && !contains_class(label, CharClass::Whitespace)
                && !contains_char(label, '[');
            if plain && !self.in_code(text.offset(start + open), text.offset(start + close + 1)) {
                self.footnote(document, start + open, start + close + 1);
                from = close + 1;
            } else {
                from = open + 2;
            }
        }
    }

    /// Shows footnote references (`[^label]`) in the prose as their labels, and mutes the markers of
    /// their definitions. Code spans are left alone.
    pub fn scan_footnotes(&mut self, document: &Document)
        requires
            document.wf(),
        ensures
            final(self)@ == footnotes_of(
                document@,
                old(self)@,
                old(self)@.prose_regions,
                old(self)@.prose_regions.len() as int,
            ),
    {
        let ghost s = document@;
        let ghost regions = self@.prose_regions;
        let mut i: usize = 0;
        while i < self.prose_regions.len()
            invariant
                document.wf(),
                s == document@,
                regions == old(self)@.prose_regions,
                self@.prose_regions == regions,
                i <= regions.len(),
                self@ == footnotes_of(s, old(self)@, regions, i as int),
            decreases regions.len() - i,
        {
            assert(self@.prose_regions.len() == self.prose_regions@.len());
            assert(self@.prose_regions[i as int] == (
                self.prose_regions@[i as int].start as int,
                self.prose_regions@[i as int].end as int,
            ));
            match find_region(document, &self.prose_regions[i]) {
                Some((start, end)) => {
                    self.footnotes_in(document, start, end);
                },
                None => {},
            }
            i += 1;
        }
        assert(self@.prose_regions.len() == self.prose_regions@.len());
    }
}

// ---------------------------------------------------------------------------------------------
// Highlights
// ---------------------------------------------------------------------------------------------

/// Whether the marks from index `open` to `close` of a region highlight what stands between them:
/// the text sits tight between them on one line, and is no code.
pub open spec fn is_highlight(s: Seq<char>, m: Marks, region: (int, int), open: int, close: int) -> bool {
    let inner = piece(s, region).subrange(open + 2, close);
    &&& inner.len() > 0
    &&& !has_char(inner, '\n')
    &&& !starts_with_class(inner, CharClass::Whitespace)
    &&& !ends_with_class(inner, CharClass::Whitespace)
    &&& !touches_code(m.code_spans, byte_span(s, (region.0 + open, region.0 + close + 2)))
}

/// What a highlight adds: its marks hidden, its body.
pub open spec fn with_highlight(s: Seq<char>, m: Marks, start: int, end: int) -> Marks {
    let reveal = byte_span(s, (start, end));
    let opened = with_hidden(m, byte_span(s, (start, start + 2)), reveal);
    let closed = with_hidden(opened, byte_span(s, (end - 2, end)), reveal);
    Marks { highlights: closed.highlights.push(byte_span(s, (start + 2, end - 2))), ..closed }
}

/// What the highlights of a region add, from index `from` of it on.
pub open spec fn with_highlights(s: Seq<char>, m: Marks, region: (int, int), from: int) -> Marks
    decreases region.1 - region.0 - from,
{
    let r = piece(s, region);
    match find_pair(r, '=', '=', from) {
        Some(open) => match find_pair(r, '=', '=', open + 2) {
            Some(close) => if from <= open && open + 2 <= close && close + 2 <= region.1
                - region.0 {
                if is_highlight(s, m, region, open, close) {
                    with_highlights(
                        s,
                        with_highlight(s, m, region.0 + open, region.0 + close + 2),
                        region,
                        close + 2,
                    )
                } else {
                    with_highlights(s, m, region, open + 2)
                }
            } else {
                m
            },
            None => m,
        },
        None => m,
    }
}

/// What the highlights of the first `count` regions add.
pub open spec fn highlights_of(s: Seq<char>, m: Marks, regions: Seq<(int, int)>, count: int) -> Marks
    decreases count,
{
    if count <= 0 {
        m
    } else {
        let before = highlights_of(s, m, regions, count - 1);
        match region_span(s, regions[count - 1]) {
            Some(region) => with_highlights(s, before, region, 0),
            None => before,
        }
    }
}

impl Extraction {
    fn highlight(&mut self, document: &Document, start: usize, end: usize)
        requires
            document.wf(),
            start + 4 <= end <= document@.len(),
        ensures
            final(self)@ == with_highlight(document@, old(self)@, start as int, end as int),
    {
        let text = document.text();
        let first = text.offset(start);
        let inside = text.offset(start + 2);
        let closing = text.offset(end - 2);
        let last = text.offset(end);
        self.conceal(first..inside, first..last);
        self.conceal(closing..last, first..last);
        let ghost closed = self@;
        push_range(&mut self.highlights, inside, closing);
        assert(self@ =~= (Marks {
            highlights: closed.highlights.push((inside as int, closing as int)),
            ..closed
        }));
    }

    fn highlights_in(&mut self, document: &Document, start: usize, end: usize)
        requires
            document.wf(),
            start <= end <= document@.len(),
        ensures
            final(self)@ == with_highlights(
                document@,
                old(self)@,
                (start as int, end as int),
                0,
            ),
            final(self)@.prose_regions == old(self)@.prose_regions,
    {
        let ghost s = document@;
        let ghost region = (start as int, end as int);
        let text = document.text();
        let length: usize = text.len();
        let r = text.part(start, end);
        let mut from: usize = 0;
        let ghost goal = with_highlights(s, self@, region, 0);
        loop
            invariant_except_break
                with_highlights(s, self@, region, from as int) == goal,
            invariant
                document.wf(),
                text.wf(),
                text@ == s,
                length == s.len(),
                s == document@,
                region == (start as int, end as int),
                start <= end <= s.len(),
                r@ == piece(s, region),
                from <= r@.len(),
                self@.prose_regions == old(self)@.prose_regions,
            ensures
                self@ == goal,
            decreases r@.len() - from,
        {
            let open = match index_of_pair(r, '=', '=', from) {
                Some(open) => open,
                None => {
                    break;
                },
            };
            let close = match index_of_pair(r, '=', '=', open + 2) {
                Some(close) => close,
                None => {
                    break;
                },
            };
            let inner = &r[open + 2..close];
            let tight = inner.len() > 0 && !contains_char(inner, '\n') && !is_whitespace(inner[0])
                && !is_whitespace(inner[inner.len() - 1]);
            if tight && !self.in_code(text.offset(start + open), text.offset(start + close + 2)) {
                self.highlight(document, start + open, start + close + 2);
                from = close + 2;
            } else {
                from = open + 2;
            }
        }
    }

    /// Conceals the marks of `==highlights==` in the prose and adds their bodies. Code spans are left
    /// alone.
    pub fn scan_highlights(&mut self, document: &Document)
        requires
            document.wf(),
        ensures
            final(self)@ == highlights_of(
                document@,
                old(self)@,
                old(self)@.prose_regions,
                old(self)@.prose_regions.len() as int,
            ),
    {
        let ghost s = document@;
        let ghost regions = self@.prose_regions;
        let mut i: usize = 0;
        while i < self.prose_regions.len()
            invariant
                document.wf(),
                s == document@,
                regions == old(self)@.prose_regions,
                self@.prose_regions == regions,
                i <= regions.len(),
                self@ == highlights_of(s, old(self)@, regions, i as int),
            decreases regions.len() - i,
        {
            assert(self@.prose_regions.len() == self.prose_regions@.len());
            assert(self@.prose_regions[i as int] == (
                self.prose_regions@[i as int].start as int,
                self.prose_regions@[i as int].end as int,
            ));
            match find_region(document, &self.prose_regions[i]) {
                Some((start, end)) => {
                    self.highlights_in(document, start, end);
                },
                None => {},
            }
            i += 1;
        }
        assert(self@.prose_regions.len() == self.prose_regions@.len());
    }
}

// ---------------------------------------------------------------------------------------------
// Tags
// ---------------------------------------------------------------------------------------------

/// What `char::is_alphanumeric` returns: whether a character is a letter or a number by Unicode's
/// tables.
pub uninterp spec fn unicode_alphanumeric(c: char) -> bool;

/// What `char::is_numeric` returns: whether a character is a number by Unicode's tables.
pub uninterp spec fn unicode_numeric(c: char) -> bool;

/// `char::is_alphanumeric` goes by Unicode's tables, which depend on the character alone. Of the
/// ASCII characters it takes the letters and the digits.
pub assume_specification[ char::is_alphanumeric ](c: char) -> (result: bool)
    ensures
        result == unicode_alphanumeric(c),
        (c as u32) < 0x80 ==> result == ascii_alphanumeric(c),
;

/// `char::is_numeric` goes by Unicode's tables, which depend on the character alone. Of the ASCII
/// characters it takes the digits.
pub assume_specification[ char::is_numeric ](c: char) -> (result: bool)
    ensures
        result == unicode_numeric(c),
        (c as u32) < 0x80 ==> result == ascii_digit(c),
;

/// For each character whether it is a letter or a number, and whether it is a number.
pub open spec fn letter_classes(s: Seq<char>) -> Seq<(bool, bool)> {
    Seq::new(s.len(), |i: int| (unicode_alphanumeric(s[i]), unicode_numeric(s[i])))
}

/// For each character whether it is a letter or a number, and whether it is a number.
pub fn classify_letters(s: &[char]) -> (result: Vec<(bool, bool)>)
    ensures
        result@ == letter_classes(s@),
{
    let mut result: Vec<(bool, bool)> = Vec::new();
    let mut i: usize = 0;
    while i < s.len()
        invariant
            i <= s@.len(),
            result@ == letter_classes(s@).take(i as int),
        decreases s@.len() - i,
    {
        result.push((s[i].is_alphanumeric(), s[i].is_numeric()));
        i += 1;
        assert(result@ =~= letter_classes(s@).take(i as int));
    }
    assert(result@ =~= letter_classes(s@));
    result
}

/// Where a run of characters that a tag can hold ends: letters, numbers, `_`, `-` and `/`.
pub open spec fn tag_run_end(r: Seq<char>, classes: Seq<(bool, bool)>, i: int) -> int
    decreases r.len() - i,
{
    if 0 <= i < r.len() && (classes[i].0 || r[i] == '_' || r[i] == '-' || r[i] == '/') {
        tag_run_end(r, classes, i + 1)
    } else {
        i
    }
}

/// Where the tag ends that opens with the `#` at `i`. There is none where the `#` does not open a
/// word, and where nothing but numbers is behind it.
pub open spec fn tag_end(r: Seq<char>, classes: Seq<(bool, bool)>, i: int) -> Option<int> {
    let run = r.subrange(i + 1, tag_run_end(r, classes, i + 1));
    let end = i + 1 + trim_end_by(run, CharClass::TagSeparator).len();
    if r[i] == '#' && (i == 0 || white_space(r[i - 1])) && exists|k: int|
        i + 1 <= k < end && !(#[trigger] classes[k]).1 {
        Some(end)
    } else {
        None
    }
}

/// The tags of a region from index `i` on, as index ranges with their `#`.
pub open spec fn tags_from(r: Seq<char>, classes: Seq<(bool, bool)>, i: int) -> Seq<(int, int)>
    decreases r.len() - i,
{
    if i < 0 || i >= r.len() {
        Seq::empty()
    } else {
        match tag_end(r, classes, i) {
            Some(end) => seq![(i, end)] + tags_from(r, classes, i + 1),
            None => tags_from(r, classes, i + 1),
        }
    }
}

proof fn lemma_tag_run_end(r: Seq<char>, classes: Seq<(bool, bool)>, i: int)
    requires
        0 <= i <= r.len(),
    ensures
        i <= tag_run_end(r, classes, i) <= r.len(),
    decreases r.len() - i,
{
    if i < r.len() && (classes[i].0 || r[i] == '_' || r[i] == '-' || r[i] == '/') {
        lemma_tag_run_end(r, classes, i + 1);
    }
}

fn find_tag_end(r: &[char], classes: &Vec<(bool, bool)>, i: usize) -> (result: Option<usize>)
    requires
        i < r@.len(),
        classes@.len() == r@.len(),
    ensures
        match result {
            Some(end) => tag_end(r@, classes@, i as int) == Some(end as int) && i < end <= r@.len(),
            None => tag_end(r@, classes@, i as int) is None,
        },
{
    if r[i] != '#' || (i > 0 && !is_whitespace(r[i - 1])) {
        return None;
    }
    let mut run: usize = i + 1;
    while run < r.len() && (classes[run].0 || r[run] == '_' || r[run] == '-' || r[run] == '/')
        invariant
            i < run <= r@.len(),
            classes@.len() == r@.len(),
            tag_run_end(r@, classes@, i + 1) == tag_run_end(r@, classes@, run as int),
        decreases r@.len() - run,
    {
        run += 1;
    }
    let part = &r[i + 1..run];
    let body = trimmed_end(part, CharClass::TagSeparator);
    proof {
        lemma_run_start(part@, CharClass::TagSeparator, part@.len() as int);
    }
    let end: usize = i + 1 + body.len();
    let mut k: usize = i + 1;
    while k < end
        invariant
            i + 1 <= k <= end <= r@.len(),
            classes@.len() == r@.len(),
            end == i + 1 + trim_end_by(
                r@.subrange(i + 1, tag_run_end(r@, classes@, i + 1)),
                CharClass::TagSeparator,
            ).len(),
            r@[i as int] == '#',
            i == 0 || white_space(r@[i - 1]),
            forall|m: int| i + 1 <= m < k ==> (#[trigger] classes@[m]).1,
        decreases end - k,
    {
        if !classes[k].1 {
            assert(!classes@[k as int].1);
            return Some(end);
        }
        k += 1;
    }
    None
}

/// The tags of a region, as index ranges with their `#`, where `classes` says of each character
/// whether it is a letter or a number, and whether it is a number.
pub fn tags_in(r: &[char], classes: &Vec<(bool, bool)>) -> (tags: Vec<(usize, usize)>)
    requires
        classes@.len() == r@.len(),
    ensures
        pairs(tags@) == tags_from(r@, classes@, 0),
        forall|k: int|
            0 <= k < tags@.len() ==> (#[trigger] tags@[k]).0 <= tags@[k].1 <= r@.len(),
{
    let mut tags: Vec<(usize, usize)> = Vec::new();
    let mut i: usize = 0;
    while i < r.len()
        invariant
            i <= r@.len(),
            classes@.len() == r@.len(),
            tags_from(r@, classes@, 0) == pairs(tags@) + tags_from(r@, classes@, i as int),
            forall|k: int|
                0 <= k < tags@.len() ==> (#[trigger] tags@[k]).0 <= tags@[k].1 <= r@.len(),
        decreases r@.len() - i,
    {
        let ghost before = pairs(tags@);
        match find_tag_end(r, classes, i) {
            Some(end) => {
                tags.push((i, end));
                assert(pairs(tags@) =~= before.push((i as int, end as int)));
            },
            None => {},
        }
        assert(pairs(tags@) + tags_from(r@, classes@, i + 1) =~= before + tags_from(
            r@,
            classes@,
            i as int,
        ));
        i += 1;
    }
    assert(pairs(tags@) =~= tags_from(r@, classes@, 0));
    tags
}

/// What the first `count` tags of a region add: those that are no code.
pub open spec fn with_tags(s: Seq<char>, m: Marks, base: int, tags: Seq<(int, int)>, count: int) -> Marks
    decreases count,
{
    if count <= 0 {
        m
    } else {
        let before = with_tags(s, m, base, tags, count - 1);
        let range = byte_span(s, (base + tags[count - 1].0, base + tags[count - 1].1));
        if touches_code(m.code_spans, range) {
            before
        } else {
            Marks { tags: before.tags.push(range), ..before }
        }
    }
}

/// The tags of a region of the text.
pub open spec fn region_tags(s: Seq<char>, region: (int, int)) -> Seq<(int, int)> {
    tags_from(piece(s, region), letter_classes(piece(s, region)), 0)
}

/// What the tags of the first `count` regions add.
pub open spec fn tags_of(s: Seq<char>, m: Marks, regions: Seq<(int, int)>, count: int) -> Marks
    decreases count,
{
    if count <= 0 {
        m
    } else {
        let before = tags_of(s, m, regions, count - 1);
        match region_span(s, regions[count - 1]) {
            Some(region) => with_tags(
                s,
                before,
                region.0,
                region_tags(s, region),
                region_tags(s, region).len() as int,
            ),
            None => before,
        }
    }
}

impl Extraction {
    fn push_tags(&mut self, document: &Document, base: usize, tags: &Vec<(usize, usize)>)
        requires
            document.wf(),
            base <= document@.len(),
            forall|k: int|
                0 <= k < tags@.len() ==> (#[trigger] tags@[k]).0 <= tags@[k].1 && base + tags@[k].1
                    <= document@.len(),
        ensures
            final(self)@ == with_tags(
                document@,
                old(self)@,
                base as int,
                pairs(tags@),
                tags@.len() as int,
            ),
            final(self)@.prose_regions == old(self)@.prose_regions,
    {
        let mut k: usize = 0;
        while k < tags.len()
            invariant
                document.wf(),
                k <= tags@.len(),
                forall|m: int|
                    0 <= m < tags@.len() ==> (#[trigger] tags@[m]).0 <= tags@[m].1 && base
                        + tags@[m].1 <= document@.len(),
                self@ == with_tags(document@, old(self)@, base as int, pairs(tags@), k as int),
                self@.prose_regions == old(self)@.prose_regions,
                self@.code_spans == old(self)@.code_spans,
            decreases tags@.len() - k,
        {
            let length: usize = document.text().len();
            assert(tags@[k as int].0 <= tags@[k as int].1);
            let start = document.text().offset(base + tags[k].0);
            let end = document.text().offset(base + tags[k].1);
            let ghost before = self@;
            if !self.in_code(start, end) {
                push_range(&mut self.tags, start, end);
                assert(self@ =~= (Marks {
                    tags: before.tags.push((start as int, end as int)),
                    ..before
                }));
            }
            k += 1;
        }
    }

    fn region_tags(&mut self, document: &Document, start: usize, end: usize)
        requires
            document.wf(),
            start <= end <= document@.len(),
        ensures
            final(self)@ == with_tags(
                document@,
                old(self)@,
                start as int,
                region_tags(document@, (start as int, end as int)),
                region_tags(document@, (start as int, end as int)).len() as int,
            ),
            final(self)@.prose_regions == old(self)@.prose_regions,
    {
        let r = document.text().part(start, end);
        let tags = tags_in(r, &classify_letters(r));
        assert(pairs(tags@).len() == tags_from(r@, letter_classes(r@), 0).len());
        self.push_tags(document, start, &tags);
    }

    /// Adds the tags (`#tag`, `#area/topic`) of the prose. Code spans are left alone.
    pub fn scan_tags(&mut self, document: &Document)
        requires
            document.wf(),
        ensures
            final(self)@ == tags_of(
                document@,
                old(self)@,
                old(self)@.prose_regions,
                old(self)@.prose_regions.len() as int,
            ),
    {
        let ghost s = document@;
        let ghost regions = self@.prose_regions;
        let mut i: usize = 0;
        while i < self.prose_regions.len()
            invariant
                document.wf(),
                s == document@,
                regions == old(self)@.prose_regions,
                self@.prose_regions == regions,
                i <= regions.len(),
                self@ == tags_of(s, old(self)@, regions, i as int),
            decreases regions.len() - i,
        {
            assert(self@.prose_regions.len() == self.prose_regions@.len());
            assert(self@.prose_regions[i as int] == (
                self.prose_regions@[i as int].start as int,
                self.prose_regions@[i as int].end as int,
            ));
            match find_region(document, &self.prose_regions[i]) {
                Some((start, end)) => {
                    self.region_tags(document, start, end);
                },
                None => {},
            }
            i += 1;
        }
        assert(self@.prose_regions.len() == self.prose_regions@.len());
    }
}

} // verus!
