//! What a text shows once its wikilinks are replaced, and what the parts of a path are.

use crate::path::{extension_of, name_of, stem_of};
use crate::scan_laws::{
    are_links, is_body, is_next_link, lemma_body, lemma_pair_is_at, lemma_shown, shows_from, stands,
};
use crate::text::{
    find_char, find_char_back, find_pair, lemma_find_char, lemma_find_char_back, lemma_find_pair,
    piece, split, split_from,
};
use crate::wikilink::{
    code_spans_from, displayed, displayed_from, shown_from, shows_as_text, touches,
};
use vstd::prelude::*;

verus! {

// ---------------------------------------------------------------------------------------------
// Wikilinks
// ---------------------------------------------------------------------------------------------

/// Where what shows of a link's body starts: behind its first pipe, or with the body where it has
/// none.
pub open spec fn is_shown_from(s: Seq<char>, link: (int, int), shown: int) -> bool {
    shows_from(s, link.0 + 2, link.1, shown)
}

/// Whether a link shows as its name: it has a body, is no embed, and no part of it is code.
pub open spec fn is_replaced(s: Seq<char>, link: (int, int)) -> bool {
    let code = code_spans_from(s, 0);
    &&& is_body(s, link.0 + 2, link.1)
    &&& link.0 > 0 ==> s[link.0 - 1] != '!'
    &&& forall|i: int|
        0 <= i < code.len() ==> (#[trigger] code[i]).1 <= link.0 || link.1 + 2 <= code[i].0
}

/// A text up to the end of its first `count` links, with each shown from the place given for it.
pub open spec fn replaced_up_to(
    s: Seq<char>,
    links: Seq<(int, int)>,
    shown: Seq<int>,
    count: int,
) -> Seq<char>
    decreases count,
{
    if count <= 0 {
        Seq::empty()
    } else {
        let (open, close) = links[count - 1];
        let from = if count == 1 {
            0
        } else {
            links[count - 2].1 + 2
        };
        replaced_up_to(s, links, shown, count - 1) + s.subrange(from, open) + link_shows(
            s,
            (open, close),
            shown[count - 1],
        )
    }
}

proof fn lemma_copied(s: Seq<char>, code: Seq<(int, int)>, from: int, copied: int)
    requires
        0 <= copied <= from <= s.len(),
    ensures
        displayed_from(s, code, from, copied) == s.subrange(copied, from) + displayed_from(
            s,
            code,
            from,
            from,
        ),
    decreases s.len() - from,
{
    let lead = s.subrange(copied, from);
    assert(s.skip(copied) =~= lead + s.skip(from));
    match find_pair(s, '[', '[', from) {
        Some(open) => {
            match find_pair(s, ']', ']', open + 2) {
                Some(close) => {
                    if from <= open && open + 2 <= close && close + 2 <= s.len() {
                        if shows_as_text(s, code, open, close) {
                            assert(s.subrange(copied, open) =~= lead + s.subrange(from, open));
                            let inner = s.subrange(open + 2, close);
                            let name = inner.skip(shown_from(inner));
                            let rest = displayed_from(s, code, close + 2, close + 2);
                            assert(s.subrange(copied, open) + name + rest =~= lead + (s.subrange(
                                from,
                                open,
                            ) + name + rest));
                        } else {
                            lemma_copied(s, code, close + 2, copied);
                            lemma_copied(s, code, close + 2, from);
                            assert(s.subrange(copied, close + 2) =~= lead + s.subrange(
                                from,
                                close + 2,
                            ));
                            let rest = displayed_from(s, code, close + 2, close + 2);
                            assert(s.subrange(copied, close + 2) + rest =~= lead + (s.subrange(
                                from,
                                close + 2,
                            ) + rest));
                        }
                    }
                },
                None => {},
            }
        },
        None => {},
    }
}

proof fn lemma_is_replaced(s: Seq<char>, open: int, close: int)
    requires
        0 <= open,
        open + 2 <= close,
        close + 2 <= s.len(),
    ensures
        shows_as_text(s, code_spans_from(s, 0), open, close) == is_replaced(s, (open, close)),
{
    let inner = s.subrange(open + 2, close);
    let code = code_spans_from(s, 0);
    if is_body(s, open + 2, close) {
        lemma_body(s, open + 2, close);
    } else {
        lemma_find_char(inner, '\n', 0);
        if exists|k: int| open + 2 <= k < close && #[trigger] s[k] == '\n' {
            let k = choose|k: int| open + 2 <= k < close && #[trigger] s[k] == '\n';
            assert(inner[k - open - 2] == '\n');
        } else if open + 2 < close {
            let k = choose|k: int| open + 2 <= k < close - 1 && #[trigger] stands(s, k, '[', '[');
            let needle = seq!['[', '['];
            assert(inner.subrange(k - open - 2, k - open - 2 + needle.len()) =~= needle);
        }
    }
    if touches(code, open, close + 2) {
        let i = choose|i: int|
            0 <= i < code.len() && (#[trigger] code[i]).0 < close + 2 && open < code[i].1;
        assert(!(code[i].1 <= open || close + 2 <= code[i].0));
    }
}

/// What one link of a text shows as.
pub open spec fn link_shows(s: Seq<char>, link: (int, int), shown: int) -> Seq<char> {
    if is_replaced(s, link) {
        s.subrange(shown, link.1)
    } else {
        s.subrange(link.0, link.1 + 2)
    }
}

proof fn lemma_one_link(s: Seq<char>, from: int, open: int, close: int, shown: int)
    requires
        is_next_link(s, (0, s.len() as int), from, open, close),
        is_shown_from(s, (open, close), shown),
    ensures
        ({
            let code = code_spans_from(s, 0);
            displayed_from(s, code, from, from) == s.subrange(from, open) + link_shows(
                s,
                (open, close),
                shown,
            ) + displayed_from(s, code, close + 2, close + 2)
        }),
{
    let code = code_spans_from(s, 0);
    lemma_pair_is_at(s, '[', '[', from, open);
    lemma_pair_is_at(s, ']', ']', open + 2, close);
    lemma_is_replaced(s, open, close);
    let rest = displayed_from(s, code, close + 2, close + 2);
    if is_replaced(s, (open, close)) {
        lemma_shown(s, open + 2, close, shown);
        let inner = s.subrange(open + 2, close);
        assert(inner.skip(shown_from(inner)) =~= s.subrange(shown, close));
    } else {
        lemma_copied(s, code, close + 2, from);
        assert(s.subrange(from, close + 2) =~= s.subrange(from, open) + s.subrange(open, close + 2));
    }
}

proof fn lemma_replaced(s: Seq<char>, links: Seq<(int, int)>, shown: Seq<int>, count: int)
    requires
        0 <= count <= links.len(),
        shown.len() == links.len(),
        are_links(s, (0, s.len() as int), links),
        forall|k: int| 0 <= k < links.len() ==> is_shown_from(s, #[trigger] links[k], shown[k]),
    ensures
        ({
            let end = if count == 0 {
                0
            } else {
                links[count - 1].1 + 2
            };
            displayed(s) == replaced_up_to(s, links, shown, count) + displayed_from(
                s,
                code_spans_from(s, 0),
                end,
                end,
            )
        }),
    decreases count,
{
    let code = code_spans_from(s, 0);
    if count == 0 {
        assert(Seq::<char>::empty() + displayed_from(s, code, 0, 0) =~= displayed_from(
            s,
            code,
            0,
            0,
        ));
    } else {
        lemma_replaced(s, links, shown, count - 1);
        let (open, close) = links[count - 1];
        let from = if count == 1 {
            0
        } else {
            links[count - 2].1 + 2
        };
        assert(is_next_link(s, (0, s.len() as int), from, open, close));
        assert(is_shown_from(s, links[count - 1], shown[count - 1]));
        lemma_one_link(s, from, open, close, shown[count - 1]);
        let rest = displayed_from(s, code, close + 2, close + 2);
        let before = replaced_up_to(s, links, shown, count - 1);
        let between = s.subrange(from, open);
        let name = link_shows(s, (open, close), shown[count - 1]);
        assert(before + (between + name + rest) =~= before + between + name + rest);
    }
}

/// Every wikilink of a text is replaced by what shows of it, and everything else stays as it is.
pub proof fn law_every_wikilink_is_replaced(s: Seq<char>, links: Seq<(int, int)>, shown: Seq<int>)
    requires
        links.len() > 0,
        shown.len() == links.len(),
        are_links(s, (0, s.len() as int), links),
        forall|k: int| 0 <= k < links.len() ==> is_shown_from(s, #[trigger] links[k], shown[k]),
        forall|i: int|
            links.last().1 + 2 <= i < s.len() - 1 ==> !#[trigger] stands(s, i, '[', '['),
    ensures
        displayed(s) == replaced_up_to(s, links, shown, links.len() as int) + s.skip(
            links.last().1 + 2,
        ),
{
    lemma_replaced(s, links, shown, links.len() as int);
    let end = links.last().1 + 2;
    lemma_find_pair(s, '[', '[', end);
    if find_pair(s, '[', '[', end) is Some {
        let at = find_pair(s, '[', '[', end)->0;
        assert(stands(s, at, '[', '['));
    }
}

// ---------------------------------------------------------------------------------------------
// Paths
// ---------------------------------------------------------------------------------------------

proof fn lemma_split_tail(s: Seq<char>, separator: char, start: int, at: int)
    requires
        0 <= start <= at <= s.len(),
        at == start || s[at - 1] == separator,
        forall|i: int| at <= i < s.len() ==> #[trigger] s[i] != separator,
    ensures
        split_from(s, separator, start).len() > 0,
        split_from(s, separator, start).last() == (at, s.len() as int),
    decreases at - start,
{
    lemma_find_char(s, separator, start);
    match find_char(s, separator, start) {
        Some(found) => {
            if at == start {
                assert(s[found] != separator);
            } else {
                if found > at - 1 {
                    assert(s[at - 1] == separator);
                }
                lemma_split_tail(s, separator, found + 1, at);
                assert(split_from(s, separator, start).last() == split_from(
                    s,
                    separator,
                    found + 1,
                ).last());
            }
        },
        None => {
            if at > start {
                assert(s[at - 1] == separator);
            }
        },
    }
}

/// Whether a text can be the name of a file: it has a character, no slash, and is neither dot nor two
/// dots.
pub open spec fn is_file_name(name: Seq<char>) -> bool {
    &&& name.len() > 0
    &&& !name.contains('/')
    &&& name != seq!['.']
    &&& name != seq!['.', '.']
}

/// The file that a path leads to is named by what stands behind its last slash, or by the whole path
/// where it has none. Its extension stands behind the last dot of that name.
pub proof fn law_a_path_ends_with_its_file(
    folder: Seq<char>,
    stem: Seq<char>,
    extension: Seq<char>,
)
    requires
        folder.len() == 0 || folder[folder.len() - 1] == '/',
        stem.len() > 0,
        !stem.contains('/'),
        !extension.contains('/'),
        !extension.contains('.'),
        is_file_name(stem + seq!['.'] + extension),
    ensures
        name_of(folder + stem + seq!['.'] + extension) == Some(stem + seq!['.'] + extension),
        extension_of(folder + stem + seq!['.'] + extension) == Some(extension),
        stem_of(folder + stem + seq!['.'] + extension) == Some(stem),
{
    let name = stem + seq!['.'] + extension;
    let path = folder + stem + seq!['.'] + extension;
    lemma_path_name(folder, name);
    assert(folder + name =~= path);
    let at = stem.len() as int;
    lemma_find_char_back(name, '.', name.len() as int);
    assert(name[at] == '.');
    assert forall|i: int| at < i < name.len() implies #[trigger] name[i] != '.' by {
        assert(name[i] == extension[i - at - 1]);
    }
    assert(find_char_back(name, '.', name.len() as int) == Some(at));
    assert(name.skip(at + 1) =~= extension);
    assert(name.take(at) =~= stem);
}

/// A file name without a dot in it, or with its only dot in front, is all stem and has no extension.
pub proof fn law_a_name_without_a_dot_has_no_extension(folder: Seq<char>, name: Seq<char>)
    requires
        folder.len() == 0 || folder[folder.len() - 1] == '/',
        is_file_name(name),
        forall|i: int| 1 <= i < name.len() ==> #[trigger] name[i] != '.',
    ensures
        extension_of(folder + name) is None,
        stem_of(folder + name) == Some(name),
{
    lemma_path_name(folder, name);
    lemma_find_char_back(name, '.', name.len() as int);
}

proof fn lemma_path_name(folder: Seq<char>, name: Seq<char>)
    requires
        folder.len() == 0 || folder[folder.len() - 1] == '/',
        is_file_name(name),
    ensures
        name_of(folder + name) == Some(name),
{
    let path = folder + name;
    let at = folder.len() as int;
    assert forall|i: int| at <= i < path.len() implies #[trigger] path[i] != '/' by {
        assert(path[i] == name[i - at]);
    }
    lemma_split_tail(path, '/', 0, at);
    let parts = split(path, '/');
    assert(piece(path, parts[parts.len() - 1]) =~= name);
    reveal_strlit(".");
    reveal_strlit("..");
    assert("."@ =~= seq!['.']);
    assert(".."@ =~= seq!['.', '.']);
}

} // verus!
