//! Slash-separated paths, as links in a note spell them: their last name and its parts.

use crate::text::{
    find_char_back, last_index_of_char, lemma_find_char_back, option_view, pairs, piece, spells,
    split, split_ranges, string_of, to_chars,
};
use vstd::prelude::*;

verus! {

/// A piece of a path that names nothing: an empty one, or a lone dot.
pub open spec fn is_hollow(part: Seq<char>) -> bool {
    part.len() == 0 || part == "."@
}

/// The last of the first `count` pieces of a path that names something.
pub open spec fn last_name(s: Seq<char>, parts: Seq<(int, int)>, count: int) -> Option<Seq<char>>
    decreases count,
{
    if count <= 0 {
        None
    } else if is_hollow(piece(s, parts[count - 1])) {
        last_name(s, parts, count - 1)
    } else {
        Some(piece(s, parts[count - 1]))
    }
}

/// The name of the file that a path leads to. There is none where the path is empty, ends in `..`,
/// or leads nowhere.
pub open spec fn name_of(path: Seq<char>) -> Option<Seq<char>> {
    match last_name(path, split(path, '/'), split(path, '/').len() as int) {
        Some(name) => if name == ".."@ {
            None
        } else {
            Some(name)
        },
        None => None,
    }
}

/// The extension of a file name: what stands behind its last dot, unless that dot opens the name.
pub open spec fn extension_of_name(name: Seq<char>) -> Option<Seq<char>> {
    match find_char_back(name, '.', name.len() as int) {
        Some(at) => if at > 0 {
            Some(name.skip(at + 1))
        } else {
            None
        },
        None => None,
    }
}

/// A file name without its extension.
pub open spec fn stem_of_name(name: Seq<char>) -> Seq<char> {
    match find_char_back(name, '.', name.len() as int) {
        Some(at) => if at > 0 {
            name.take(at)
        } else {
            name
        },
        None => name,
    }
}

/// The extension of the file that a path leads to.
pub open spec fn extension_of(path: Seq<char>) -> Option<Seq<char>> {
    match name_of(path) {
        Some(name) => extension_of_name(name),
        None => None,
    }
}

/// The name, without its extension, of the file that a path leads to.
pub open spec fn stem_of(path: Seq<char>) -> Option<Seq<char>> {
    match name_of(path) {
        Some(name) => Some(stem_of_name(name)),
        None => None,
    }
}

/// Where the file name of a path stands.
pub(crate) fn name_range(path: &[char]) -> (result: Option<(usize, usize)>)
    ensures
        match result {
            Some((start, end)) => start <= end <= path@.len() && name_of(path@) == Some(
                path@.subrange(start as int, end as int),
            ),
            None => name_of(path@) is None,
        },
{
    let parts = split_ranges(path, '/');
    let ghost all = split(path@, '/');
    assert(pairs(parts@).len() == all.len());
    let mut count: usize = parts.len();
    while count > 0
        invariant
            count <= parts@.len(),
            pairs(parts@) == all,
            all == split(path@, '/'),
            parts@.len() == all.len(),
            forall|m: int|
                0 <= m < parts@.len() ==> (#[trigger] parts@[m]).0 <= parts@[m].1 <= path@.len(),
            last_name(path@, all, all.len() as int) == last_name(path@, all, count as int),
        decreases count,
    {
        assert(pairs(parts@)[count - 1] == all[count - 1]);
        assert(parts@[count - 1].0 <= parts@[count - 1].1 <= path@.len());
        let (start, end) = parts[count - 1];
        let part = &path[start..end];
        if part.len() > 0 && !spells(part, ".") {
            if spells(part, "..") {
                return None;
            }
            return Some((start, end));
        }
        count -= 1;
    }
    None
}

pub(crate) fn extension_chars(path: &[char]) -> (result: Option<Vec<char>>)
    ensures
        match result {
            Some(extension) => extension_of(path@) == Some(extension@),
            None => extension_of(path@) is None,
        },
{
    match name_range(path) {
        Some((start, end)) => {
            let name = &path[start..end];
            match last_index_of_char(name, '.', name.len()) {
                Some(at) => if at > 0 {
                    let extension = slice_to_vec(&name[at + 1..name.len()]);
                    assert(extension@ =~= name@.skip(at + 1));
                    Some(extension)
                } else {
                    None
                },
                None => None,
            }
        },
        None => None,
    }
}

fn slice_to_vec(s: &[char]) -> (result: Vec<char>)
    ensures
        result@ == s@,
{
    let mut result: Vec<char> = Vec::new();
    let mut i: usize = 0;
    while i < s.len()
        invariant
            i <= s@.len(),
            result@ == s@.take(i as int),
        decreases s@.len() - i,
    {
        result.push(s[i]);
        i += 1;
        assert(result@ =~= s@.take(i as int));
    }
    assert(result@ =~= s@);
    result
}

/// The extension of the file that a path leads to.
pub fn extension(path: &str) -> (result: Option<String>)
    ensures
        option_view(result) == extension_of(path@),
{
    match extension_chars(to_chars(path).as_slice()) {
        Some(extension) => Some(string_of(extension.as_slice())),
        None => None,
    }
}

/// The name, without its extension, of the file that a path leads to.
pub fn file_stem(path: &str) -> (result: Option<String>)
    ensures
        option_view(result) == stem_of(path@),
{
    let chars = to_chars(path);
    match name_range(chars.as_slice()) {
        Some((start, end)) => {
            let name = &chars.as_slice()[start..end];
            match last_index_of_char(name, '.', name.len()) {
                Some(at) => if at > 0 {
                    let stem = &name[0..at];
                    assert(stem@ =~= name@.take(at as int));
                    Some(string_of(stem))
                } else {
                    Some(string_of(name))
                },
                None => Some(string_of(name)),
            }
        },
        None => None,
    }
}

/// A file name with an extension is its stem, a dot, and its extension.
pub proof fn law_stem_and_extension_make_the_name(name: Seq<char>)
    ensures
        match extension_of_name(name) {
            Some(extension) => name == stem_of_name(name).push('.') + extension,
            None => name == stem_of_name(name),
        },
{
    lemma_find_char_back(name, '.', name.len() as int);
    match extension_of_name(name) {
        Some(extension) => {
            assert(name =~= stem_of_name(name).push('.') + extension);
        },
        None => {},
    }
}

} // verus!
