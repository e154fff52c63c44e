//! Images: which files are ones, what an image's alt text says of its width, and where its
//! destination leads.

use crate::inline_layer::width_digits;
use crate::numbers::{decimal, digit_char, push_number};
use crate::text::{
    ascii_digit, ascii_lowercase, find_char, find_char_back, find_pair, has_char, has_prefix, index_of_char,
    index_of_pair, is_ascii_digit, last_index_of_char, lemma_byte_offset_grows, lemma_find_char,
    lemma_find_char_back, lemma_find_pair, option_view, push_chars, push_text, run_end, slice_at,
    spells, starts_with, string_of, to_ascii_lowercase, to_chars, trim, trimmed, CharClass, Text,
};
use std::ops::Range;
use vstd::prelude::*;
use vstd::utf8::{
    char_is_scalar, char_u32_cast, decode_utf8, encode_scalar, encode_utf8, encode_utf8_decode_utf8, encode_utf8_valid_utf8, valid_utf8,
};

verus! {

/// The extensions of image files, in small letters.
pub open spec fn image_extension(lower: Seq<char>) -> bool {
    ||| lower == "png"@
    ||| lower == "jpg"@
    ||| lower == "jpeg"@
    ||| lower == "gif"@
    ||| lower == "webp"@
    ||| lower == "svg"@
    ||| lower == "bmp"@
}

pub(crate) fn is_image_extension_chars(extension: &[char]) -> (result: bool)
    ensures
        result == image_extension(ascii_lowercase(extension@)),
{
    let lower = to_ascii_lowercase(extension);
    let lower = lower.as_slice();
    spells(lower, "png") || spells(lower, "jpg") || spells(lower, "jpeg") || spells(lower, "gif")
        || spells(lower, "webp") || spells(lower, "svg") || spells(lower, "bmp")
}

/// Whether a file extension is that of an image, in capital or small letters.
pub fn is_image_extension(extension: &str) -> (result: bool)
    ensures
        result == image_extension(ascii_lowercase(extension@)),
{
    is_image_extension_chars(to_chars(extension).as_slice())
}

// ---------------------------------------------------------------------------------------------
// Widths
// ---------------------------------------------------------------------------------------------

/// Whether a text gives a size: digits, or digits with an `x` between them.
pub open spec fn is_size(s: Seq<char>) -> bool {
    s.len() > 0 && forall|i: int|
        0 <= i < s.len() ==> ascii_digit(#[trigger] s[i]) || s[i] == 'x'
}

/// An alt text without the size behind its last bar.
pub open spec fn without_size(alt: Seq<char>) -> Seq<char> {
    match find_char_back(alt, '|', alt.len() as int) {
        Some(bar) => if is_size(alt.skip(bar + 1)) {
            alt.take(bar)
        } else {
            alt
        },
        None => alt,
    }
}

/// Where the alt text of the first image of a text lies.
pub open spec fn alt_range(s: Seq<char>) -> Option<(int, int)> {
    match find_pair(s, '!', '[', 0) {
        Some(mark) => match find_char(s, ']', mark + 2) {
            Some(end) => Some((mark + 2, end)),
            None => None,
        },
        None => None,
    }
}

/// A text whose first image asks for a width, in place of the size it asked for.
pub open spec fn resized(s: Seq<char>, width: nat) -> Option<Seq<char>> {
    match alt_range(s) {
        Some((start, end)) => Some(
            s.take(start) + without_size(s.subrange(start, end)) + "|"@ + decimal(width) + s.skip(
                end,
            ),
        ),
        None => None,
    }
}

fn text_is_size(s: &[char]) -> (result: bool)
    ensures
        result == is_size(s@),
{
    let mut i: usize = 0;
    while i < s.len()
        invariant
            i <= s@.len(),
            forall|k: int| 0 <= k < i ==> ascii_digit(#[trigger] s@[k]) || s@[k] == 'x',
        decreases s@.len() - i,
    {
        if !is_ascii_digit(s[i]) && s[i] != 'x' {
            assert(!(ascii_digit(s@[i as int]) || s@[i as int] == 'x'));
            return false;
        }
        i += 1;
    }
    s.len() > 0
}

fn strip_size(alt: &[char]) -> (result: &[char])
    ensures
        result@ == without_size(alt@),
{
    let length: usize = alt.len();
    proof {
        lemma_find_char_back(alt@, '|', length as int);
    }
    match last_index_of_char(alt, '|', length) {
        Some(bar) => {
            let size = &alt[bar + 1..length];
            assert(size@ =~= alt@.skip(bar + 1));
            if text_is_size(size) {
                let rest = &alt[0..bar];
                assert(rest@ =~= alt@.take(bar as int));
                rest
            } else {
                alt
            }
        },
        None => alt,
    }
}

/// An image's markdown with this width behind the last bar of its alt text, in place of the size
/// that stood there. `None` where there is no image.
pub fn with_image_width(image_markdown: &str, width: u32) -> (result: Option<String>)
    ensures
        option_view(result) == resized(image_markdown@, width as nat),
{
    let chars = to_chars(image_markdown);
    let s = chars.as_slice();
    proof {
        lemma_find_pair(s@, '!', '[', 0);
    }
    let mark = match index_of_pair(s, '!', '[', 0) {
        Some(mark) => mark,
        None => {
            return None;
        },
    };
    let start: usize = mark + 2;
    proof {
        lemma_find_char(s@, ']', start as int);
    }
    let end = match index_of_char(s, ']', start) {
        Some(end) => end,
        None => {
            return None;
        },
    };
    let mut result = String::new();
    push_chars(&mut result, &s[0..start]);
    push_chars(&mut result, strip_size(&s[start..end]));
    push_text(&mut result, "|");
    push_number(&mut result, width as u64);
    push_chars(&mut result, &s[end..s.len()]);
    assert(s@.subrange(0, start as int) =~= s@.take(start as int));
    assert(s@.subrange(end as int, s@.len() as int) =~= s@.skip(end as int));
    assert(result@ =~= resized(s@, width as nat)->0);
    Some(result)
}

/// What replaces an image's markdown, white space around it aside, where it is to have this width.
/// `None` where there is no image or it has that width.
pub open spec fn resize_edit(current: Seq<char>, width: nat) -> Option<Seq<char>> {
    match resized(trim(current), width) {
        Some(updated) => if updated == trim(current) {
            None
        } else {
            Some(updated)
        },
        None => None,
    }
}

/// What replaces the byte range of an image so that it has this width. `None` where the range is
/// empty or no range of the text, holds no image, or holds one of that width.
pub fn resize_image_to_width(text: &str, range: &Range<usize>, width: u32) -> (result: Option<
    String,
>)
    ensures
        option_view(result) == match slice_at(text@, range.start as int, range.end as int) {
            Some(current) if range.start < range.end => resize_edit(current, width as nat),
            _ => None,
        },
{
    if range.start >= range.end {
        return None;
    }
    let text = Text::new(text);
    let (start, end) = match (text.index_of(range.start), text.index_of(range.end)) {
        (Some(start), Some(end)) => (start, end),
        _ => {
            return None;
        },
    };
    proof {
        if end < start {
            lemma_byte_offset_grows(text@, end as int, start as int);
        }
    }
    let current = trimmed(text.part(start, end));
    let updated = match with_image_width(string_of(current).as_str(), width) {
        Some(updated) => updated,
        None => {
            return None;
        },
    };
    if spells(current, updated.as_str()) {
        None
    } else {
        Some(updated)
    }
}

// ---------------------------------------------------------------------------------------------
// Destinations
// ---------------------------------------------------------------------------------------------

/// The value of a hexadecimal digit, as a byte of ASCII.
pub open spec fn hex_value(byte: u8) -> Option<int> {
    if 48 <= byte <= 57 {
        Some(byte - 48)
    } else if 65 <= byte <= 70 {
        Some(byte - 55)
    } else if 97 <= byte <= 102 {
        Some(byte - 87)
    } else {
        None
    }
}

/// The bytes from `i` on with every `%` and two hexadecimal digits behind it replaced by the byte
/// that the digits give. A `%` without two such digits stays.
pub open spec fn unescaped(bytes: Seq<u8>, i: int) -> Seq<u8>
    decreases bytes.len() - i,
{
    if i >= bytes.len() {
        Seq::empty()
    } else if bytes[i] == 37 && i + 2 < bytes.len() && hex_value(bytes[i + 1]) is Some && hex_value(
        bytes[i + 2],
    ) is Some {
        seq![(hex_value(bytes[i + 1])->0 * 16 + hex_value(bytes[i + 2])->0) as u8] + unescaped(
            bytes,
            i + 3,
        )
    } else {
        seq![bytes[i]] + unescaped(bytes, i + 1)
    }
}

/// A text with its percent-encoding undone, where the bytes are then UTF-8.
pub open spec fn percent_decoded(s: Seq<char>) -> Option<Seq<char>> {
    let bytes = unescaped(encode_utf8(s), 0);
    if valid_utf8(bytes) {
        Some(decode_utf8(bytes))
    } else {
        None
    }
}

/// `urlencoding::decode` replaces every `%` with two hexadecimal digits behind it by the byte that
/// they give and leaves everything else as it is. It fails where the bytes are then not UTF-8.
#[verifier::external_body]
fn decode_percent(text: &str) -> (result: Option<String>)
    ensures
        option_view(result) == percent_decoded(text@),
{
    urlencoding::decode(text).ok().map(|decoded| decoded.into_owned())
}

/// Where an image is loaded from.
#[derive(Debug)]
pub enum ImagePlace {
    /// An address.
    Remote(String),
    /// A path on disk, from the note's folder where it is relative.
    Local(String),
}

/// What an [`ImagePlace`] holds.
pub enum Place {
    Remote(Seq<char>),
    Local(Seq<char>),
}

impl View for ImagePlace {
    type V = Place;

    open spec fn view(&self) -> Place {
        match self {
            ImagePlace::Remote(address) => Place::Remote(address@),
            ImagePlace::Local(path) => Place::Local(path@),
        }
    }
}

/// Where an image's destination leads. Embedded data is not loaded; addresses are taken as they are;
/// the rest are paths, in which percent-encoding is undone where that gives text.
pub open spec fn place_of(destination: Seq<char>) -> Option<Place> {
    if starts_with(destination, "data:"@) {
        None
    } else if starts_with(destination, "http://"@) || starts_with(destination, "https://"@) {
        Some(Place::Remote(destination))
    } else {
        Some(
            Place::Local(
                match percent_decoded(destination) {
                    Some(decoded) => decoded,
                    None => destination,
                },
            ),
        )
    }
}

/// Where an image's destination leads. Embedded data is not loaded; addresses are taken as they are;
/// the rest are paths, in which percent-encoding is undone where that gives text.
pub fn resolve_image_source(destination: &str) -> (result: Option<ImagePlace>)
    ensures
        match place_of(destination@) {
            Some(place) => result is Some && (result->0)@ == place,
            None => result is None,
        },
{
    let chars = to_chars(destination);
    let s = chars.as_slice();
    if has_prefix(s, to_chars("data:").as_slice()) {
        return None;
    }
    if has_prefix(s, to_chars("http://").as_slice()) || has_prefix(
        s,
        to_chars("https://").as_slice(),
    ) {
        return Some(ImagePlace::Remote(destination.to_owned()));
    }
    match decode_percent(destination) {
        Some(decoded) => Some(ImagePlace::Local(decoded)),
        None => Some(ImagePlace::Local(destination.to_owned())),
    }
}

// ---------------------------------------------------------------------------------------------
// Laws
// ---------------------------------------------------------------------------------------------

proof fn lemma_decimal_digits(number: nat)
    ensures
        decimal(number).len() > 0,
        forall|i: int| 0 <= i < decimal(number).len() ==> ascii_digit(#[trigger] decimal(number)[i]),
        number > 0 ==> exists|i: int|
            0 <= i < decimal(number).len() && #[trigger] decimal(number)[i] != '0',
    decreases number,
{
    if number >= 10 {
        lemma_decimal_digits(number / 10);
        let front = decimal(number / 10);
        let k = choose|i: int| 0 <= i < front.len() && #[trigger] front[i] != '0';
        assert(decimal(number)[k] == front[k]);
        assert forall|i: int| 0 <= i < decimal(number).len() implies ascii_digit(
            #[trigger] decimal(number)[i],
        ) by {
            if i < front.len() {
                assert(decimal(number)[i] == front[i]);
            }
        }
    } else {
        assert(decimal(number)[0] == digit_char(number));
    }
}

proof fn lemma_last_bar(base: Seq<char>, size: Seq<char>, to: int)
    requires
        forall|i: int| 0 <= i < size.len() ==> ascii_digit(#[trigger] size[i]),
        base.len() < to <= base.len() + 1 + size.len(),
    ensures
        find_char_back(base + "|"@ + size, '|', to) == Some(base.len() as int),
    decreases to,
{
    reveal_strlit("|");
    let all = base + "|"@ + size;
    if to > base.len() + 1 {
        assert(all[to - 1] == size[to - 1 - base.len() - 1]);
        lemma_last_bar(base, size, to - 1);
    } else {
        assert(all[to - 1] == '|');
    }
}

proof fn lemma_pair_in_longer(s: Seq<char>, t: Seq<char>, from: int, mark: int)
    requires
        0 <= from,
        find_pair(s, '!', '[', from) == Some(mark),
        mark + 2 <= t.len(),
        forall|i: int| 0 <= i < mark + 2 ==> #[trigger] s[i] == t[i],
    ensures
        find_pair(t, '!', '[', from) == Some(mark),
    decreases s.len() - from,
{
    lemma_find_pair(s, '!', '[', from);
    assert(s[from] == t[from]);
    assert(s[from + 1] == t[from + 1]);
    if from < mark {
        lemma_pair_in_longer(s, t, from + 1, mark);
    }
}

proof fn lemma_first_char(s: Seq<char>, c: char, from: int, at: int)
    requires
        0 <= from <= at < s.len(),
        s[at] == c,
        forall|i: int| from <= i < at ==> #[trigger] s[i] != c,
    ensures
        find_char(s, c, from) == Some(at),
    decreases at - from,
{
    if from < at {
        lemma_first_char(s, c, from + 1, at);
    }
}

/// Where the alt text of a resized image lies, and what it holds.
proof fn lemma_resized_alt(s: Seq<char>, width: nat)
    requires
        alt_range(s) is Some,
    ensures
        ({
            let (start, end) = alt_range(s)->0;
            let base = without_size(s.subrange(start, end));
            let alt = base + "|"@ + decimal(width);
            let new = resized(s, width)->0;
            &&& alt_range(new) == Some((start, start + alt.len()))
            &&& new.subrange(start, start + alt.len()) == alt
            &&& new.take(start) == s.take(start)
            &&& new.skip(start + alt.len()) == s.skip(end)
            &&& without_size(alt) == base
        }),
{
    reveal_strlit("|");
    lemma_find_pair(s, '!', '[', 0);
    let mark = find_pair(s, '!', '[', 0)->0;
    lemma_find_char(s, ']', mark + 2);
    let (start, end) = alt_range(s)->0;
    let old = s.subrange(start, end);
    let base = without_size(old);
    let size = decimal(width);
    let alt = base + "|"@ + size;
    let new = resized(s, width)->0;
    lemma_find_char_back(old, '|', old.len() as int);
    lemma_decimal_digits(width);
    lemma_last_bar(base, size, alt.len() as int);
    assert(alt.skip(base.len() + 1int) =~= size);
    assert(alt.take(base.len() as int) =~= base);
    assert(new.take(start) =~= s.take(start));
    assert(new.subrange(start, start + alt.len()) =~= alt);
    assert(new.skip(start + alt.len()) =~= s.skip(end));
    assert forall|i: int| 0 <= i < mark + 2 implies #[trigger] s[i] == new[i] by {
        assert(s.take(start)[i] == new.take(start)[i]);
    }
    lemma_pair_in_longer(s, new, 0, mark);
    assert forall|i: int| start <= i < start + alt.len() implies #[trigger] new[i] != ']' by {
        assert(new[i] == alt[i - start]);
        if i - start < base.len() {
            assert(base[i - start] == old[i - start]);
            assert(old[i - start] == s[i]);
        } else if i - start > base.len() {
            assert(alt[i - start] == size[i - start - base.len() - 1]);
        }
    }
    assert(new[start + alt.len()] == s.skip(end)[0]);
    lemma_first_char(new, ']', start, start + alt.len());
}

/// Resizing an image twice is resizing it once: each width takes the place of the one before.
pub proof fn law_a_width_replaces_a_width(s: Seq<char>, first: nat, second: nat)
    requires
        alt_range(s) is Some,
    ensures
        resized(resized(s, first)->0, second) == resized(s, second),
{
    lemma_resized_alt(s, first);
    let new = resized(s, first)->0;
    assert(resized(new, second)->0 =~= resized(s, second)->0);
}

/// The width that was written into an image is the width that is read from it.
pub proof fn law_a_written_width_reads_back(s: Seq<char>, width: nat)
    requires
        alt_range(s) is Some,
        width > 0,
    ensures
        ({
            let new = resized(s, width)->0;
            let (start, end) = alt_range(new)->0;
            let alt = new.subrange(start, end);
            match find_char_back(alt, '|', alt.len() as int) {
                Some(bar) => width_digits(alt.skip(bar + 1)) == Some(decimal(width)),
                None => false,
            }
        }),
{
    reveal_strlit("|");
    lemma_resized_alt(s, width);
    let (start, end) = alt_range(s)->0;
    let base = without_size(s.subrange(start, end));
    let size = decimal(width);
    let alt = base + "|"@ + size;
    lemma_decimal_digits(width);
    lemma_last_bar(base, size, alt.len() as int);
    assert(alt.skip(base.len() + 1int) =~= size);
    lemma_digits_run(size, 0);
    assert(size.take(size.len() as int) =~= size);
}

proof fn lemma_digits_run(size: Seq<char>, from: int)
    requires
        0 <= from <= size.len(),
        forall|i: int| 0 <= i < size.len() ==> ascii_digit(#[trigger] size[i]),
    ensures
        run_end(size, CharClass::Digit, from) == size.len(),
    decreases size.len() - from,
{
    if from < size.len() {
        lemma_digits_run(size, from + 1);
    }
}

proof fn lemma_nothing_escaped(bytes: Seq<u8>, i: int)
    requires
        0 <= i <= bytes.len(),
        forall|k: int| 0 <= k < bytes.len() ==> #[trigger] bytes[k] != 37,
    ensures
        unescaped(bytes, i) == bytes.skip(i),
    decreases bytes.len() - i,
{
    if i < bytes.len() {
        lemma_nothing_escaped(bytes, i + 1);
    }
    assert(unescaped(bytes, i) =~= bytes.skip(i));
}

/// A percent sign is a byte of its own: no other character has that byte in its encoding.
proof fn lemma_percent_stands_alone(scalar: u32)
    by (bit_vector)
    requires
        scalar != 37,
    ensures
        scalar <= 0x7f ==> (scalar & 0x7f) as u8 != 37,
        0xc0 | ((scalar >> 6) & 0x1f) as u8 != 37,
        0xe0 | ((scalar >> 12) & 0x0f) as u8 != 37,
        0xf0 | ((scalar >> 18) & 0x7) as u8 != 37,
        0x80 | (scalar & 0x3f) as u8 != 37,
        0x80 | ((scalar >> 6) & 0x3f) as u8 != 37,
        0x80 | ((scalar >> 12) & 0x3f) as u8 != 37,
{
}

proof fn lemma_no_percent(s: Seq<char>)
    requires
        !has_char(s, '%'),
    ensures
        forall|k: int| 0 <= k < encode_utf8(s).len() ==> #[trigger] encode_utf8(s)[k] != 37,
    decreases s.len(),
{
    if s.len() > 0 {
        let first = encode_scalar(s[0] as u32);
        let rest = encode_utf8(s.drop_first());
        lemma_find_char(s, '%', 0);
        let scalar = s[0] as u32;
        char_is_scalar(s[0]);
        assert(s[0] != '%');
        assert(scalar != 37u32) by {
            if scalar == 37u32 {
                char_u32_cast(s[0], 37u32);
            }
        }
        lemma_percent_stands_alone(scalar);
        lemma_find_char(s.drop_first(), '%', 0);
        lemma_no_percent(s.drop_first());
        assert forall|k: int| 0 <= k < encode_utf8(s).len() implies #[trigger] encode_utf8(s)[k]
            != 37 by {
            if k < first.len() {
                assert(encode_utf8(s)[k] == first[k]);
            } else {
                assert(encode_utf8(s)[k] == rest[k - first.len()]);
            }
        }
    }
}

/// A destination without a percent sign is decoded to itself.
pub proof fn law_plain_text_decodes_to_itself(s: Seq<char>)
    requires
        !has_char(s, '%'),
    ensures
        percent_decoded(s) == Some(s),
{
    let bytes = encode_utf8(s);
    lemma_no_percent(s);
    lemma_nothing_escaped(bytes, 0);
    assert(bytes.skip(0) =~= bytes);
    encode_utf8_valid_utf8(s);
    encode_utf8_decode_utf8(s);
}

} // verus!
