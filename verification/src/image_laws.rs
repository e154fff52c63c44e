//! What resizing an image writes, and where an image is loaded from.

use crate::image::{
    alt_range, is_size, percent_decoded, place_of, resize_edit, resized, without_size, Place,
};
use crate::numbers::{decimal, digit_char};
use crate::text::{find_char_back, find_pair, lemma_find_char, lemma_find_char_back, starts_with};
use crate::text_laws::{is_blank_text, is_tight, law_trimming_takes_the_outer_blanks};
use vstd::prelude::*;

verus! {

/// The number that a text of decimal digits stands for.
pub open spec fn number_of(digits: Seq<char>) -> int
    decreases digits.len(),
{
    if digits.len() == 0 {
        0
    } else {
        10 * number_of(digits.drop_last()) + (digits.last() as u32 - '0' as u32)
    }
}

/// A number is written in decimal digits, and without zeros in front.
pub proof fn law_a_number_is_written_in_digits(number: nat)
    ensures
        number_of(decimal(number)) == number,
        decimal(number).len() > 0,
        forall|i: int| 0 <= i < decimal(number).len() ==> '0' <= #[trigger] decimal(number)[i] <= '9',
        number > 0 ==> decimal(number)[0] != '0',
    decreases number,
{
    let text = decimal(number);
    if number < 10 {
        assert(text.drop_last() =~= Seq::empty());
        reveal_with_fuel(number_of, 2);
    } else {
        law_a_number_is_written_in_digits(number / 10);
        assert(text.drop_last() =~= decimal(number / 10));
        assert(text.last() == digit_char(number % 10));
        assert(text[0] == decimal(number / 10)[0]);
        assert forall|i: int| 0 <= i < text.len() implies '0' <= #[trigger] text[i] <= '9' by {
            if i < text.len() - 1 {
                assert(text[i] == decimal(number / 10)[i]);
            }
        }
    }
}

/// Whether a text is a bar and a size: digits, or digits with an `x` between them.
pub open spec fn is_size_behind(size: Seq<char>) -> bool {
    size.len() > 1 && size[0] == '|' && forall|i: int|
        1 <= i < size.len() ==> '0' <= #[trigger] size[i] <= '9' || size[i] == 'x'
}

/// Whether an alt text ends with no bar and size.
pub open spec fn is_unsized(alt: Seq<char>) -> bool {
    forall|i: int| 0 <= i < alt.len() ==> !is_size_behind(#[trigger] alt.skip(i))
}

proof fn lemma_without_size(alt: Seq<char>, size: Seq<char>)
    requires
        is_size_behind(size) || (size.len() == 0 && is_unsized(alt)),
    ensures
        without_size(alt + size) == alt,
{
    let all = alt + size;
    lemma_find_char_back(all, '|', all.len() as int);
    let found = find_char_back(all, '|', all.len() as int);
    if size.len() > 0 {
        let bar = alt.len() as int;
        assert(all[bar] == '|');
        assert(found is Some);
        if found->0 > bar {
            assert(all[found->0] == size[found->0 - bar]);
            assert(false);
        }
        assert(found == Some(bar));
        let behind = all.skip(bar + 1);
        assert forall|i: int| 0 <= i < behind.len() implies crate::text::ascii_digit(
            #[trigger] behind[i],
        ) || behind[i] == 'x' by {
            assert(behind[i] == size[i + 1]);
        }
        assert(all.take(bar) =~= alt);
    } else {
        assert(all =~= alt);
        if found is Some {
            let bar = found->0;
            let behind = all.skip(bar + 1);
            if is_size(behind) {
                let tail = alt.skip(bar);
                assert forall|i: int| 1 <= i < tail.len() implies '0' <= #[trigger] tail[i] <= '9'
                    || tail[i] == 'x' by {
                    assert(tail[i] == behind[i - 1]);
                }
                assert(is_size_behind(alt.skip(bar)));
            }
        }
    }
}

proof fn lemma_mark_is_at(s: Seq<char>, from: int, at: int)
    requires
        0 <= from <= at,
        at + 1 < s.len(),
        s[at] == '!' && s[at + 1] == '[',
        forall|i: int| from <= i < at ==> !(#[trigger] s[i] == '!' && s[i + 1] == '['),
    ensures
        find_pair(s, '!', '[', from) == Some(at),
    decreases at - from,
{
    if from < at {
        assert(!(s[from] == '!' && s[from + 1] == '['));
        lemma_mark_is_at(s, from + 1, at);
    }
}

/// Resizing the first image of a text puts a bar and the width behind its alt text, in place of the
/// size that stood there, and leaves everything else as it is.
pub proof fn law_resizing_writes_the_width(
    before: Seq<char>,
    alt: Seq<char>,
    size: Seq<char>,
    after: Seq<char>,
    width: nat,
)
    requires
        forall|i: int|
            0 <= i < before.len() - 1 ==> !(#[trigger] before[i] == '!' && before[i + 1] == '['),
        forall|i: int| 0 <= i < alt.len() ==> #[trigger] alt[i] != ']',
        is_size_behind(size) || (size.len() == 0 && is_unsized(alt)),
    ensures
        resized(before + seq!['!', '['] + alt + size + seq![']'] + after, width) == Some(
            before + seq!['!', '['] + alt + seq!['|'] + decimal(width) + seq![']'] + after,
        ),
{
    let s = before + seq!['!', '['] + alt + size + seq![']'] + after;
    let mark = before.len() as int;
    let start = mark + 2;
    let end = start + alt.len() + size.len();
    assert forall|i: int| 0 <= i < mark implies !(#[trigger] s[i] == '!' && s[i + 1] == '[') by {
        assert(s[i] == before[i]);
        if i < mark - 1 {
            assert(s[i + 1] == before[i + 1]);
        } else {
            assert(s[i + 1] == '!');
        }
    }
    lemma_mark_is_at(s, 0, mark);
    lemma_find_char(s, ']', start);
    assert forall|i: int| start <= i < end implies #[trigger] s[i] != ']' by {
        if i < start + alt.len() {
            assert(s[i] == alt[i - start]);
        } else {
            assert(s[i] == size[i - start - alt.len()]);
        }
    }
    assert(s[end] == ']');
    assert(alt_range(s) == Some((start, end)));
    assert(s.subrange(start, end) =~= alt + size);
    lemma_without_size(alt, size);
    reveal_strlit("|");
    assert("|"@ =~= seq!['|']);
    assert(s.take(start) + alt + "|"@ + decimal(width) + s.skip(end) =~= before + seq!['!', '[']
        + alt + seq!['|'] + decimal(width) + seq![']'] + after);
}

/// White space round an image is no part of what is resized, and an image that has the width is left
/// alone.
pub proof fn law_resizing_changes_or_does_nothing(
    left: Seq<char>,
    text: Seq<char>,
    right: Seq<char>,
    width: nat,
)
    requires
        is_blank_text(left),
        is_blank_text(right),
        is_tight(text),
    ensures
        resize_edit(left + text + right, width) == (match resized(text, width) {
            Some(new) => if new == text {
                None
            } else {
                Some(new)
            },
            None => None,
        }),
{
    law_trimming_takes_the_outer_blanks(left, text, right);
}

/// Data is not loaded. An address is taken as it is. Anything else is a path, with its
/// percent-encoding undone where that gives text.
pub proof fn law_a_destination_leads_somewhere(rest: Seq<char>)
    ensures
        place_of(seq!['d', 'a', 't', 'a', ':'] + rest) is None,
        ({
            let address = seq!['h', 't', 't', 'p', ':', '/', '/'] + rest;
            place_of(address) == Some(Place::Remote(address))
        }),
        ({
            let address = seq!['h', 't', 't', 'p', 's', ':', '/', '/'] + rest;
            place_of(address) == Some(Place::Remote(address))
        }),
{
    reveal_strlit("data:");
    reveal_strlit("http://");
    reveal_strlit("https://");
    let a = seq!['d', 'a', 't', 'a', ':'] + rest;
    assert(a.take(5) =~= "data:"@);
    let b = seq!['h', 't', 't', 'p', ':', '/', '/'] + rest;
    assert(b.take(7) =~= "http://"@);
    assert(b.take(5)[0] == 'h');
    assert("data:"@[0] == 'd');
    let c = seq!['h', 't', 't', 'p', 's', ':', '/', '/'] + rest;
    assert(c.take(8) =~= "https://"@);
    assert(c.take(5)[0] == 'h');
}

/// A destination that is no data and no address is a path.
pub proof fn law_anything_else_is_a_path(destination: Seq<char>)
    requires
        destination.len() == 0 || (destination[0] != 'd' && destination[0] != 'h'),
    ensures
        place_of(destination) == Some(
            Place::Local(
                if percent_decoded(destination) is Some {
                    percent_decoded(destination)->0
                } else {
                    destination
                },
            ),
        ),
{
    reveal_strlit("data:");
    reveal_strlit("http://");
    reveal_strlit("https://");
    if starts_with(destination, "data:"@) {
        assert(destination.take(5)[0] == 'd');
    }
    if starts_with(destination, "http://"@) {
        assert(destination.take(7)[0] == 'h');
    }
    if starts_with(destination, "https://"@) {
        assert(destination.take(8)[0] == 'h');
    }
}

} // verus!
