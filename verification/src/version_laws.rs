//! A text names no more than one version.

use crate::numbers::{decimal, digit_char};
use crate::text::{ascii_digit, find_char, lemma_find_char, lemma_split_from, piece, split, split_from};
use crate::update::{
    are_identifiers, is_identifier, is_identifier_char, is_version, semver_of, tag_version,
    version_text, VersionParts, RELEASE_TAG_PREFIX,
};
use vstd::prelude::*;

verus! {

proof fn lemma_decimal_digits(number: nat)
    ensures
        decimal(number).len() > 0,
        number >= 10 ==> decimal(number).len() > 1,
        forall|i: int| 0 <= i < decimal(number).len() ==> ascii_digit(#[trigger] decimal(number)[i]),
    decreases number,
{
    if number >= 10 {
        lemma_decimal_digits(number / 10);
    }
}

/// Two numbers with the same digits are the same.
proof fn lemma_decimal_injective(a: nat, b: nat)
    requires
        decimal(a) == decimal(b),
    ensures
        a == b,
    decreases a,
{
    lemma_decimal_digits(a);
    lemma_decimal_digits(b);
    if a >= 10 {
        assert(b >= 10);
        assert(decimal(a).drop_last() =~= decimal(a / 10));
        assert(decimal(b).drop_last() =~= decimal(b / 10));
        lemma_decimal_injective(a / 10, b / 10);
        assert(decimal(a).last() == digit_char(a % 10));
        assert(decimal(b).last() == digit_char(b % 10));
    } else {
        assert(decimal(a)[0] == digit_char(a));
        assert(decimal(b)[0] == digit_char(b));
    }
}

/// Where a text goes on with a character that its start may not hold, both are given by the whole.
proof fn lemma_parts_of_whole(
    x: Seq<char>,
    x_rest: Seq<char>,
    y: Seq<char>,
    y_rest: Seq<char>,
    stops: spec_fn(char) -> bool,
)
    requires
        x + x_rest == y + y_rest,
        forall|i: int| 0 <= i < x.len() ==> !stops(#[trigger] x[i]),
        forall|i: int| 0 <= i < y.len() ==> !stops(#[trigger] y[i]),
        x_rest.len() > 0 ==> stops(x_rest[0]),
        y_rest.len() > 0 ==> stops(y_rest[0]),
    ensures
        x == y,
        x_rest == y_rest,
{
    let whole = x + x_rest;
    assert(whole.len() == y.len() + y_rest.len());
    if x.len() < y.len() {
        assert(whole[x.len() as int] == x_rest[0]);
        assert(whole[x.len() as int] == y[x.len() as int]);
    } else if y.len() < x.len() {
        assert(whole[y.len() as int] == x[y.len() as int]);
        assert(whole[y.len() as int] == y_rest[0]);
    }
    assert(x =~= whole.take(x.len() as int));
    assert(y =~= whole.take(x.len() as int));
    assert(x_rest =~= whole.skip(x.len() as int));
    assert(y_rest =~= whole.skip(x.len() as int));
}

/// What a version's text goes on with behind its numbers.
spec fn pre_text(version: VersionParts) -> Seq<char> {
    if version.pre.len() > 0 {
        "-"@ + version.pre
    } else {
        Seq::empty()
    }
}

/// What a version's text ends in.
spec fn build_text(version: VersionParts) -> Seq<char> {
    if version.build.len() > 0 {
        "+"@ + version.build
    } else {
        Seq::empty()
    }
}

/// No identifier holds a plus sign.
proof fn lemma_no_plus(text: Seq<char>)
    requires
        are_identifiers(text),
    ensures
        forall|i: int| 0 <= i < text.len() ==> #[trigger] text[i] != '+',
{
    assert forall|i: int| 0 <= i < text.len() implies #[trigger] text[i] != '+' by {
        if text[i] != '.' {
            let k = lemma_piece_with(text, 0, i);
            let (a, b) = split(text, '.')[k];
            lemma_split_from(text, '.', 0);
            assert(0 <= split(text, '.')[k].0 <= split(text, '.')[k].1 <= text.len());
            assert(is_identifier(piece(text, (a, b))));
            assert(piece(text, (a, b))[i - a] == text[i]);
            assert(is_identifier_char(piece(text, (a, b))[i - a]));
        }
    }
}

/// Every character but a separator stands in a piece.
proof fn lemma_piece_with(s: Seq<char>, start: int, i: int) -> (k: int)
    requires
        0 <= start <= i < s.len(),
        s[i] != '.',
    ensures
        0 <= k < split_from(s, '.', start).len(),
        split_from(s, '.', start)[k].0 <= i < split_from(
            s,
            '.',
            start,
        )[k].1,
    decreases s.len() - start,
{
    lemma_find_char(s, '.', start);
    match find_char(s, '.', start) {
        Some(at) => {
            if i < at {
                0
            } else {
                let rest = split_from(s, '.', at + 1);
                let k = lemma_piece_with(s, at + 1, i);
                assert(split_from(s, '.', start) =~= seq![(start, at)] + rest);
                assert(split_from(s, '.', start)[k + 1] == rest[k]);
                k + 1
            }
        },
        None => 0,
    }
}

/// A number that a text starts with, and what it goes on with, are given by the text.
proof fn lemma_number_of_whole(x: nat, x_rest: Seq<char>, y: nat, y_rest: Seq<char>)
    requires
        decimal(x) + x_rest == decimal(y) + y_rest,
        x_rest.len() > 0 ==> !ascii_digit(x_rest[0]),
        y_rest.len() > 0 ==> !ascii_digit(y_rest[0]),
    ensures
        x == y,
        x_rest == y_rest,
{
    lemma_decimal_digits(x);
    lemma_decimal_digits(y);
    lemma_parts_of_whole(decimal(x), x_rest, decimal(y), y_rest, |c: char| !ascii_digit(c));
    lemma_decimal_injective(x, y);
}

/// What a version's text goes on with behind its first number.
spec fn behind_major(version: VersionParts) -> Seq<char> {
    "."@ + (decimal(version.minor as nat) + behind_minor(version))
}

/// What a version's text goes on with behind its second number.
spec fn behind_minor(version: VersionParts) -> Seq<char> {
    "."@ + (decimal(version.patch as nat) + (pre_text(version) + build_text(version)))
}

proof fn lemma_text_in_parts(version: VersionParts)
    ensures
        version_text(version) == decimal(version.major as nat) + behind_major(version),
{
    assert(version_text(version) =~= decimal(version.major as nat) + behind_major(version));
}

/// The numbers of a version and what stands behind them are given by its text.
proof fn lemma_numbers_of_text(a: VersionParts, b: VersionParts)
    requires
        version_text(a) == version_text(b),
    ensures
        a.major == b.major && a.minor == b.minor && a.patch == b.patch,
        pre_text(a) + build_text(a) == pre_text(b) + build_text(b),
{
    reveal_strlit(".");
    reveal_strlit("-");
    reveal_strlit("+");
    lemma_text_in_parts(a);
    lemma_text_in_parts(b);
    assert(behind_major(a)[0] == '.' && behind_major(b)[0] == '.');
    lemma_number_of_whole(a.major as nat, behind_major(a), b.major as nat, behind_major(b));
    let rest_a = decimal(a.minor as nat) + behind_minor(a);
    let rest_b = decimal(b.minor as nat) + behind_minor(b);
    assert(rest_a =~= behind_major(a).skip(1));
    assert(rest_b =~= behind_major(b).skip(1));
    assert(behind_minor(a)[0] == '.' && behind_minor(b)[0] == '.');
    lemma_number_of_whole(a.minor as nat, behind_minor(a), b.minor as nat, behind_minor(b));
    let tail_a = pre_text(a) + build_text(a);
    let tail_b = pre_text(b) + build_text(b);
    assert(decimal(a.patch as nat) + tail_a =~= behind_minor(a).skip(1));
    assert(decimal(b.patch as nat) + tail_b =~= behind_minor(b).skip(1));
    assert(tail_a.len() > 0 ==> tail_a[0] == '-' || tail_a[0] == '+');
    assert(tail_b.len() > 0 ==> tail_b[0] == '-' || tail_b[0] == '+');
    lemma_number_of_whole(a.patch as nat, tail_a, b.patch as nat, tail_b);
}

/// Two versions with the same text are the same, and a version is what its text is read as.
pub proof fn law_a_text_names_one_version(a: VersionParts, b: VersionParts)
    requires
        is_version(a),
        is_version(b),
        version_text(a) == version_text(b),
    ensures
        a == b,
        semver_of(version_text(a)) == Some(a),
{
    lemma_same_text_same_version(a, b);
    let chosen = semver_of(version_text(a))->0;
    lemma_same_text_same_version(a, chosen);
}

/// Every version, with a pre-release and build metadata or without, is the one that its tag names.
pub proof fn law_a_tag_names_its_version(version: VersionParts)
    requires
        is_version(version),
    ensures
        tag_version(RELEASE_TAG_PREFIX@ + version_text(version)) == Some(version),
{
    let prefix = RELEASE_TAG_PREFIX@;
    let tag = prefix + version_text(version);
    assert(tag.take(prefix.len() as int) =~= prefix);
    assert(tag.skip(prefix.len() as int) =~= version_text(version));
    law_a_text_names_one_version(version, version);
}

proof fn lemma_same_text_same_version(a: VersionParts, b: VersionParts)
    requires
        is_version(a),
        is_version(b),
        version_text(a) == version_text(b),
    ensures
        a == b,
{
    reveal_strlit("-");
    reveal_strlit("+");
    lemma_numbers_of_text(a, b);
    if a.pre.len() > 0 {
        lemma_no_plus(a.pre);
    }
    if b.pre.len() > 0 {
        lemma_no_plus(b.pre);
    }
    lemma_parts_of_whole(
        pre_text(a),
        build_text(a),
        pre_text(b),
        build_text(b),
        |c: char| c == '+',
    );
    if a.pre.len() > 0 {
        assert(pre_text(a).skip(1) =~= a.pre);
    }
    if b.pre.len() > 0 {
        assert(pre_text(b).skip(1) =~= b.pre);
    }
    if a.build.len() > 0 {
        assert(build_text(a).skip(1) =~= a.build);
    }
    if b.build.len() > 0 {
        assert(build_text(b).skip(1) =~= b.build);
    }
    assert(a.pre =~= b.pre);
    assert(a.build =~= b.build);
    assert(a =~= b);
}

} // verus!
