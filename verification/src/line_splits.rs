//! How the lines of a text change when some of them are replaced by others.

use crate::frontmatter_laws::{replaced, shifted};
use crate::text::{
    find_char, lemma_find_char, lemma_split_from, lines, piece, split, split_from,
};
use vstd::prelude::*;

verus! {

proof fn lemma_find_char_behind(x: Seq<char>, q: Seq<char>, c: char, i: int)
    requires
        0 <= i <= q.len(),
    ensures
        find_char(x + q, c, x.len() + i) == match find_char(q, c, i) {
            Some(at) => Some(x.len() + at),
            None => None,
        },
    decreases q.len() - i,
{
    if i < q.len() {
        assert((x + q)[x.len() + i] == q[i]);
        if q[i] != c {
            lemma_find_char_behind(x, q, c, i + 1);
        }
    }
}

/// Splitting a text from a place on, where another text stands in front of it.
proof fn lemma_split_behind(x: Seq<char>, q: Seq<char>, c: char, i: int)
    requires
        0 <= i <= q.len(),
    ensures
        split_from(x + q, c, x.len() + i) == shifted(split_from(q, c, i), x.len() as int),
    decreases q.len() - i,
{
    lemma_find_char(q, c, i);
    lemma_find_char_behind(x, q, c, i);
    match find_char(q, c, i) {
        Some(at) => {
            lemma_split_behind(x, q, c, at + 1);
            assert(split_from(x + q, c, x.len() + i) =~= shifted(
                split_from(q, c, i),
                x.len() as int,
            ));
        },
        None => {
            assert(split_from(x + q, c, x.len() + i) =~= shifted(
                split_from(q, c, i),
                x.len() as int,
            ));
        },
    }
}

proof fn lemma_find_char_in_front(p: Seq<char>, c: char, q: Seq<char>, from: int)
    requires
        0 <= from <= p.len(),
    ensures
        find_char(p + seq![c] + q, c, from) == match find_char(p, c, from) {
            Some(at) => Some(at),
            None => Some(p.len() as int),
        },
    decreases p.len() - from,
{
    let all = p + seq![c] + q;
    if from < p.len() {
        assert(all[from] == p[from]);
        if p[from] != c {
            lemma_find_char_in_front(p, c, q, from + 1);
        }
    } else {
        assert(all[from] == c);
    }
}

/// The pieces of two texts with a separator between them are those of the one and then those of the
/// other.
pub(crate) proof fn lemma_split_of_two(p: Seq<char>, c: char, q: Seq<char>, start: int)
    requires
        0 <= start <= p.len(),
    ensures
        split_from(p + seq![c] + q, c, start) == split_from(p, c, start) + shifted(
            split(q, c),
            p.len() + 1int,
        ),
    decreases p.len() - start,
{
    let all = p + seq![c] + q;
    lemma_find_char(p, c, start);
    lemma_find_char_in_front(p, c, q, start);
    let behind = shifted(split(q, c), p.len() + 1int);
    match find_char(p, c, start) {
        Some(at) => {
            lemma_split_of_two(p, c, q, at + 1);
            assert(split_from(all, c, start) =~= split_from(p, c, start) + behind);
        },
        None => {
            let front = p + seq![c];
            assert(front + q =~= all);
            lemma_split_behind(front, q, c, 0);
            assert(split_from(all, c, start) =~= split_from(p, c, start) + behind);
        },
    }
}

/// The pieces from the `k`th on are those of the text from there on, and a separator stands between
/// two pieces.
pub(crate) proof fn lemma_pieces_from(s: Seq<char>, c: char, start: int, k: int)
    requires
        0 <= start <= s.len(),
        0 <= k < split_from(s, c, start).len(),
    ensures
        ({
            let pieces = split_from(s, c, start);
            &&& pieces.skip(k) == split_from(s, c, pieces[k].0)
            &&& k > 0 ==> s[pieces[k].0 - 1] == c && pieces[k - 1].1 == pieces[k].0 - 1
        }),
    decreases k,
{
    let pieces = split_from(s, c, start);
    lemma_split_from(s, c, start);
    if k == 0 {
        assert(pieces.skip(0) =~= pieces);
    } else {
        lemma_find_char(s, c, start);
        let at = find_char(s, c, start)->0;
        let rest = split_from(s, c, at + 1);
        assert(pieces =~= seq![(start, at)] + rest);
        lemma_split_from(s, c, at + 1);
        lemma_pieces_from(s, c, at + 1, k - 1);
        assert(pieces[k] == rest[k - 1]);
        assert(pieces.skip(k) =~= rest.skip(k - 1));
        if k > 1 {
            assert(pieces[k - 1] == rest[k - 2]);
        }
    }
}

/// A text cut in two before its line `k`.
proof fn lemma_lines_cut(s: Seq<char>, k: int)
    requires
        0 < k < lines(s).len(),
    ensures
        ({
            let a = lines(s)[k].0;
            &&& 0 < a <= s.len()
            &&& s[a - 1] == '\n'
            &&& lines(s)[k - 1].1 == a - 1
            &&& lines(s.take(a - 1)) == lines(s).take(k)
            &&& shifted(lines(s.skip(a)), a) == lines(s).skip(k)
        }),
{
    let all = lines(s);
    lemma_split_from(s, '\n', 0);
    lemma_pieces_from(s, '\n', 0, k);
    let a = all[k].0;
    assert(all[k - 1].1 < all[k].0);
    assert(0 <= all[k - 1].0 <= all[k - 1].1);
    let p = s.take(a - 1);
    let q = s.skip(a);
    assert(p + seq!['\n'] + q =~= s);
    lemma_split_of_two(p, '\n', q, 0);
    assert(s.take(a) + q =~= s);
    lemma_split_behind(s.take(a), q, '\n', 0);
    let behind = shifted(lines(q), a);
    assert(all.skip(k) == behind);
    assert(all == lines(p) + behind);
    assert(lines(p).len() == k);
    assert(lines(p) =~= all.take(k));
}

/// The lines of a text whose lines from `first` up to and including `last` are replaced by those of
/// another text.
pub open spec fn spliced(
    rows: Seq<(int, int)>,
    first: int,
    last: int,
    inner: Seq<(int, int)>,
    by: int,
) -> Seq<(int, int)> {
    rows.take(first) + shifted(inner, rows[first].0) + shifted(rows.skip(last + 1), by)
}

proof fn lemma_span_of_lines(s: Seq<char>, first: int, last: int)
    requires
        0 <= first <= last < lines(s).len(),
    ensures
        0 <= lines(s)[first].0 <= lines(s)[last].1 <= s.len(),
{
    let all = lines(s);
    lemma_split_from(s, '\n', 0);
    assert(all[first].0 <= all[first].1);
    assert(all[last].0 <= all[last].1);
    if first < last {
        assert(all[first].1 < all[last].0);
    }
}

/// The lines of a text in front of what stands behind line `last` of another.
proof fn lemma_lines_below(s: Seq<char>, last: int, new: Seq<char>)
    requires
        0 <= last < lines(s).len(),
    ensures
        lines(new + s.skip(lines(s)[last].1)) == lines(new) + shifted(
            lines(s).skip(last + 1),
            new.len() - lines(s)[last].1,
        ),
{
    let all = lines(s);
    let b = all[last].1;
    let low = new + s.skip(b);
    let below = all.skip(last + 1);
    lemma_split_from(s, '\n', 0);
    if last + 1 < all.len() {
        lemma_lines_cut(s, last + 1);
        let q = s.skip(b + 1);
        assert(low =~= new + seq!['\n'] + q);
        lemma_split_of_two(new, '\n', q, 0);
        let behind = shifted(lines(q), new.len() + 1int);
        assert(below == shifted(lines(q), b + 1));
        assert(behind =~= shifted(below, new.len() - b));
    } else {
        assert(s.skip(b) =~= Seq::empty());
        assert(low =~= new);
        assert(below =~= Seq::empty());
        assert(lines(low) =~= lines(new) + shifted(below, new.len() - b));
    }
}

proof fn lemma_spliced(s: Seq<char>, first: int, last: int, new: Seq<char>)
    requires
        0 <= first <= last < lines(s).len(),
    ensures
        ({
            let a = lines(s)[first].0;
            let b = lines(s)[last].1;
            lines(replaced(s, a, b, new)) == spliced(
                lines(s),
                first,
                last,
                lines(new),
                new.len() - (b - a),
            )
        }),
{
    let all = lines(s);
    let a = all[first].0;
    let b = all[last].1;
    lemma_span_of_lines(s, first, last);
    let t = replaced(s, a, b, new);
    let by = new.len() - (b - a);
    let low = new + s.skip(b);
    lemma_lines_below(s, last, new);
    let below = all.skip(last + 1);
    let inner = shifted(lines(new), a);
    assert(shifted(lines(low), a) =~= inner + shifted(below, by));
    if first > 0 {
        lemma_lines_cut(s, first);
        let p = s.take(a - 1);
        assert(t =~= p + seq!['\n'] + low);
        lemma_split_of_two(p, '\n', low, 0);
        assert(lines(t) == all.take(first) + shifted(lines(low), a));
        assert(lines(t) =~= all.take(first) + inner + shifted(below, by));
    } else {
        lemma_split_from(s, '\n', 0);
        assert(a == 0);
        assert(t =~= low);
        assert(shifted(lines(low), 0) =~= lines(low));
        assert(lines(t) =~= all.take(first) + inner + shifted(below, by));
    }
}

/// Replacing whole lines of a text leaves the other lines as they are.
pub(crate) proof fn lemma_lines_of_spliced(s: Seq<char>, first: int, last: int, new: Seq<char>)
    requires
        0 <= first <= last < lines(s).len(),
    ensures
        ({
            let a = lines(s)[first].0;
            let b = lines(s)[last].1;
            let t = replaced(s, a, b, new);
            let inner = lines(new).len() as int;
            let rest = lines(s).len() - 1 - last;
            &&& 0 <= a <= b <= s.len()
            &&& inner > 0
            &&& lines(t).len() == first + inner + rest
            &&& lines(t) == spliced(lines(s), first, last, lines(new), new.len() - (b - a))
            &&& lines(t)[first].0 == a
            &&& lines(t)[first + inner - 1].1 == a + new.len()
            &&& forall|k: int|
                0 <= k < first ==> piece(t, #[trigger] lines(t)[k]) == piece(s, lines(s)[k])
            &&& forall|k: int|
                first <= k < first + inner ==> piece(t, #[trigger] lines(t)[k]) == piece(
                    new,
                    lines(new)[k - first],
                )
            &&& forall|k: int|
                first + inner <= k < lines(t).len() ==> piece(t, #[trigger] lines(t)[k]) == piece(
                    s,
                    lines(s)[k - inner - first + last + 1],
                )
        }),
{
    let all = lines(s);
    lemma_split_from(s, '\n', 0);
    lemma_split_from(new, '\n', 0);
    let a = all[first].0;
    let b = all[last].1;
    assert(all[first].0 <= all[first].1);
    assert(all[last].0 <= all[last].1);
    if first < last {
        assert(all[first].1 < all[last].0);
    }
    let t = replaced(s, a, b, new);
    let by = new.len() - (b - a);
    lemma_spliced(s, first, last, new);
    let found = lines(t);
    assert(found == spliced(all, first, last, lines(new), by));
    let inner = lines(new).len() as int;
    assert forall|k: int| 0 <= k < first implies piece(t, #[trigger] lines(t)[k]) == piece(
        s,
        all[k],
    ) by {
        assert(lines(t)[k] == all[k]);
        assert(0 <= all[k].0 <= all[k].1);
        assert(all[k].1 < all[first].0);
        assert(piece(t, lines(t)[k]) =~= piece(s, all[k]));
    }
    assert forall|k: int| first <= k < first + inner implies piece(t, #[trigger] lines(t)[k])
        == piece(new, lines(new)[k - first]) by {
        let range = lines(new)[k - first];
        assert(lines(t)[k] == (range.0 + a, range.1 + a));
        assert(0 <= range.0 <= range.1 <= new.len());
        assert(piece(t, lines(t)[k]) =~= piece(new, range));
    }
    assert forall|k: int| first + inner <= k < lines(t).len() implies piece(
        t,
        #[trigger] lines(t)[k],
    ) == piece(s, all[k - inner - first + last + 1]) by {
        let at = k - inner - first + last + 1;
        let range = all[at];
        assert(lines(t)[k] == (range.0 + by, range.1 + by));
        assert(range.0 <= range.1 <= s.len());
        assert(all[last].1 < range.0);
        assert(piece(t, lines(t)[k]) =~= piece(s, range));
    }
    assert(lines(t)[first] == (lines(new)[0].0 + a, lines(new)[0].1 + a));
    assert(lines(t)[first + inner - 1] == (
        lines(new)[inner - 1].0 + a,
        lines(new)[inner - 1].1 + a,
    ));
}

} // verus!
