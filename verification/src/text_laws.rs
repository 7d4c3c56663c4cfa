//! What is done to texts: trimmed, cut, joined, replaced, ordered and counted.

use crate::compose;
use crate::digits;
use crate::text;
use vstd::prelude::*;

verus! {

// ---------------------------------------------------------------------------
// White space
// ---------------------------------------------------------------------------

pub open spec fn is_blank(s: Seq<char>) -> bool {
    forall|i: int| 0 <= i < s.len() ==> text::whitespace(#[trigger] s[i])
}

/// A text is cut free from the white space before and behind it, and keeps what stands inside.
pub proof fn law_white_space_is_trimmed(before: Seq<char>, s: Seq<char>, after: Seq<char>)
    requires
        is_blank(before),
        is_blank(after),
        s.len() > 0 ==> !text::whitespace(s[0]) && !text::whitespace(s.last()),
    ensures
        text::trimmed(before + s + after) == s,
{
    let rest = s + after;
    assert(before + s + after =~= before + rest);
    lemma_trim_start(before, rest);
    if s.len() > 0 {
        assert(rest[0] == s[0]);
        lemma_trim_end(s, after);
    } else {
        assert(rest =~= after + Seq::<char>::empty());
        lemma_trim_start(after, Seq::empty());
        assert(s =~= Seq::empty());
    }
}

proof fn lemma_trim_start(before: Seq<char>, s: Seq<char>)
    requires
        is_blank(before),
    ensures
        text::trim_start(before + s) == text::trim_start(s),
    decreases before.len(),
{
    let all = before + s;
    if before.len() == 0 {
        assert(all =~= s);
    } else {
        assert(all[0] == before[0]);
        let rest = before.skip(1);
        assert forall|i: int| 0 <= i < rest.len() implies text::whitespace(#[trigger] rest[i]) by {
            assert(rest[i] == before[i + 1]);
        }
        lemma_trim_start(rest, s);
        assert(all.skip(1) =~= rest + s);
    }
}

proof fn lemma_trim_end(s: Seq<char>, after: Seq<char>)
    requires
        is_blank(after),
        s.len() > 0,
        !text::whitespace(s.last()),
    ensures
        text::trim_end(s + after) == s,
    decreases after.len(),
{
    let all = s + after;
    if after.len() == 0 {
        assert(all =~= s);
    } else {
        assert(all.last() == after.last());
        let rest = after.drop_last();
        assert forall|i: int| 0 <= i < rest.len() implies text::whitespace(#[trigger] rest[i]) by {
            assert(rest[i] == after[i]);
        }
        assert(text::whitespace(after[after.len() - 1]));
        lemma_trim_end(s, rest);
        assert(all.drop_last() =~= s + rest);
    }
}

/// Every text is what is left of it between white space.
pub proof fn law_trimmed_text_stands_inside(s: Seq<char>) -> (sides: (Seq<char>, Seq<char>))
    ensures
        is_blank(sides.0),
        is_blank(sides.1),
        s == sides.0 + text::trimmed(s) + sides.1,
        text::trimmed(s).len() > 0 ==> !text::whitespace(text::trimmed(s)[0]) && !text::whitespace(
            text::trimmed(s).last(),
        ),
{
    let a = lemma_start_left(s);
    let t = text::trim_start(s);
    let b = lemma_end_left(t);
    assert(s =~= a + text::trimmed(s) + b);
    if text::trimmed(s).len() > 0 {
        assert(t[0] == text::trimmed(s)[0]);
    }
    (a, b)
}

proof fn lemma_start_left(s: Seq<char>) -> (a: Seq<char>)
    ensures
        is_blank(a),
        s == a + text::trim_start(s),
        text::trim_start(s).len() > 0 ==> !text::whitespace(text::trim_start(s)[0]),
    decreases s.len(),
{
    if s.len() > 0 && text::whitespace(s[0]) {
        let a = lemma_start_left(s.skip(1));
        let r = seq![s[0]] + a;
        assert(text::trim_start(s) == text::trim_start(s.skip(1)));
        assert(s =~= seq![s[0]] + s.skip(1));
        assert(seq![s[0]] + (a + text::trim_start(s)) =~= r + text::trim_start(s));
        assert forall|i: int| 0 <= i < r.len() implies text::whitespace(#[trigger] r[i]) by {
            if i > 0 {
                assert(r[i] == a[i - 1]);
            }
        }
        r
    } else {
        assert(s =~= Seq::<char>::empty() + s);
        Seq::empty()
    }
}

proof fn lemma_end_left(s: Seq<char>) -> (b: Seq<char>)
    ensures
        is_blank(b),
        s == text::trim_end(s) + b,
        text::trim_end(s).len() > 0 ==> !text::whitespace(text::trim_end(s).last()),
    decreases s.len(),
{
    if s.len() > 0 && text::whitespace(s.last()) {
        let b = lemma_end_left(s.drop_last());
        let r = b.push(s.last());
        assert(text::trim_end(s) == text::trim_end(s.drop_last()));
        assert(s =~= s.drop_last().push(s.last()));
        assert((text::trim_end(s) + b).push(s.last()) =~= text::trim_end(s) + r);
        r
    } else {
        assert(s =~= s + Seq::<char>::empty());
        Seq::empty()
    }
}

// ---------------------------------------------------------------------------
// Pieces
// ---------------------------------------------------------------------------

/// A text without the separator is one piece; a separator ends a piece and begins the next one.
pub proof fn law_text_is_split(a: Seq<char>, separator: char, b: Seq<char>)
    requires
        !b.contains(separator),
    ensures
        compose::pieces(b, separator) == seq![b],
        compose::pieces(a.push(separator) + b, separator) == compose::pieces(a, separator).push(b),
    decreases b.len(),
{
    let s = a.push(separator) + b;
    if b.len() == 0 {
        assert(b =~= Seq::empty());
        assert(s =~= a.push(separator));
        assert(s.drop_last() =~= a);
    } else {
        let front = b.drop_last();
        assert(b[b.len() - 1] == b.last());
        if front.contains(separator) {
            let i = choose|i: int| 0 <= i < front.len() && front[i] == separator;
            assert(b[i] == separator);
        }
        assert(b.last() != separator);
        law_text_is_split(a, separator, front);
        assert(front.push(b.last()) =~= b);
        assert(seq![front].drop_last() =~= Seq::empty());
        assert(compose::pieces(b, separator) =~= seq![b]);
        assert(s.drop_last() =~= a.push(separator) + front);
        let before = compose::pieces(a, separator);
        assert(before.push(front).drop_last() =~= before);
        assert(compose::pieces(s, separator) =~= before.push(b));
    }
}

/// Joining puts the separator between the parts and nowhere else.
pub proof fn law_parts_are_joined(parts: Seq<Seq<char>>, separator: Seq<char>, last: Seq<char>)
    ensures
        compose::joined(Seq::empty(), separator).len() == 0,
        compose::joined(seq![last], separator) == last,
        parts.len() > 0 ==> compose::joined(parts.push(last), separator) == compose::joined(
            parts,
            separator,
        ) + separator + last,
{
    assert(parts.push(last).drop_last() =~= parts);
}

/// Joining the pieces of a text gives the text back.
pub proof fn law_pieces_give_the_text_back(s: Seq<char>, separator: char)
    ensures
        compose::pieces(s, separator).len() > 0,
        compose::joined(compose::pieces(s, separator), seq![separator]) == s,
    decreases s.len(),
{
    if s.len() > 0 {
        let c = s.last();
        let front = compose::pieces(s.drop_last(), separator);
        law_pieces_give_the_text_back(s.drop_last(), separator);
        let by = seq![separator];
        assert(s =~= s.drop_last().push(c));
        if c == separator {
            law_parts_are_joined(front, by, Seq::empty());
            assert(s.drop_last() + by + Seq::<char>::empty() =~= s);
        } else {
            let before = front.drop_last();
            let last = front.last();
            assert(before.push(last) =~= front);
            law_parts_are_joined(before, by, last);
            law_parts_are_joined(before, by, last.push(c));
            if before.len() == 0 {
                assert(front =~= seq![last]);
                assert(before.push(last.push(c)) =~= seq![last.push(c)]);
            } else {
                assert(compose::joined(before, by) + by + last.push(c) =~= (compose::joined(
                    before,
                    by,
                ) + by + last).push(c));
            }
        }
    }
}

/// A text is cut at the first place where the other one stands.
pub proof fn law_text_is_cut(s: Seq<char>, p: Seq<char>)
    ensures
        match text::cut(s, p) {
            Some((a, b)) => s == a + p + b && forall|j: int|
                0 <= j < a.len() ==> !text::stands_at(s, p, j),
            None => !text::has_text(s, p),
        },
{
    text::lemma_find(s, p, 0);
    match text::find(s, p, 0) {
        Some(i) => {
            assert(s =~= s.take(i) + s.subrange(i, i + p.len()) + s.skip(i + p.len()));
        },
        None => {},
    }
}

/// A beginning or an end that is there is taken away, and one that is not is missed.
pub proof fn law_ends_are_taken_away(p: Seq<char>, s: Seq<char>)
    ensures
        text::without_prefix(p + s, p) == Some(s),
        text::without_suffix(s + p, p) == Some(s),
        text::without_prefix(s, p) matches Some(t) ==> s == p + t,
        text::without_suffix(s, p) matches Some(t) ==> s == t + p,
        text::without_prefix(s, p) is None ==> forall|t: Seq<char>| s != #[trigger] (p + t),
        text::without_suffix(s, p) is None ==> forall|t: Seq<char>| s != #[trigger] (t + p),
{
    let a = p + s;
    assert(a.subrange(0, p.len() as int) =~= p);
    assert(a.skip(p.len() as int) =~= s);
    let b = s + p;
    assert(b.subrange(s.len() as int, b.len() as int) =~= p);
    assert(b.take(s.len() as int) =~= s);
    if let Some(t) = text::without_prefix(s, p) {
        assert(s =~= s.subrange(0, p.len() as int) + t);
    }
    if let Some(t) = text::without_suffix(s, p) {
        assert(s =~= t + s.subrange(s.len() - p.len(), s.len() as int));
    }
    if text::without_prefix(s, p) is None {
        assert forall|t: Seq<char>| s != #[trigger] (p + t) by {
            if s == p + t {
                assert(s.subrange(0, p.len() as int) =~= p);
            }
        }
    }
    if text::without_suffix(s, p) is None {
        assert forall|t: Seq<char>| s != #[trigger] (t + p) by {
            if s == t + p {
                assert(s.subrange(s.len() - p.len(), s.len() as int) =~= p);
            }
        }
    }
}

// ---------------------------------------------------------------------------
// Replacing
// ---------------------------------------------------------------------------

/// A text in which nothing is to be replaced stays as it is.
pub proof fn law_other_text_is_not_replaced(s: Seq<char>, from: Seq<char>, to: Seq<char>)
    requires
        !text::has_text(s, from),
    ensures
        compose::replaced(s, from, to) == s,
    decreases s.len(),
{
    if s.len() > 0 && from.len() > 0 {
        if text::has_prefix(s, from) {
            assert(text::stands_at(s, from, 0));
        }
        let rest = s.skip(1);
        if text::has_text(rest, from) {
            let i = choose|i: int| text::stands_at(rest, from, i);
            assert(s.subrange(i + 1, i + 1 + from.len()) =~= rest.subrange(i, i + from.len()));
            assert(text::stands_at(s, from, i + 1));
        }
        law_other_text_is_not_replaced(rest, from, to);
        assert(seq![s[0]] + rest =~= s);
    }
}

/// The first place where a text is to be replaced is replaced, and replacing goes on behind it.
pub proof fn law_text_is_replaced(a: Seq<char>, from: Seq<char>, to: Seq<char>, b: Seq<char>)
    requires
        from.len() > 0,
        forall|i: int| 0 <= i < a.len() ==> !text::stands_at(a + from + b, from, i),
    ensures
        compose::replaced(a + from + b, from, to) == a + to + compose::replaced(b, from, to),
    decreases a.len(),
{
    let s = a + from + b;
    if a.len() == 0 {
        assert(s =~= from + b);
        assert(s.subrange(0, from.len() as int) =~= from);
        assert(text::has_prefix(s, from));
        assert(s.skip(from.len() as int) =~= b);
        assert(a + to =~= to);
    } else {
        assert(!text::stands_at(s, from, 0));
        let c = a.skip(1);
        let rest = c + from + b;
        assert(s.skip(1) =~= rest);
        assert forall|i: int| 0 <= i < c.len() implies !text::stands_at(rest, from, i) by {
            if text::stands_at(rest, from, i) {
                assert(s.subrange(i + 1, i + 1 + from.len()) =~= rest.subrange(
                    i,
                    i + from.len(),
                ));
                assert(text::stands_at(s, from, i + 1));
            }
        }
        law_text_is_replaced(c, from, to, b);
        assert(s[0] == a[0]);
        assert(seq![a[0]] + (c + to + compose::replaced(b, from, to)) =~= a + to
            + compose::replaced(b, from, to));
    }
}

// ---------------------------------------------------------------------------
// Order and letters
// ---------------------------------------------------------------------------

/// A text comes before another one where it is the beginning of it, or where the first character
/// that differs is the smaller one.
pub proof fn law_order_is_that_of_the_first_difference(a: Seq<char>, x: Seq<char>, y: Seq<char>)
    ensures
        y.len() > 0 ==> text::precedes(a, a + y),
        !text::precedes(a + y, a),
        x.len() > 0 && y.len() > 0 && x[0] != y[0] ==> text::precedes(a + x, a + y) == (x[0]
            < y[0]),
    decreases a.len(),
{
    if a.len() == 0 {
        assert(a + x =~= x);
        assert(a + y =~= y);
        if y.len() == 0 {
            assert(a + y =~= a);
        }
    } else {
        law_order_is_that_of_the_first_difference(a.skip(1), x, y);
        assert((a + x).skip(1) =~= a.skip(1) + x);
        assert((a + y).skip(1) =~= a.skip(1) + y);
        assert((a + x)[0] == a[0]);
        assert((a + y)[0] == a[0]);
    }
}

/// Capital ASCII letters become small ones, and every other character stays, at its place.
pub proof fn law_letters_are_lowered(s: Seq<char>, i: int)
    requires
        0 <= i < s.len(),
    ensures
        compose::lowered(s).len() == s.len(),
        'A' <= s[i] <= 'Z' ==> compose::lowered(s)[i] as int - 'a' as int == s[i] as int
            - 'A' as int,
        !('A' <= s[i] <= 'Z') ==> compose::lowered(s)[i] == s[i],
{
}

/// A number is written with the digits that are read as it, without a nought before them.
pub proof fn law_numbers_are_written_in_digits(n: nat)
    ensures
        compose::decimal(n).len() > 0,
        digits::all_digits(compose::decimal(n)),
        digits::digits_value(compose::decimal(n)) == n,
        n > 0 ==> compose::decimal(n)[0] != '0',
        compose::signed_decimal(n as int) == compose::decimal(n),
        n > 0 ==> compose::signed_decimal(-(n as int)) == seq!['-'] + compose::decimal(n),
    decreases n,
{
    reveal_with_fuel(compose::decimal, 2);
    let d = ('0' as int + n % 10) as char;
    assert('0' <= d <= '9');
    let all = compose::decimal(n);
    if n >= 10 {
        law_numbers_are_written_in_digits(n / 10);
        let front = compose::decimal(n / 10);
        assert(all.drop_last() =~= front);
        assert forall|i: int| 0 <= i < all.len() implies text::ascii_digit(#[trigger] all[i]) by {
            if i < front.len() {
                assert(all[i] == front[i]);
            }
        }
        assert(all[0] == front[0]);
        assert(n == n / 10 * 10 + n % 10);
    } else {
        assert(all =~= seq![d]);
        assert(all.drop_last() =~= Seq::empty());
        reveal_with_fuel(digits::digits_value, 2);
    }
}

/// The value of digits is tenfold with one more digit, plus that digit.
pub proof fn law_digits_are_counted_in_tens(s: Seq<char>, d: char)
    requires
        '0' <= d <= '9',
    ensures
        digits::digits_value(Seq::empty()) == 0,
        digits::digits_value(s.push(d)) == digits::digits_value(s) * 10 + (d as int - 48),
{
    assert(s.push(d).drop_last() =~= s);
}

/// A text that is too short is moved to the right by spaces, and one that is not stays.
pub proof fn law_text_is_moved_to_the_right(s: Seq<char>, width: nat)
    ensures
        ({
            let r = compose::right_aligned(s, width);
            &&& s.len() >= width ==> r == s
            &&& s.len() < width ==> r.len() == width && r.skip(width - s.len()) == s && forall|i: int|
                0 <= i < width - s.len() ==> #[trigger] r[i] == ' '
        }),
{
    let r = compose::right_aligned(s, width);
    if s.len() < width {
        assert(r.skip(width - s.len()) =~= s);
    }
}

} // verus!
