//! Whole numbers in texts.

use crate::compose;
use crate::layout_laws;
use crate::notation;
use crate::text;
use vstd::prelude::*;

verus! {

/// The number that digits stand for.
pub open spec fn digits_value(s: Seq<char>) -> nat
    decreases s.len(),
{
    if s.len() == 0 {
        0
    } else {
        digits_value(s.drop_last()) * 10 + (s.last() as u32 - '0' as u32) as nat
    }
}

/// The text without a plus sign before it.
pub open spec fn without_plus(s: Seq<char>) -> Seq<char> {
    if s.len() > 0 && s[0] == '+' {
        s.skip(1)
    } else {
        s
    }
}

/// All characters are digits, and there is one.
pub open spec fn all_digits(s: Seq<char>) -> bool {
    s.len() > 0 && forall|i: int| 0 <= i < s.len() ==> text::ascii_digit(#[trigger] s[i])
}

/// The number that a text stands for, if it is no larger than the largest one.
pub open spec fn number_in(s: Seq<char>, largest: nat) -> Option<nat> {
    let digits = without_plus(s);
    if all_digits(digits) && digits_value(digits) <= largest {
        Some(digits_value(digits))
    } else {
        None
    }
}

proof fn lemma_digits_grow(s: Seq<char>, n: int)
    requires
        0 <= n <= s.len(),
        forall|i: int| 0 <= i < s.len() ==> text::ascii_digit(#[trigger] s[i]),
    ensures
        digits_value(s.take(n)) <= digits_value(s),
    decreases s.len() - n,
{
    if n < s.len() {
        lemma_digits_grow(s, n + 1);
        let more = s.take(n + 1);
        assert(more.drop_last() =~= s.take(n));
        assert(digits_value(s.take(n)) * 10 >= digits_value(s.take(n)));
    } else {
        assert(s.take(n) =~= s);
    }
}

/// The number that a text stands for, if it is no larger than the largest one.
pub fn parse_number(value: &str, largest: u64) -> (r: Option<u64>)
    ensures
        match r {
            Some(n) => number_in(value@, largest as nat) == Some(n as nat),
            None => number_in(value@, largest as nat) is None,
        },
{
    let chars = text::chars_of(value);
    let start: usize = if chars.len() > 0 && chars[0] == '+' {
        1
    } else {
        0
    };
    let ghost digits = without_plus(value@);
    assert(digits =~= value@.skip(start as int));
    if chars.len() == start {
        return None;
    }
    let mut j: usize = start;
    while j < chars.len()
        invariant
            start <= j <= chars@.len(),
            chars@ == value@,
            digits == value@.skip(start as int),
            digits == without_plus(value@),
            forall|k: int| 0 <= k < j - start ==> text::ascii_digit(#[trigger] digits[k]),
        decreases chars@.len() - j,
    {
        assert(digits[j - start] == chars@[j as int]);
        if !text::is_ascii_digit(chars[j]) {
            return None;
        }
        j += 1;
    }
    let mut n: u64 = 0;
    let mut i: usize = start;
    assert(digits.take(0) =~= Seq::empty());
    while i < chars.len()
        invariant
            start <= i <= chars@.len(),
            chars@ == value@,
            digits == value@.skip(start as int),
            digits == without_plus(value@),
            all_digits(digits),
            n <= largest,
            n == digits_value(digits.take(i - start)),
        decreases chars@.len() - i,
    {
        let ghost more = digits.take(i + 1 - start);
        proof {
            assert(more.drop_last() =~= digits.take(i - start));
            assert(more.last() == digits[i - start]);
            assert(digits[i - start] == chars@[i as int]);
            assert(text::ascii_digit(digits[i - start]));
            lemma_digits_grow(digits, i + 1 - start);
        }
        let digit: u128 = (chars[i] as u32 - '0' as u32) as u128;
        let next: u128 = (n as u128) * 10 + digit;
        if next > largest as u128 {
            return None;
        }
        n = next as u64;
        i += 1;
    }
    assert(digits.take(i - start) =~= digits);
    Some(n)
}

/// The largest number up to which every whole number is exact in double precision.
pub const EXACT: u64 = 9_007_199_254_740_992;

/// The whole number that a text of digits stands for, with a sign before them or without, if it
/// is an exact one.
pub open spec fn whole_in(s: Seq<char>) -> Option<int> {
    if s.len() > 0 && s[0] == '-' {
        if all_digits(s.skip(1)) && digits_value(s.skip(1)) <= EXACT {
            Some(-(digits_value(s.skip(1)) as int))
        } else {
            None
        }
    } else {
        match number_in(s, EXACT as nat) {
            Some(n) => Some(n as int),
            None => None,
        }
    }
}

/// The whole number that a text of digits stands for, with a sign before them or without, if it
/// is an exact one.
pub fn parse_whole(value: &str) -> (r: Option<i64>)
    ensures
        match r {
            Some(n) => whole_in(value@) == Some(n as int) && -(EXACT as int) <= n <= EXACT,
            None => whole_in(value@) is None,
        },
{
    let chars = text::chars_of(value);
    if chars.len() > 0 && chars[0] == '-' {
        if chars.len() > 1 && chars[1] == '+' {
            assert(value@.skip(1)[0] == '+');
            return None;
        }
        let rest = text::part(&chars, 1, chars.len());
        assert(rest@ =~= value@.skip(1));
        assert(without_plus(rest@) == rest@);
        match parse_number(rest.as_str(), EXACT) {
            Some(n) => Some(-(n as i64)),
            None => None,
        }
    } else {
        match parse_number(value, EXACT) {
            Some(n) => Some(n as i64),
            None => None,
        }
    }
}

proof fn lemma_decimal_value(n: nat)
    ensures
        digits_value(compose::decimal(n)) == n,
    decreases n,
{
    let d = compose::decimal(n);
    if n >= 10 {
        lemma_decimal_value(n / 10);
        assert(d.drop_last() =~= compose::decimal(n / 10));
    } else {
        assert(d.drop_last() =~= Seq::empty());
        assert(digits_value(d.drop_last()) == 0);
    }
}

/// A number is what its digits stand for, whether the mark of a long one is behind them or not.
pub proof fn lemma_whole_decimal(n: nat)
    requires
        n <= EXACT,
    ensures
        whole_in(notation::without_marks(compose::decimal(n))) == Some(n as int),
        whole_in(notation::without_marks(compose::decimal(n) + "L"@)) == Some(n as int),
{
    let d = compose::decimal(n);
    reveal_strlit("L");
    layout_laws::lemma_decimal_chars(n);
    lemma_decimal_value(n);
    assert(text::ascii_digit(d[d.len() - 1]));
    assert(text::ascii_digit(d[0]));
    assert((d + "L"@).drop_last() =~= d);
    assert((d + "L"@).last() == 'L');
}

/// A number is what its digits stand for behind its sign.
pub proof fn lemma_whole_signed(n: int)
    requires
        -(EXACT as int) <= n <= EXACT,
    ensures
        whole_in(notation::without_marks(compose::signed_decimal(n))) == Some(n),
{
    if n < 0 {
        let d = compose::decimal((-n) as nat);
        let w = compose::signed_decimal(n);
        layout_laws::lemma_decimal_chars((-n) as nat);
        lemma_decimal_value((-n) as nat);
        assert(w.skip(1) =~= d);
        assert(text::ascii_digit(d[d.len() - 1]));
        assert(w.last() == d[d.len() - 1]);
    } else {
        lemma_whole_decimal(n as nat);
    }
}

} // verus!
