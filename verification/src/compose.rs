//! Taking strings apart and putting them together.

use crate::text;
use crate::text::{chars_of, occurs_at};
use vstd::prelude::*;

verus! {

// ---------------------------------------------------------------------------
// Splitting and joining
// ---------------------------------------------------------------------------

/// The pieces of a text between the separators; one piece more than there are separators.
pub open spec fn pieces(s: Seq<char>, separator: char) -> Seq<Seq<char>>
    decreases s.len(),
{
    if s.len() == 0 {
        seq![Seq::<char>::empty()]
    } else {
        let front = pieces(s.drop_last(), separator);
        if s.last() == separator {
            front.push(Seq::<char>::empty())
        } else {
            front.drop_last().push(front.last().push(s.last()))
        }
    }
}

/// The pieces of a text between the separators.
pub fn split(text: &str, separator: char) -> (r: Vec<String>)
    ensures
        text::texts(r@) == pieces(text@, separator),
        r@.len() >= 1,
{
    let mut done: Vec<String> = Vec::new();
    let mut current = String::new();
    assert(text::texts(done@).push(current@) == pieces(text@.take(0), separator));
    for c in it: text.chars()
        invariant
            it.seq() == text@,
            text::texts(done@).push(current@) == pieces(text@.take(it.index() as int), separator),
    {
        let ghost before = text@.take(it.index() as int);
        let ghost after = text@.take(it.index() + 1);
        let ghost front = text::texts(done@);
        assert(after.drop_last() == before && after.last() == c);
        assert(front.push(current@).drop_last() == front);
        assert(front.push(current@).last() == current@);
        if c == separator {
            let ghost piece = current@;
            done.push(current);
            current = String::new();
            assert(text::texts(done@) == front.push(piece));
        } else {
            current.push(c);
        }
    }
    assert(text@.take(text@.len() as int) == text@);
    let ghost front = text::texts(done@);
    let ghost piece = current@;
    done.push(current);
    assert(text::texts(done@) == front.push(piece));
    done
}

/// The parts one behind the other, with the separator between them.
pub open spec fn joined(parts: Seq<Seq<char>>, separator: Seq<char>) -> Seq<char>
    decreases parts.len(),
{
    if parts.len() == 0 {
        Seq::empty()
    } else if parts.len() == 1 {
        parts[0]
    } else {
        joined(parts.drop_last(), separator) + separator + parts.last()
    }
}

/// The parts one behind the other, with the separator between them.
pub fn join(parts: &Vec<String>, separator: &str) -> (r: String)
    ensures
        r@ == joined(text::texts(parts@), separator@),
{
    let mut r = String::new();
    let mut i: usize = 0;
    assert(text::texts(parts@).take(0).len() == 0);
    while i < parts.len()
        invariant
            i <= parts@.len(),
            r@ == joined(text::texts(parts@).take(i as int), separator@),
        decreases parts@.len() - i,
    {
        assert(text::texts(parts@).take(i + 1).drop_last() == text::texts(parts@).take(i as int));
        if i > 0 {
            r.append(separator);
        }
        r.append(parts[i].as_str());
        i += 1;
    }
    assert(text::texts(parts@).take(i as int) == text::texts(parts@));
    r
}

// ---------------------------------------------------------------------------
// Replacing
// ---------------------------------------------------------------------------

/// The text with every occurrence of `from`, found from left to right, replaced by `to`.
pub open spec fn replaced(s: Seq<char>, from: Seq<char>, to: Seq<char>) -> Seq<char>
    decreases s.len(),
{
    if s.len() == 0 || from.len() == 0 {
        s
    } else if text::has_prefix(s, from) {
        to + replaced(s.skip(from.len() as int), from, to)
    } else {
        seq![s[0]] + replaced(s.skip(1), from, to)
    }
}

/// The text with every occurrence of `from`, found from left to right, replaced by `to`.
pub fn replace(text: &str, from: &str, to: &str) -> (r: String)
    requires
        from@.len() > 0,
    ensures
        r@ == replaced(text@, from@, to@),
{
    let s = chars_of(text);
    let p = chars_of(from);
    let mut r = String::new();
    let mut i: usize = 0;
    assert(s@.skip(0) == s@);
    while i < s.len()
        invariant
            i <= s@.len(),
            s@ == text@,
            p@ == from@,
            p@.len() > 0,
            r@ + replaced(s@.skip(i as int), p@, to@) == replaced(text@, p@, to@),
        decreases s@.len() - i,
    {
        let ghost rest = s@.skip(i as int);
        let ghost done = r@;
        if occurs_at(&s, &p, i) {
            proof {
                assert(rest.subrange(0, p@.len() as int) == s@.subrange(i as int, i + p@.len()));
                assert(rest.skip(p@.len() as int) == s@.skip(i + p@.len()));
                assert(done + (to@ + replaced(s@.skip(i + p@.len()), p@, to@)) == (done + to@)
                    + replaced(s@.skip(i + p@.len()), p@, to@));
            }
            r.append(to);
            i += p.len();
        } else {
            proof {
                if text::has_prefix(rest, p@) {
                    assert(rest.subrange(0, p@.len() as int) == s@.subrange(
                        i as int,
                        i + p@.len(),
                    ));
                }
                assert(rest.skip(1) == s@.skip(i + 1));
                assert(done + (seq![s@[i as int]] + replaced(s@.skip(i + 1), p@, to@))
                    == done.push(s@[i as int]) + replaced(s@.skip(i + 1), p@, to@));
            }
            r.push(s[i]);
            i += 1;
        }
    }
    assert(replaced(s@.skip(i as int), p@, to@) == Seq::<char>::empty());
    assert(r@ + Seq::<char>::empty() == r@);
    r
}

// ---------------------------------------------------------------------------
// Case
// ---------------------------------------------------------------------------

/// The text with its ASCII capital letters made small.
pub open spec fn lowered(s: Seq<char>) -> Seq<char> {
    Seq::new(s.len(), |i: int| text::ascii_lower(s[i]))
}

/// Whether two strings are equal when ASCII letters of either case count as the same.
pub fn same_ignoring_ascii_case(a: &str, b: &str) -> (r: bool)
    ensures
        r == (lowered(a@) == lowered(b@)),
{
    let x = chars_of(a);
    let y = chars_of(b);
    if x.len() != y.len() {
        assert(lowered(a@).len() != lowered(b@).len());
        return false;
    }
    let mut i: usize = 0;
    while i < x.len()
        invariant
            i <= x@.len(),
            x@ == a@,
            y@ == b@,
            x@.len() == y@.len(),
            forall|j: int| 0 <= j < i ==> text::ascii_lower(x@[j]) == text::ascii_lower(y@[j]),
        decreases x@.len() - i,
    {
        if text::to_ascii_lower(x[i]) != text::to_ascii_lower(y[i]) {
            assert(lowered(x@)[i as int] != lowered(y@)[i as int]);
            return false;
        }
        i += 1;
    }
    assert(lowered(x@) == lowered(y@));
    true
}

// ---------------------------------------------------------------------------
// Repetition and numbers
// ---------------------------------------------------------------------------

/// The character repeated `n` times.
pub open spec fn repeated(c: char, n: nat) -> Seq<char> {
    Seq::new(n, |i: int| c)
}

/// The character repeated `n` times.
pub fn repeat(c: char, n: usize) -> (r: String)
    ensures
        r@ == repeated(c, n as nat),
{
    let mut r = String::new();
    let mut i: usize = 0;
    while i < n
        invariant
            i <= n,
            r@ == repeated(c, i as nat),
        decreases n - i,
    {
        r.push(c);
        i += 1;
        assert(r@ == repeated(c, i as nat));
    }
    r
}

/// The text moved to the right end of a field of the given width.
pub open spec fn right_aligned(s: Seq<char>, width: nat) -> Seq<char> {
    if s.len() >= width {
        s
    } else {
        repeated(' ', (width - s.len()) as nat) + s
    }
}

/// The text moved to the right end of a field of the given width.
pub fn align_right(text: &str, width: usize) -> (r: String)
    ensures
        r@ == right_aligned(text@, width as nat),
{
    let n: usize = chars_of(text).len();
    if n >= width {
        text.to_owned()
    } else {
        let mut r = repeat(' ', width - n);
        r.append(text);
        r
    }
}

/// The decimal digits of a number, without leading zeros.
pub open spec fn decimal(n: nat) -> Seq<char>
    decreases n,
{
    let digit = ('0' as int + n % 10) as char;
    if n < 10 {
        seq![digit]
    } else {
        decimal(n / 10).push(digit)
    }
}

/// The decimal digits of an integer, behind a minus sign where it is negative.
pub open spec fn signed_decimal(n: int) -> Seq<char> {
    if n < 0 {
        seq!['-'] + decimal((-n) as nat)
    } else {
        decimal(n as nat)
    }
}

/// The decimal digits of a number, without leading zeros.
pub fn number(n: u128) -> (r: String)
    ensures
        r@ == decimal(n as nat),
    decreases n,
{
    let digit: char = (48 + (n % 10) as u8) as char;
    let mut r = if n < 10 {
        String::new()
    } else {
        number(n / 10)
    };
    let ghost front = r@;
    r.push(digit);
    assert(n < 10 ==> r@ == seq![digit]);
    r
}

/// The decimal digits of an integer, behind a minus sign where it is negative.
pub fn signed_number(n: i64) -> (r: String)
    ensures
        r@ == signed_decimal(n as int),
{
    if n < 0 {
        let magnitude: u64 = if n == i64::MIN {
            0x8000_0000_0000_0000
        } else {
            (-n) as u64
        };
        let digits = number(magnitude as u128);
        let mut r = String::new();
        r.push('-');
        r.append(digits.as_str());
        assert(r@ == seq!['-'] + digits@);
        r
    } else {
        number(n as u128)
    }
}

/// The lowest `width` hexadecimal digits of a number, the highest of them first.
pub open spec fn hexadecimal(n: nat, width: nat) -> Seq<char>
    decreases width,
{
    if width == 0 {
        Seq::empty()
    } else {
        hexadecimal(n / 16, (width - 1) as nat).push(text::hex_digit((n % 16) as int))
    }
}

/// The lowest `width` hexadecimal digits of a number, the highest of them first.
pub fn hex_number(n: u64, width: usize) -> (r: String)
    ensures
        r@ == hexadecimal(n as nat, width as nat),
    decreases width,
{
    if width == 0 {
        String::new()
    } else {
        let mut r = hex_number(n / 16, width - 1);
        r.push(text::to_hex_digit((n % 16) as u8));
        r
    }
}

/// A copy of a list of strings.
pub fn copy_texts(list: &Vec<String>) -> (r: Vec<String>)
    ensures
        text::texts(r@) == text::texts(list@),
{
    let mut r: Vec<String> = Vec::new();
    let mut i: usize = 0;
    while i < list.len()
        invariant
            i <= list@.len(),
            r@.len() == i,
            forall|j: int| 0 <= j < i ==> r@[j]@ == list@[j]@,
        decreases list@.len() - i,
    {
        r.push(list[i].clone());
        i += 1;
    }
    assert(text::texts(r@) == text::texts(list@));
    r
}

/// Whether a list of strings holds the given text.
pub fn holds_text(list: &Vec<String>, text: &str) -> (r: bool)
    ensures
        r == text::texts(list@).contains(text@),
{
    let mut i: usize = 0;
    while i < list.len()
        invariant
            i <= list@.len(),
            forall|j: int| 0 <= j < i ==> text::texts(list@)[j] != text@,
        decreases list@.len() - i,
    {
        if text::same(list[i].as_str(), text) {
            assert(text::texts(list@)[i as int] == text@);
            return true;
        }
        i += 1;
    }
    false
}

} // verus!
