//! What reading gives back of what was written.

use crate::compose;
use crate::notation;
use crate::table;
use crate::text;
use vstd::prelude::*;

verus! {

// ---------------------------------------------------------------------------
// Joined parts
// ---------------------------------------------------------------------------

/// The first parts, joined, are the beginning of all parts, joined.
pub proof fn lemma_joined_prefix(parts: Seq<Seq<char>>, separator: Seq<char>, k: int)
    requires
        0 <= k <= parts.len(),
    ensures
        ({
            let front = compose::joined(parts.take(k), separator);
            let all = compose::joined(parts, separator);
            front.len() <= all.len() && all.take(front.len() as int) == front
        }),
    decreases parts.len(),
{
    if k == parts.len() {
        assert(parts.take(k) =~= parts);
        let all = compose::joined(parts, separator);
        assert(all.take(all.len() as int) =~= all);
    } else {
        let shorter = parts.drop_last();
        assert(shorter.take(k) =~= parts.take(k));
        lemma_joined_prefix(shorter, separator, k);
        let front = compose::joined(parts.take(k), separator);
        let middle = compose::joined(shorter, separator);
        let all = compose::joined(parts, separator);
        if parts.len() == 1 {
            assert(front =~= Seq::empty());
        } else {
            assert(all =~= middle + (separator + parts.last()));
        }
        assert(all.take(front.len() as int) =~= front);
    }
}

/// The first `k + 1` parts, joined, are the first `k`, joined, a separator and the next part.
pub proof fn lemma_joined_step(parts: Seq<Seq<char>>, separator: Seq<char>, k: int)
    requires
        0 <= k < parts.len(),
    ensures
        compose::joined(parts.take(k + 1), separator) == (if k == 0 {
            parts[0]
        } else {
            compose::joined(parts.take(k), separator) + separator + parts[k]
        }),
{
    assert(parts.take(k + 1).drop_last() =~= parts.take(k));
}

// ---------------------------------------------------------------------------
// Characters that end a gap
// ---------------------------------------------------------------------------

/// A character that belongs to no gap and is no comma.
pub open spec fn solid(c: char) -> bool {
    !text::whitespace(c) && c != '/' && c != '#' && c != ','
}

pub proof fn lemma_solid(s: Seq<char>, i: int)
    requires
        0 <= i < s.len(),
        solid(s[i]),
    ensures
        notation::gap(s, i) == Ok::<int, notation::Fault>(i),
        notation::trivia(s, i) == Ok::<int, notation::Fault>(i),
{
}

pub proof fn lemma_space(s: Seq<char>, i: int)
    requires
        0 <= i,
        i + 1 < s.len(),
        s[i] == ' ',
        solid(s[i + 1]),
    ensures
        notation::gap(s, i) == Ok::<int, notation::Fault>(i + 1),
        notation::trivia(s, i) == Ok::<int, notation::Fault>(i + 1),
{
    lemma_solid(s, i + 1);
    assert(notation::gap(s, i) == notation::gap(s, i + 1));
}

proof fn lemma_two_spaces(s: Seq<char>, i: int)
    requires
        0 <= i,
        i + 2 < s.len(),
        s[i] == ' ',
        s[i + 1] == ' ',
        solid(s[i + 2]),
    ensures
        notation::trivia(s, i) == Ok::<int, notation::Fault>(i + 2),
{
    lemma_space(s, i + 1);
    assert(notation::gap(s, i) == notation::gap(s, i + 1));
}

pub proof fn lemma_comma_space(s: Seq<char>, i: int)
    requires
        0 <= i,
        i + 2 < s.len(),
        s[i] == ',',
        s[i + 1] == ' ',
        solid(s[i + 2]),
    ensures
        notation::trivia(s, i) == Ok::<int, notation::Fault>(i + 2),
{
    lemma_space(s, i + 1);
    assert(notation::gap(s, i) == Ok::<int, notation::Fault>(i));
    assert(notation::trivia(s, i) == notation::trivia(s, i + 1));
}

// ---------------------------------------------------------------------------
// Quoted texts
// ---------------------------------------------------------------------------

proof fn lemma_all_escaped_front(t: Seq<char>)
    requires
        t.len() > 0,
    ensures
        notation::all_escaped(t) == notation::escaped(t[0]) + notation::all_escaped(t.skip(1)),
    decreases t.len(),
{
    if t.len() == 1 {
        assert(t.drop_last() =~= Seq::empty());
        assert(t.skip(1) =~= Seq::empty());
        reveal_with_fuel(notation::all_escaped, 2);
        assert(notation::all_escaped(t) =~= notation::escaped(t[0]));
    } else {
        lemma_all_escaped_front(t.drop_last());
        assert(t.drop_last().skip(1) =~= t.skip(1).drop_last());
        assert(notation::all_escaped(t) =~= notation::escaped(t[0]) + (notation::all_escaped(
            t.skip(1).drop_last(),
        ) + notation::escaped(t.last())));
    }
}

proof fn lemma_hex_digit(n: int)
    requires
        0 <= n < 16,
    ensures
        text::hex_value(text::hex_digit(n)) == Some(n),
{
}

/// A control character is read back from the four digits of its code point.
proof fn lemma_read_unicode(s: Seq<char>, i: int, c: char)
    requires
        text::control(c),
        text::stands_at(s, compose::hexadecimal(c as u32 as nat, 4), i),
    ensures
        notation::unicode(s, i, 4, 0) == Ok::<(char, int), notation::Fault>((c, i + 4)),
        compose::hexadecimal(c as u32 as nat, 4).len() == 4,
{
    let n = c as u32 as nat;
    reveal_with_fuel(compose::hexadecimal, 5);
    reveal_with_fuel(notation::unicode, 5);
    let d = compose::hexadecimal(n, 4);
    assert(d.len() == 4);
    assert(n / 16 / 16 == 0 && n / 16 / 16 / 16 == 0);
    assert(d[0] == text::hex_digit(0));
    assert(d[1] == text::hex_digit(0));
    assert(d[2] == text::hex_digit((n / 16 % 16) as int));
    assert(d[3] == text::hex_digit((n % 16) as int));
    lemma_hex_digit(0);
    lemma_hex_digit((n / 16 % 16) as int);
    lemma_hex_digit((n % 16) as int);
    let there = s.subrange(i, i + 4);
    assert(there[0] == s[i] && there[1] == s[i + 1] && there[2] == s[i + 2] && there[3] == s[i
        + 3]);
    assert(notation::unicode(s, i + 4, 0, n as int) == Ok::<(char, int), notation::Fault>(
        (c, i + 4),
    ));
    assert((((0 * 16 + 0) * 16 + 0) * 16 + n / 16 % 16) * 16 + n % 16 == n);
}

/// A character is read back from the way it stands between quotes.
proof fn lemma_read_escaped(s: Seq<char>, at: int, c: char, before: Seq<char>)
    requires
        text::stands_at(s, notation::escaped(c), at),
    ensures
        notation::quoted(s, at, '"', before) == notation::quoted(
            s,
            at + notation::escaped(c).len(),
            '"',
            before.push(c),
        ),
{
    let e = notation::escaped(c);
    let there = s.subrange(at, at + e.len());
    assert(there[0] == s[at]);
    if e.len() > 1 {
        assert(there[1] == s[at + 1]);
    }
    if e[0] == '\\' {
        if c == '"' || c == '\\' || c == '\n' || c == '\r' || c == '\t' || c == '\u{0008}' || c
            == '\u{000C}' {
            assert(notation::escape(s, at + 1) == Ok::<(char, int), notation::Fault>((c, at + 2)));
        } else {
            let digits = compose::hexadecimal(c as u32 as nat, 4);
            assert(s.subrange(at + 2, at + 2 + digits.len()) =~= digits) by {
                assert forall|k: int| 0 <= k < digits.len() implies s[at + 2 + k] == digits[k] by {
                    assert(there[2 + k] == e[2 + k]);
                }
            }
            lemma_read_unicode(s, at + 2, c);
            assert(notation::escape(s, at + 1) == Ok::<(char, int), notation::Fault>((c, at + 6)));
        }
    }
}

/// A text is read back from its quotation.
proof fn lemma_read_quoted(s: Seq<char>, at: int, t: Seq<char>, before: Seq<char>)
    requires
        text::stands_at(s, notation::all_escaped(t).push('"'), at),
    ensures
        notation::quoted(s, at, '"', before) == Ok::<(Seq<char>, int), notation::Fault>(
            (before + t, at + notation::all_escaped(t).len() + 1),
        ),
    decreases t.len(),
{
    let all = notation::all_escaped(t).push('"');
    let there = s.subrange(at, at + all.len());
    if t.len() == 0 {
        assert(there[0] == s[at]);
        assert(before + t =~= before);
    } else {
        lemma_all_escaped_front(t);
        let e = notation::escaped(t[0]);
        let rest = notation::all_escaped(t.skip(1)).push('"');
        assert(all =~= e + rest);
        assert(s.subrange(at, at + e.len()) =~= e) by {
            assert forall|k: int| 0 <= k < e.len() implies s[at + k] == e[k] by {
                assert(there[k] == all[k]);
            }
        }
        assert(s.subrange(at + e.len(), at + e.len() + rest.len()) =~= rest) by {
            assert forall|k: int| 0 <= k < rest.len() implies s[at + e.len() + k] == rest[k] by {
                assert(there[e.len() + k] == all[e.len() + k]);
            }
        }
        lemma_read_escaped(s, at, t[0], before);
        lemma_read_quoted(s, at + e.len(), t.skip(1), before.push(t[0]));
        assert(before.push(t[0]) + t.skip(1) =~= before + t);
    }
}

proof fn lemma_read_quotation(s: Seq<char>, at: int, t: Seq<char>)
    requires
        text::stands_at(s, notation::quotation(t), at),
    ensures
        notation::quotation(t).len() > 1,
        s[at] == '"',
        notation::quoted(s, at + 1, '"', Seq::empty()) == Ok::<
            (Seq<char>, int),
            notation::Fault,
        >((t, at + notation::quotation(t).len())),
{
    let q = notation::quotation(t);
    let there = s.subrange(at, at + q.len());
    let rest = notation::all_escaped(t).push('"');
    assert(there[0] == s[at]);
    assert(s.subrange(at + 1, at + 1 + rest.len()) =~= rest) by {
        assert forall|k: int| 0 <= k < rest.len() implies s[at + 1 + k] == rest[k] by {
            assert(there[1 + k] == q[1 + k]);
        }
    }
    lemma_read_quoted(s, at + 1, t, Seq::empty());
    assert(Seq::<char>::empty() + t =~= t);
}

// ---------------------------------------------------------------------------
// Names
// ---------------------------------------------------------------------------

pub proof fn lemma_key_run(s: Seq<char>, at: int, end: int)
    requires
        0 <= at <= end < s.len(),
        forall|i: int| at <= i < end ==> !notation::ends_key(#[trigger] s[i]),
        notation::ends_key(s[end]),
    ensures
        notation::key_end(s, at) == end,
    decreases end - at,
{
    if at < end {
        lemma_key_run(s, at + 1, end);
    }
}

/// A name is read back from the way it is written before a colon.
proof fn lemma_read_key(s: Seq<char>, at: int, name: Seq<char>)
    requires
        text::stands_at(s, notation::written_key(name), at),
        notation::char_at(s, at + notation::written_key(name).len(), ':'),
    ensures
        notation::written_key(name).len() > 0,
        solid(s[at]),
        s[at] != '}',
        notation::key(s, at) == Ok::<(Seq<char>, int), notation::Fault>(
            (name, at + notation::written_key(name).len()),
        ),
{
    let w = notation::written_key(name);
    let end = at + w.len();
    if notation::is_plain_name(name) {
        let there = s.subrange(at, end);
        assert(there == name);
        assert forall|i: int| at <= i < end implies !notation::ends_key(#[trigger] s[i])
            && !notation::is_quote(s[i]) && solid(s[i]) by {
            assert(there[i - at] == name[i - at]);
            assert(notation::is_name_char(name[i - at]));
        }
        assert(at < end);
        lemma_key_run(s, at, end);
    } else {
        lemma_read_quotation(s, at, name);
    }
}

// ---------------------------------------------------------------------------
// Scalars
// ---------------------------------------------------------------------------

/// A character of a literal.
pub open spec fn literal_char(c: char) -> bool {
    text::ascii_alphanumeric(c) || c == '.' || c == '+' || c == '-'
}

pub open spec fn literal_chars(t: Seq<char>) -> bool {
    forall|i: int| 0 <= i < t.len() ==> literal_char(#[trigger] t[i])
}

proof fn lemma_digits(t: Seq<char>, i: int)
    requires
        0 <= i <= t.len(),
    ensures
        i <= notation::digits_end(t, i) <= t.len(),
        forall|k: int| i <= k < notation::digits_end(t, i) ==> text::ascii_digit(#[trigger] t[k]),
    decreases t.len() - i,
{
    if i < t.len() && text::ascii_digit(t[i]) {
        lemma_digits(t, i + 1);
    }
}

proof fn lemma_decimal_chars(t: Seq<char>)
    requires
        notation::is_decimal_number(t),
    ensures
        t.len() > 0,
        literal_chars(t),
{
    let whole = notation::digits_end(t, 0);
    lemma_digits(t, 0);
    let point = notation::char_at(t, whole, '.');
    if point {
        lemma_digits(t, whole + 1);
    }
    let end = if point {
        notation::digits_end(t, whole + 1)
    } else {
        whole
    };
    if end < t.len() {
        let exponent = notation::after_sign(t, end + 1);
        if exponent <= t.len() {
            lemma_digits(t, exponent);
        }
    }
    assert forall|k: int| 0 <= k < t.len() implies literal_char(#[trigger] t[k]) by {
        if k < whole {
            assert(text::ascii_digit(t[k]));
        } else if k == whole && point {
        } else if k < end {
            assert(text::ascii_digit(t[k]));
        }
    }
}

proof fn lemma_word_chars(t: Seq<char>, word: Seq<char>)
    requires
        compose::lowered(t) == word,
        forall|i: int| 0 <= i < word.len() ==> 'a' <= #[trigger] word[i] <= 'z',
    ensures
        literal_chars(t),
        t.len() == word.len(),
{
    assert forall|i: int| 0 <= i < t.len() implies literal_char(#[trigger] t[i]) by {
        assert(compose::lowered(t)[i] == text::ascii_lower(t[i]));
        assert('a' <= word[i] <= 'z');
    }
}

proof fn lemma_number_chars(t: Seq<char>)
    requires
        notation::is_number(t),
    ensures
        t.len() > 0,
        literal_chars(t),
        t.len() == 1 ==> text::ascii_digit(t[0]),
{
    let start = notation::after_sign(t, 0);
    let rest = t.skip(start);
    let word = compose::lowered(rest);
    reveal_strlit("inf");
    reveal_strlit("infinity");
    reveal_strlit("nan");
    if word == "inf"@ || word == "infinity"@ || word == "nan"@ {
        lemma_word_chars(rest, word);
    } else {
        lemma_decimal_chars(rest);
        if t.len() == 1 {
            lemma_digits(rest, 0);
            assert(rest[0] == t[0]);
        }
    }
    assert forall|i: int| 0 <= i < t.len() implies literal_char(#[trigger] t[i]) by {
        if i >= start {
            assert(rest[i - start] == t[i]);
        }
    }
}

proof fn lemma_marks(t: Seq<char>)
    requires
        literal_chars(notation::without_marks(t)),
    ensures
        literal_chars(t),
        notation::without_marks(t).len() <= t.len(),
        t.len() == notation::without_marks(t).len() ==> t == notation::without_marks(t),
    decreases t.len(),
{
    if t.len() > 0 && notation::is_type_mark(t.last()) {
        lemma_marks(t.drop_last());
        assert forall|i: int| 0 <= i < t.len() implies literal_char(#[trigger] t[i]) by {
            if i < t.len() - 1 {
                assert(t.drop_last()[i] == t[i]);
            }
        }
    }
}

proof fn lemma_literal_chars(t: Seq<char>)
    requires
        notation::is_literal(t),
    ensures
        t.len() > 0,
        literal_chars(t),
        notation::is_array_mark(t[0]) ==> t.len() > 1,
{
    if t == "true"@ || t == "false"@ {
        reveal_strlit("true");
        reveal_strlit("false");
    } else {
        let u = notation::without_marks(t);
        lemma_number_chars(u);
        lemma_marks(t);
    }
}

pub proof fn lemma_bare_run(s: Seq<char>, at: int, end: int)
    requires
        0 <= at <= end <= s.len(),
        forall|i: int| at <= i < end ==> !notation::ends_bare(#[trigger] s[i]),
        end == s.len() || notation::ends_bare(s[end]),
    ensures
        notation::bare_end(s, at) == end,
    decreases end - at,
{
    if at < end {
        lemma_bare_run(s, at + 1, end);
    }
}

/// The text ends at a position, or a character that ends an unquoted value stands there.
pub open spec fn value_ends(s: Seq<char>, i: int) -> bool {
    i == s.len() || (0 <= i < s.len() && notation::ends_bare(s[i]))
}

/// A value can start with this character, and it is not taken for the mark of a typed array.
pub open spec fn starts_value(s: Seq<char>, at: int) -> bool {
    &&& 0 <= at < s.len()
    &&& solid(s[at])
    &&& s[at] != ']'
    &&& s[at] != '}'
    &&& notation::list_start(s, at) == Ok::<int, notation::Fault>(at)
}

proof fn lemma_read_scalar(s: Seq<char>, at: int, t: Seq<char>)
    requires
        text::stands_at(s, notation::written_scalar(t), at),
        value_ends(s, at + notation::written_scalar(t).len()),
    ensures
        starts_value(s, at),
        notation::value(s, at) == Ok::<(notation::Node, int), notation::Fault>(
            (notation::Node::Scalar(t), at + notation::written_scalar(t).len()),
        ),
{
    let w = notation::written_scalar(t);
    let end = at + w.len();
    let there = s.subrange(at, end);
    if notation::is_literal(t) {
        lemma_literal_chars(t);
        assert(there == t);
        assert forall|i: int| at <= i < end implies !notation::ends_bare(#[trigger] s[i])
            && solid(s[i]) && literal_char(s[i]) by {
            assert(there[i - at] == t[i - at]);
        }
        lemma_bare_run(s, at, end);
        lemma_solid(s, at);
        if notation::is_array_mark(s[at]) {
            assert(there[0] == t[0]);
            assert(at + 1 < end);
            assert(solid(s[at + 1]));
            lemma_solid(s, at + 1);
            assert(literal_char(s[at + 1]));
        }
    } else {
        lemma_read_quotation(s, at, t);
        lemma_solid(s, at);
    }
}

// ---------------------------------------------------------------------------
// Values
// ---------------------------------------------------------------------------

pub proof fn lemma_same_start(s: Seq<char>, i: int, j: int)
    requires
        0 <= i <= j < s.len(),
        notation::trivia(s, i) == Ok::<int, notation::Fault>(j),
        solid(s[j]),
    ensures
        notation::value(s, i) == notation::value(s, j),
{
    lemma_solid(s, j);
}

/// A part of a text that stands somewhere stands there too.
pub proof fn lemma_stands_inside(s: Seq<char>, at: int, w: Seq<char>, from: int, part: Seq<char>)
    requires
        text::stands_at(s, w, at),
        0 <= from,
        from + part.len() <= w.len(),
        w.subrange(from, from + part.len()) == part,
    ensures
        text::stands_at(s, part, at + from),
{
    let there = s.subrange(at, at + w.len());
    assert(s.subrange(at + from, at + from + part.len()) =~= part) by {
        assert forall|k: int| 0 <= k < part.len() implies s[at + from + k] == part[k] by {
            assert(there[from + k] == w[from + k]);
            assert(w.subrange(from, from + part.len())[k] == w[from + k]);
        }
    }
}

pub proof fn lemma_well_formed_field(entries: Seq<(Seq<char>, notation::Node)>, k: int)
    requires
        notation::well_formed(notation::Node::Compound(entries)),
        0 <= k < entries.len(),
    ensures
        notation::well_formed(entries[k].1),
        table::ordered(entries),
{
    reveal_with_fuel(notation::well_formed, 2);
}

pub proof fn lemma_well_formed_item(values: Seq<notation::Node>, k: int)
    requires
        notation::well_formed(notation::Node::List(values)),
        0 <= k < values.len(),
    ensures
        notation::well_formed(values[k]),
{
    assert(notation::Node::List(values)->List_0[k] == values[k]);
}

/// Where the first `k` parts end, joined by a comma and a space.
spec fn part_end(parts: Seq<Seq<char>>, k: int) -> int {
    compose::joined(parts.take(k), ", "@).len() as int
}

/// Where the `k`th part begins.
spec fn part_start(parts: Seq<Seq<char>>, k: int) -> int {
    if k == 0 {
        0
    } else {
        part_end(parts, k) + 2
    }
}

/// Where the `k`th part stands, and what stands round it.
proof fn lemma_part_place(s: Seq<char>, base: int, parts: Seq<Seq<char>>, k: int)
    requires
        text::stands_at(s, compose::joined(parts, ", "@), base),
        0 <= k < parts.len(),
    ensures
        text::stands_at(s, parts[k], base + part_start(parts, k)),
        part_end(parts, k + 1) == part_start(parts, k) + parts[k].len(),
        k > 0 ==> notation::pair_at(s, base + part_end(parts, k), ',', ' '),
        k + 1 < parts.len() ==> notation::char_at(s, base + part_end(parts, k + 1), ','),
        k + 1 == parts.len() ==> part_end(parts, k + 1) == compose::joined(parts, ", "@).len(),
        k == 0 ==> part_end(parts, k) == 0,
{
    reveal_strlit(", ");
    let inner = compose::joined(parts, ", "@);
    let there = s.subrange(base, base + inner.len());
    let front = compose::joined(parts.take(k), ", "@);
    let next = compose::joined(parts.take(k + 1), ", "@);
    let from = part_start(parts, k);
    lemma_joined_prefix(parts, ", "@, k + 1);
    lemma_joined_step(parts, ", "@, k);
    if k == 0 {
        assert(front =~= Seq::empty());
    }
    let w = parts[k];
    assert(inner.subrange(from, from + w.len()) =~= w) by {
        assert forall|x: int| 0 <= x < w.len() implies inner[from + x] == w[x] by {
            assert(inner.take(next.len() as int)[from + x] == next[from + x]);
        }
    }
    lemma_stands_inside(s, base, inner, from, w);
    if k > 0 {
        assert(inner.take(next.len() as int)[from - 2] == next[from - 2]);
        assert(inner.take(next.len() as int)[from - 1] == next[from - 1]);
        assert(there[from - 2] == s[base + from - 2] && there[from - 1] == s[base + from - 1]);
    }
    if k + 1 < parts.len() {
        let after = compose::joined(parts.take(k + 2), ", "@);
        lemma_joined_prefix(parts, ", "@, k + 2);
        lemma_joined_step(parts, ", "@, k + 1);
        assert(inner.take(after.len() as int)[next.len() as int] == after[next.len() as int]);
        assert(there[next.len() as int] == s[base + next.len()]);
    } else {
        assert(parts.take(k + 1) =~= parts);
    }
}

/// Where the name, the colon and the value of a field stand.
proof fn lemma_field_place(s: Seq<char>, p: int, name: Seq<char>, value: Seq<char>)
    requires
        text::stands_at(s, notation::written_field(name, value), p),
    ensures
        text::stands_at(s, notation::written_key(name), p),
        notation::pair_at(s, p + notation::written_key(name).len(), ':', ' '),
        text::stands_at(s, value, p + notation::written_key(name).len() + 2),
        notation::written_field(name, value).len() == notation::written_key(name).len() + 2
            + value.len(),
{
    reveal_strlit(": ");
    let w = notation::written_field(name, value);
    let key = notation::written_key(name);
    let n = key.len() as int;
    let there = s.subrange(p, p + w.len());
    assert(w.subrange(0, n) =~= key);
    assert(w.subrange(n + 2, n + 2 + value.len()) =~= value);
    lemma_stands_inside(s, p, w, 0, key);
    lemma_stands_inside(s, p, w, n + 2, value);
    assert(there[n] == s[p + n] && there[n + 1] == s[p + n + 1]);
}

/// A value is read back from the way it is written.
pub proof fn lemma_read_value(s: Seq<char>, at: int, n: notation::Node)
    requires
        notation::well_formed(n),
        text::stands_at(s, notation::written(n), at),
        value_ends(s, at + notation::written(n).len()),
    ensures
        starts_value(s, at),
        notation::value(s, at) == Ok::<(notation::Node, int), notation::Fault>(
            (n, at + notation::written(n).len()),
        ),
    decreases n, 0int,
{
    let w = notation::written(n);
    let there = s.subrange(at, at + w.len());
    reveal_strlit("{ ");
    reveal_strlit(" }");
    reveal_strlit("[");
    reveal_strlit("]");
    match n {
        notation::Node::Scalar(t) => {
            lemma_read_scalar(s, at, t);
        },
        notation::Node::Compound(entries) => {
            let inner = compose::joined(notation::written_fields(entries), ", "@);
            assert(w.subrange(2, 2 + inner.len() as int) =~= inner);
            lemma_stands_inside(s, at, w, 2, inner);
            assert(there[0] == s[at] && there[1] == s[at + 1]);
            let close = at + 2 + inner.len();
            assert(there[2 + inner.len() as int] == s[close]);
            assert(there[3 + inner.len() as int] == s[close + 1]);
            lemma_solid(s, at);
            lemma_read_fields(s, at + 2, at + 1, entries, 0);
            assert(entries.take(0) =~= Seq::empty());
        },
        notation::Node::List(values) => {
            let inner = compose::joined(notation::written_items(values), ", "@);
            assert(w.subrange(1, 1 + inner.len() as int) =~= inner);
            lemma_stands_inside(s, at, w, 1, inner);
            assert(there[0] == s[at]);
            assert(there[1 + inner.len() as int] == s[at + 1 + inner.len()]);
            lemma_solid(s, at);
            assert(notation::written_items(values).take(0) =~= Seq::empty());
            lemma_read_items(s, at + 1, at + 1, values, 0);
            assert(values.take(0) =~= Seq::empty());
        },
    }
}

/// The fields from the `k`th on are read back behind the first `k`.
proof fn lemma_read_fields(
    s: Seq<char>,
    base: int,
    i: int,
    entries: Seq<(Seq<char>, notation::Node)>,
    k: int,
)
    requires
        0 <= k <= entries.len(),
        base >= 1,
        notation::well_formed(notation::Node::Compound(entries)),
        ({
            let parts = notation::written_fields(entries);
            let inner = compose::joined(parts, ", "@);
            &&& text::stands_at(s, inner, base)
            &&& notation::pair_at(s, base + inner.len(), ' ', '}')
            &&& i == (if k == 0 {
                base - 1
            } else {
                base + part_end(parts, k)
            })
            &&& k == 0 ==> s[base - 1] == ' '
        }),
    ensures
        notation::fields(s, i, entries.take(k)) == Ok::<(notation::Node, int), notation::Fault>(
            (
                notation::Node::Compound(entries),
                base + compose::joined(notation::written_fields(entries), ", "@).len() + 2,
            ),
        ),
    decreases entries, entries.len() - k,
{
    let parts = notation::written_fields(entries);
    let inner = compose::joined(parts, ", "@);
    if k == entries.len() {
        assert(parts.take(k) =~= parts);
        assert(entries.take(k) =~= entries);
        if k == 0 {
            lemma_two_spaces(s, i);
        } else {
            lemma_space(s, i);
        }
    } else {
        let name = entries[k].0;
        let node = entries[k].1;
        let wk = notation::written_key(name);
        let wv = notation::written(node);
        let p = base + part_start(parts, k);
        let end = base + part_end(parts, k + 1);
        assert(parts[k] == notation::written_field(name, wv));
        lemma_part_place(s, base, parts, k);
        lemma_field_place(s, p, name, wv);
        lemma_read_key(s, p, name);
        let m = p + wk.len();
        if k == 0 {
            lemma_space(s, i);
        } else {
            lemma_comma_space(s, i);
        }
        lemma_solid(s, m);
        lemma_well_formed_field(entries, k);
        lemma_read_value(s, m + 2, node);
        lemma_space(s, m + 1);
        lemma_same_start(s, m + 1, m + 2);
        table::lemma_upsert_last(entries, entries.take(k), k);
        assert(entries.take(k).push(entries[k]) =~= entries.take(k + 1));
        lemma_read_fields(s, base, end, entries, k + 1);
        assert(notation::fields(s, i, entries.take(k)) == notation::fields(
            s,
            end,
            table::upsert(entries.take(k), name, node),
        ));
    }
}

/// The items from the `k`th on are read back behind the first `k`.
proof fn lemma_read_items(s: Seq<char>, base: int, i: int, values: Seq<notation::Node>, k: int)
    requires
        0 <= k <= values.len(),
        base >= 1,
        notation::well_formed(notation::Node::List(values)),
        ({
            let parts = notation::written_items(values);
            let inner = compose::joined(parts, ", "@);
            &&& text::stands_at(s, inner, base)
            &&& notation::char_at(s, base + inner.len(), ']')
            &&& i == base + part_end(parts, k)
        }),
    ensures
        notation::items(s, i, values.take(k)) == Ok::<(notation::Node, int), notation::Fault>(
            (
                notation::Node::List(values),
                base + compose::joined(notation::written_items(values), ", "@).len() + 1,
            ),
        ),
        k == 0 ==> notation::list_start(s, i) == Ok::<int, notation::Fault>(i),
    decreases values, values.len() - k,
{
    let parts = notation::written_items(values);
    if k == values.len() {
        assert(parts.take(k) =~= parts);
        assert(values.take(k) =~= values);
        lemma_solid(s, i);
    } else {
        let node = values[k];
        let p = base + part_start(parts, k);
        let end = base + part_end(parts, k + 1);
        assert(parts[k] == notation::written(node));
        lemma_part_place(s, base, parts, k);
        lemma_well_formed_item(values, k);
        lemma_read_value(s, p, node);
        if k == 0 {
            lemma_solid(s, i);
        } else {
            lemma_comma_space(s, i);
        }
        assert(values.take(k).push(values[k]) =~= values.take(k + 1));
        lemma_read_items(s, base, end, values, k + 1);
    }
}

/// Reading gives back every value from the way it is written.
pub proof fn law_reading_gives_back_what_was_written(n: notation::Node)
    requires
        notation::well_formed(n),
    ensures
        notation::document(notation::written(n)) == Ok::<notation::Node, notation::Fault>(n),
{
    let w = notation::written(n);
    assert(w.subrange(0, w.len() as int) =~= w);
    lemma_read_value(w, 0, n);
}

proof fn lemma_value_well_formed(s: Seq<char>, i: int)
    ensures
        notation::value(s, i) matches Ok((n, _)) ==> notation::well_formed(n),
    decreases s.len() - i, 0int,
{
    if 0 <= i <= s.len() {
        notation::lemma_trivia(s, i);
        if let Ok(j) = notation::trivia(s, i) {
            if j < s.len() && s[j] == '{' {
                lemma_fields_well_formed(s, j + 1, Seq::empty());
            } else if j < s.len() && s[j] == '[' {
                notation::lemma_list_start(s, j + 1);
                if let Ok(k) = notation::list_start(s, j + 1) {
                    lemma_items_well_formed(s, k, Seq::empty());
                }
            }
        }
    }
}

proof fn lemma_fields_well_formed(
    s: Seq<char>,
    i: int,
    before: Seq<(Seq<char>, notation::Node)>,
)
    requires
        notation::well_formed(notation::Node::Compound(before)),
    ensures
        notation::fields(s, i, before) matches Ok((n, _)) ==> notation::well_formed(n),
    decreases s.len() - i, 1int,
{
    if 0 <= i <= s.len() {
        notation::lemma_trivia(s, i);
        if let Ok(j) = notation::trivia(s, i) {
            if !notation::char_at(s, j, '}') {
                notation::lemma_key(s, j);
                if let Ok((name, k)) = notation::key(s, j) {
                    notation::lemma_colon(s, k);
                    if let Ok(m) = notation::colon(s, k) {
                        notation::lemma_value(s, m);
                        lemma_value_well_formed(s, m);
                        if let Ok((node, next)) = notation::value(s, m) {
                            lemma_well_formed_upsert(before, name, node);
                            lemma_fields_well_formed(s, next, table::upsert(before, name, node));
                        }
                    }
                }
            }
        }
    }
}

proof fn lemma_items_well_formed(s: Seq<char>, i: int, before: Seq<notation::Node>)
    requires
        notation::well_formed(notation::Node::List(before)),
    ensures
        notation::items(s, i, before) matches Ok((n, _)) ==> notation::well_formed(n),
    decreases s.len() - i, 1int,
{
    if 0 <= i <= s.len() {
        notation::lemma_trivia(s, i);
        if let Ok(j) = notation::trivia(s, i) {
            if !notation::char_at(s, j, ']') {
                notation::lemma_value(s, j);
                lemma_value_well_formed(s, j);
                if let Ok((node, next)) = notation::value(s, j) {
                    let after = before.push(node);
                    assert forall|k: int| 0 <= k < after.len() implies notation::well_formed(
                        #[trigger] after[k],
                    ) by {
                        if k < before.len() {
                            lemma_well_formed_item(before, k);
                        }
                    }
                    lemma_items_well_formed(s, next, after);
                }
            }
        }
    }
}

/// Storing a well-formed value in a well-formed compound keeps it well-formed.
pub proof fn lemma_well_formed_upsert(
    entries: Seq<(Seq<char>, notation::Node)>,
    name: Seq<char>,
    node: notation::Node,
)
    requires
        notation::well_formed(notation::Node::Compound(entries)),
        notation::well_formed(node),
    ensures
        notation::well_formed(notation::Node::Compound(table::upsert(entries, name, node))),
{
    let after = table::upsert(entries, name, node);
    table::lemma_upsert(entries, name, node);
    let at = table::lemma_place_exists(entries, name);
    table::lemma_place_upsert(entries, name, node, at);
    assert forall|k: int| 0 <= k < after.len() implies notation::well_formed(
        #[trigger] after[k].1,
    ) by {
        if k < at {
            lemma_well_formed_field(entries, k);
            assert(after[k] == entries[k]);
        } else if k > at {
            let j = if at < entries.len() && entries[at].0 == name {
                k
            } else {
                k - 1
            };
            lemma_well_formed_field(entries, j);
            assert(after[k] == entries[j]);
        }
    }
}

/// What is read is well-formed, so writing it and reading it again gives it back.
pub proof fn law_what_was_read_is_read_again(s: Seq<char>)
    ensures
        notation::document(s) matches Ok(n) ==> notation::well_formed(n) && notation::document(
            notation::written(n),
        ) == Ok::<notation::Node, notation::Fault>(n),
{
    lemma_value_well_formed(s, 0);
    if let Ok(n) = notation::document(s) {
        law_reading_gives_back_what_was_written(n);
    }
}

} // verus!
