//! How values are written: which texts stand as they are, and which in quotes.

use crate::compose;
use crate::notation;
use crate::text;
use vstd::prelude::*;

verus! {

// ---------------------------------------------------------------------------
// Texts that stand as they are
// ---------------------------------------------------------------------------

pub open spec fn only_digits(s: Seq<char>) -> bool {
    forall|i: int| 0 <= i < s.len() ==> '0' <= #[trigger] s[i] <= '9'
}

pub open spec fn is_sign(s: Seq<char>) -> bool {
    s == Seq::<char>::empty() || s == seq!['+'] || s == seq!['-']
}

/// The parts of a decimal number: a sign, digits, a point with digits behind it, an exponent, and
/// type marks.
pub struct Parts {
    pub sign: Seq<char>,
    pub whole: Seq<char>,
    pub has_point: bool,
    pub fraction: Seq<char>,
    pub has_exponent: bool,
    pub exponent_mark: char,
    pub exponent_sign: Seq<char>,
    pub exponent: Seq<char>,
    pub marks: Seq<char>,
}

pub open spec fn are_parts(p: Parts) -> bool {
    &&& is_sign(p.sign)
    &&& only_digits(p.whole)
    &&& only_digits(p.fraction)
    &&& p.whole.len() + p.fraction.len() > 0
    &&& !p.has_point ==> p.fraction.len() == 0
    &&& p.has_exponent ==> {
        &&& p.exponent_mark == 'e' || p.exponent_mark == 'E'
        &&& is_sign(p.exponent_sign)
        &&& only_digits(p.exponent)
        &&& p.exponent.len() > 0
    }
    &&& forall|i: int| 0 <= i < p.marks.len() ==> "bBsSlLfFdD"@.contains(#[trigger] p.marks[i])
}

/// The digits, the point and the exponent, without the sign and the type marks.
pub open spec fn unsigned_text(p: Parts) -> Seq<char> {
    let point = if p.has_point {
        seq!['.'] + p.fraction
    } else {
        Seq::empty()
    };
    let exponent = if p.has_exponent {
        seq![p.exponent_mark] + p.exponent_sign + p.exponent
    } else {
        Seq::empty()
    };
    p.whole + point + exponent
}

pub open spec fn number_text(p: Parts) -> Seq<char> {
    p.sign + unsigned_text(p) + p.marks
}

proof fn lemma_digits_end(s: Seq<char>, i: int, end: int)
    requires
        0 <= i <= end <= s.len(),
        forall|k: int| i <= k < end ==> '0' <= #[trigger] s[k] <= '9',
        end == s.len() || !('0' <= s[end] <= '9'),
    ensures
        notation::digits_end(s, i) == end,
    decreases end - i,
{
    if i < end {
        lemma_digits_end(s, i + 1, end);
    }
}

proof fn lemma_digits_found(s: Seq<char>, i: int)
    requires
        0 <= i <= s.len(),
    ensures
        i <= notation::digits_end(s, i) <= s.len(),
        forall|k: int| i <= k < notation::digits_end(s, i) ==> '0' <= #[trigger] s[k] <= '9',
    decreases s.len() - i,
{
    if i < s.len() && text::ascii_digit(s[i]) {
        lemma_digits_found(s, i + 1);
    }
}

proof fn lemma_unsigned(p: Parts)
    requires
        are_parts(p),
    ensures
        notation::is_decimal_number(unsigned_text(p)),
        unsigned_text(p).len() > 0,
        unsigned_text(p)[0] != '+',
        unsigned_text(p)[0] != '-',
        ({
            let c = unsigned_text(p).last();
            '0' <= c <= '9' || c == '.'
        }),
{
    let s = unsigned_text(p);
    let w = p.whole.len() as int;
    let f = p.fraction.len() as int;
    assert forall|k: int| 0 <= k < w implies '0' <= #[trigger] s[k] <= '9' by {
        assert(s[k] == p.whole[k]);
    }
    if p.has_point {
        assert(s[w] == '.');
        lemma_digits_end(s, 0, w);
        assert forall|k: int| w + 1 <= k < w + 1 + f implies '0' <= #[trigger] s[k] <= '9' by {
            assert(s[k] == p.fraction[k - w - 1]);
        }
    }
    let end = if p.has_point {
        w + 1 + f
    } else {
        w
    };
    if p.has_exponent {
        assert(s[end] == p.exponent_mark);
        let e = end + 1 + p.exponent_sign.len();
        if p.exponent_sign.len() > 0 {
            assert(s[end + 1] == p.exponent_sign[0]);
        } else {
            assert(s[end + 1] == p.exponent[0]);
        }
        assert(notation::after_sign(s, end + 1) == e);
        assert(s.len() == e + p.exponent.len());
        assert forall|k: int| e <= k < s.len() implies '0' <= #[trigger] s[k] <= '9' by {
            assert(s[k] == p.exponent[k - e]);
        }
        lemma_digits_end(s, e, s.len() as int);
        assert(s.last() == s[s.len() - 1]);
    } else {
        assert(s.len() == end);
        if p.has_point && f == 0 {
            assert(s.last() == s[w]);
        } else {
            assert(s.last() == s[s.len() - 1]);
        }
    }
    if p.has_point {
        lemma_digits_end(s, w + 1, end);
    } else {
        lemma_digits_end(s, 0, w);
    }
    if w > 0 {
        assert(s[0] == p.whole[0]);
    } else {
        assert(s[0] == '.');
    }
}

proof fn lemma_marks_go(s: Seq<char>, marks: Seq<char>)
    requires
        s.len() > 0,
        '0' <= s.last() <= '9' || s.last() == '.',
        forall|i: int| 0 <= i < marks.len() ==> "bBsSlLfFdD"@.contains(#[trigger] marks[i]),
    ensures
        notation::without_marks(s + marks) == s,
    decreases marks.len(),
{
    reveal_strlit("bBsSlLfFdD");
    let all = s + marks;
    if marks.len() == 0 {
        assert(all =~= s);
    } else {
        let front = marks.drop_last();
        assert("bBsSlLfFdD"@.contains(marks[marks.len() - 1]));
        assert(all.last() == marks[marks.len() - 1]);
        assert(all.drop_last() =~= s + front);
        assert forall|i: int| 0 <= i < front.len() implies "bBsSlLfFdD"@.contains(
            #[trigger] front[i],
        ) by {
            assert(front[i] == marks[i]);
        }
        lemma_marks_go(s, front);
    }
}

/// Every decimal number, with or without sign, point, exponent and type marks, is written as its
/// own text.
pub proof fn law_numbers_stand_as_they_are(p: Parts)
    requires
        are_parts(p),
    ensures
        notation::written(notation::Node::Scalar(number_text(p))) == number_text(p),
{
    lemma_unsigned(p);
    let u = unsigned_text(p);
    let s = p.sign + u;
    assert(number_text(p) == s + p.marks);
    assert(s.last() == u.last());
    lemma_marks_go(s, p.marks);
    if p.sign.len() > 0 {
        assert(s[0] == p.sign[0]);
        assert(s.skip(1) =~= u);
    } else {
        assert(s =~= u);
        assert(s.skip(0) =~= u);
    }
    assert(notation::is_number(s));
}

/// Yes and no are written as their own texts.
pub proof fn law_truth_stands_as_it_is()
    ensures
        notation::written(notation::Node::Scalar("true"@)) == "true"@,
        notation::written(notation::Node::Scalar("false"@)) == "false"@,
{
}

/// The texts that are no decimal numbers but are read as numbers all the same: the words for what
/// is no number and for what is without end, in capitals or small letters.
pub open spec fn is_number_word(s: Seq<char>) -> bool {
    exists|sign: Seq<char>, word: Seq<char>, marks: Seq<char>|
        #![trigger sign + word + marks]
        is_sign(sign) && s == sign + word + marks && (compose::lowered(word) == "inf"@
            || compose::lowered(word) == "infinity"@ || compose::lowered(word) == "nan"@)
            && forall|i: int|
            0 <= i < marks.len() ==> "bBsSlLfFdD"@.contains(#[trigger] marks[i])
}

proof fn lemma_marks_found(s: Seq<char>) -> (marks: Seq<char>)
    ensures
        s == notation::without_marks(s) + marks,
        forall|i: int| 0 <= i < marks.len() ==> "bBsSlLfFdD"@.contains(#[trigger] marks[i]),
    decreases s.len(),
{
    reveal_strlit("bBsSlLfFdD");
    let letters = "bBsSlLfFdD"@;
    if s.len() > 0 && notation::is_type_mark(s.last()) {
        let c = s.last();
        assert(letters[0] == 'b' && letters[1] == 'B' && letters[2] == 's' && letters[3] == 'S'
            && letters[4] == 'l' && letters[5] == 'L' && letters[6] == 'f' && letters[7] == 'F'
            && letters[8] == 'd' && letters[9] == 'D');
        assert(letters.contains(c));
        let front = lemma_marks_found(s.drop_last());
        let marks = front.push(c);
        assert(notation::without_marks(s) == notation::without_marks(s.drop_last()));
        assert(s =~= s.drop_last().push(c));
        assert((notation::without_marks(s) + front).push(c) =~= notation::without_marks(s)
            + marks);
        assert forall|i: int| 0 <= i < marks.len() implies letters.contains(#[trigger] marks[i]) by {
            if i < front.len() {
                assert(marks[i] == front[i]);
            }
        }
        marks
    } else {
        assert(s =~= s + Seq::<char>::empty());
        Seq::empty()
    }
}

proof fn lemma_decimal_parts(s: Seq<char>) -> (p: Parts)
    requires
        notation::is_decimal_number(s),
    ensures
        are_parts(p),
        p.sign.len() == 0,
        p.marks.len() == 0,
        unsigned_text(p) == s,
{
    let w = notation::digits_end(s, 0);
    lemma_digits_found(s, 0);
    let point = notation::char_at(s, w, '.');
    if point {
        lemma_digits_found(s, w + 1);
    }
    let end = if point {
        notation::digits_end(s, w + 1)
    } else {
        w
    };
    let e = notation::after_sign(s, end + 1);
    let has_exponent = end < s.len();
    if has_exponent {
        lemma_digits_found(s, e);
    }
    let p = Parts {
        sign: Seq::empty(),
        whole: s.take(w),
        has_point: point,
        fraction: if point {
            s.subrange(w + 1, end)
        } else {
            Seq::empty()
        },
        has_exponent,
        exponent_mark: if has_exponent {
            s[end]
        } else {
            'e'
        },
        exponent_sign: if has_exponent {
            s.subrange(end + 1, e)
        } else {
            Seq::empty()
        },
        exponent: if has_exponent {
            s.skip(e)
        } else {
            Seq::empty()
        },
        marks: Seq::empty(),
    };
    if has_exponent {
        if e == end + 1 {
            assert(p.exponent_sign =~= Seq::empty());
        } else {
            assert(p.exponent_sign =~= seq![s[end + 1]]);
        }
    }
    assert(unsigned_text(p) =~= s);
    p
}

/// Only truth values, decimal numbers and the words for numbers are written as they are; every
/// other text stands in quotes.
pub proof fn law_other_texts_stand_in_quotes(s: Seq<char>)
    requires
        s != "true"@,
        s != "false"@,
        forall|p: Parts| #![trigger number_text(p)] are_parts(p) ==> s != number_text(p),
        !is_number_word(s),
    ensures
        ({
            let w = notation::written(notation::Node::Scalar(s));
            w.len() >= s.len() + 2 && w[0] == '"' && w.last() == '"'
        }),
{
    if notation::is_literal(s) {
        let t = notation::without_marks(s);
        let marks = lemma_marks_found(s);
        let k = notation::after_sign(t, 0);
        let rest = t.skip(k);
        let sign = t.take(k);
        if k == 0 {
            assert(sign =~= Seq::empty());
        } else {
            assert(sign =~= seq![t[0]]);
        }
        assert(s =~= sign + rest + marks);
        if notation::is_decimal_number(rest) {
            let q = lemma_decimal_parts(rest);
            let p = Parts { sign, marks, ..q };
            assert(unsigned_text(p) == unsigned_text(q));
            assert(number_text(p) == s);
            assert(false);
        } else {
            assert(is_number_word(s));
        }
    }
    lemma_escaped_len(s);
    let w = notation::written(notation::Node::Scalar(s));
    assert(w == notation::quotation(s));
    assert(w.last() == '"');
}

proof fn lemma_escaped_len(s: Seq<char>)
    ensures
        notation::all_escaped(s).len() >= s.len(),
    decreases s.len(),
{
    if s.len() > 0 {
        lemma_escaped_len(s.drop_last());
    }
}

/// A text without control characters, quotes and backslashes stands between the quotes as it is.
pub proof fn law_plain_text_is_only_quoted(s: Seq<char>)
    requires
        forall|i: int|
            0 <= i < s.len() ==> !text::control(#[trigger] s[i]) && s[i] != '"' && s[i] != '\\',
    ensures
        notation::quotation(s) == seq!['"'] + s + seq!['"'],
{
    lemma_plain_escaped(s);
}

proof fn lemma_plain_escaped(s: Seq<char>)
    requires
        forall|i: int|
            0 <= i < s.len() ==> !text::control(#[trigger] s[i]) && s[i] != '"' && s[i] != '\\',
    ensures
        notation::all_escaped(s) == s,
    decreases s.len(),
{
    if s.len() > 0 {
        let front = s.drop_last();
        assert forall|i: int| 0 <= i < front.len() implies !text::control(#[trigger] front[i])
            && front[i] != '"' && front[i] != '\\' by {
            assert(front[i] == s[i]);
        }
        lemma_plain_escaped(front);
        assert(!text::control(s[s.len() - 1]));
        assert(s =~= front + seq![s.last()]);
    }
}

// ---------------------------------------------------------------------------
// Names, lists and compounds
// ---------------------------------------------------------------------------

/// A name of letters, digits and `_ - . +` stands as it is, and any other one in quotes.
pub proof fn law_names_stand_as_they_are(s: Seq<char>)
    ensures
        s.len() > 0 && (forall|i: int|
            0 <= i < s.len() ==> text::ascii_alphanumeric(#[trigger] s[i]) || "_-.+"@.contains(
                s[i],
            )) <==> notation::written_key(s) == s,
        notation::written_key(s) != s ==> notation::written_key(s).len() >= 2
            && notation::written_key(s)[0] == '"' && notation::written_key(s).last() == '"',
{
    reveal_strlit("_-.+");
    let marks = "_-.+"@;
    assert(marks[0] == '_' && marks[1] == '-' && marks[2] == '.' && marks[3] == '+');
    lemma_escaped_len(s);
    if notation::is_plain_name(s) {
        assert forall|i: int| 0 <= i < s.len() implies text::ascii_alphanumeric(#[trigger] s[i])
            || marks.contains(s[i]) by {
            assert(notation::is_name_char(s[i]));
        }
    } else {
        assert(notation::quotation(s).len() >= s.len() + 2);
        if s.len() > 0 && (forall|i: int|
            0 <= i < s.len() ==> text::ascii_alphanumeric(#[trigger] s[i]) || marks.contains(
                s[i],
            )) {
            assert forall|i: int| 0 <= i < s.len() implies notation::is_name_char(
                #[trigger] s[i],
            ) by {
                assert(text::ascii_alphanumeric(s[i]) || marks.contains(s[i]));
            }
        }
    }
}

/// The values of a list are written in their order, with a comma and a space between them.
pub proof fn law_lists_are_written_in_order(values: Seq<notation::Node>, last: notation::Node)
    ensures
        notation::written(notation::Node::List(Seq::empty())) == "[]"@,
        notation::written(notation::Node::List(seq![last])) == "["@ + notation::written(last)
            + "]"@,
        values.len() > 0 ==> notation::written(notation::Node::List(values.push(last)))
            == notation::written(notation::Node::List(values)).drop_last() + ", "@
            + notation::written(last) + "]"@,
{
    reveal_strlit("[]");
    reveal_strlit("[");
    reveal_strlit("]");
    reveal_strlit(", ");
    let none = Seq::<notation::Node>::empty();
    assert(notation::written_items(none) =~= Seq::empty());
    assert(notation::written(notation::Node::List(none)) =~= "[]"@);
    lemma_items(seq![last]);
    assert(notation::written_items(seq![last]) =~= seq![notation::written(last)]);
    if values.len() > 0 {
        let all = values.push(last);
        lemma_items(values);
        lemma_items(all);
        let parts = notation::written_items(all);
        assert(parts.drop_last() =~= notation::written_items(values));
        assert(parts.last() == notation::written(last));
        assert(notation::written(notation::Node::List(all)) =~= notation::written(
            notation::Node::List(values),
        ).drop_last() + ", "@ + notation::written(last) + "]"@);
    }
}

proof fn lemma_items(values: Seq<notation::Node>)
    ensures
        notation::written_items(values).len() == values.len(),
        forall|i: int|
            0 <= i < values.len() ==> #[trigger] notation::written_items(values)[i]
                == notation::written(values[i]),
{
}

proof fn lemma_fields(entries: Seq<(Seq<char>, notation::Node)>)
    ensures
        notation::written_fields(entries).len() == entries.len(),
        forall|i: int|
            0 <= i < entries.len() ==> #[trigger] notation::written_fields(entries)[i]
                == notation::written_key(entries[i].0) + ": "@ + notation::written(entries[i].1),
{
}

/// The fields of a compound are written in their order, each with its name, a colon, a space and
/// its value, and with a comma and a space between them.
pub proof fn law_compounds_are_written_in_order(
    entries: Seq<(Seq<char>, notation::Node)>,
    name: Seq<char>,
    value: notation::Node,
)
    ensures
        notation::written(notation::Node::Compound(Seq::empty())) == "{  }"@,
        notation::written(notation::Node::Compound(seq![(name, value)])) == "{ "@
            + notation::written_key(name) + ": "@ + notation::written(value) + " }"@,
        entries.len() > 0 ==> notation::written(
            notation::Node::Compound(entries.push((name, value))),
        ) == notation::written(notation::Node::Compound(entries)).drop_last().drop_last() + ", "@
            + notation::written_key(name) + ": "@ + notation::written(value) + " }"@,
{
    reveal_strlit("{  }");
    reveal_strlit("{ ");
    reveal_strlit(" }");
    reveal_strlit(", ");
    let none = Seq::<(Seq<char>, notation::Node)>::empty();
    assert(notation::written_fields(none) =~= Seq::empty());
    assert(notation::written(notation::Node::Compound(none)) =~= "{  }"@);
    let field = notation::written_key(name) + ": "@ + notation::written(value);
    let one = seq![(name, value)];
    lemma_fields(one);
    assert(notation::written_fields(one) =~= seq![field]);
    assert(notation::written(notation::Node::Compound(one)) =~= "{ "@ + notation::written_key(name)
        + ": "@ + notation::written(value) + " }"@);
    if entries.len() > 0 {
        let all = entries.push((name, value));
        lemma_fields(entries);
        lemma_fields(all);
        let parts = notation::written_fields(all);
        assert(parts.drop_last() =~= notation::written_fields(entries)) by {
            assert forall|i: int| 0 <= i < entries.len() implies parts[i]
                == notation::written_fields(entries)[i] by {
                assert(all[i] == entries[i]);
            }
        }
        assert(parts.last() == field);
        assert(notation::written(notation::Node::Compound(all)) =~= notation::written(
            notation::Node::Compound(entries),
        ).drop_last().drop_last() + ", "@ + notation::written_key(name) + ": "@
            + notation::written(value) + " }"@);
    }
}

// ---------------------------------------------------------------------------
// One line
// ---------------------------------------------------------------------------

pub open spec fn has_no_control(s: Seq<char>) -> bool {
    forall|i: int| 0 <= i < s.len() ==> !text::control(#[trigger] s[i])
}

proof fn lemma_no_control_in_both(a: Seq<char>, b: Seq<char>)
    requires
        has_no_control(a),
        has_no_control(b),
    ensures
        has_no_control(a + b),
{
    let all = a + b;
    assert forall|i: int| 0 <= i < all.len() implies !text::control(#[trigger] all[i]) by {
        if i < a.len() {
            assert(all[i] == a[i]);
        } else {
            assert(all[i] == b[i - a.len()]);
        }
    }
}

proof fn lemma_hexadecimal_visible(n: nat, width: nat)
    ensures
        has_no_control(compose::hexadecimal(n, width)),
    decreases width,
{
    if width > 0 {
        lemma_hexadecimal_visible(n / 16, (width - 1) as nat);
        let d = (n % 16) as int;
        assert(0 <= d < 16);
        let c = text::hex_digit(d);
        assert(!text::control(c)) by {
            if d < 10 {
                assert(c as int == 48 + d);
            } else {
                assert(c as int == 65 + d - 10);
            }
        }
    }
}

proof fn lemma_escaped_visible(s: Seq<char>)
    ensures
        has_no_control(notation::all_escaped(s)),
    decreases s.len(),
{
    if s.len() > 0 {
        lemma_escaped_visible(s.drop_last());
        let c = s.last();
        lemma_hexadecimal_visible(c as u32 as nat, 4);
        lemma_no_control_in_both(seq!['\\', 'u'], compose::hexadecimal(c as u32 as nat, 4));
        lemma_no_control_in_both(notation::all_escaped(s.drop_last()), notation::escaped(c));
    }
}

proof fn lemma_quotation_visible(s: Seq<char>)
    ensures
        has_no_control(notation::quotation(s)),
{
    lemma_escaped_visible(s);
    lemma_no_control_in_both(seq!['"'], notation::all_escaped(s));
    lemma_no_control_in_both(seq!['"'] + notation::all_escaped(s), seq!['"']);
}

proof fn lemma_joined_visible(parts: Seq<Seq<char>>, separator: Seq<char>)
    requires
        has_no_control(separator),
        forall|i: int| 0 <= i < parts.len() ==> has_no_control(#[trigger] parts[i]),
    ensures
        has_no_control(compose::joined(parts, separator)),
    decreases parts.len(),
{
    if parts.len() == 1 {
        assert(has_no_control(parts[0]));
    } else if parts.len() > 1 {
        let front = parts.drop_last();
        assert forall|i: int| 0 <= i < front.len() implies has_no_control(#[trigger] front[i]) by {
            assert(front[i] == parts[i]);
        }
        lemma_joined_visible(front, separator);
        assert(has_no_control(parts[parts.len() - 1]));
        lemma_no_control_in_both(compose::joined(front, separator), separator);
        lemma_no_control_in_both(
            compose::joined(front, separator) + separator,
            parts.last(),
        );
    }
}

proof fn lemma_scalar_visible(s: Seq<char>)
    ensures
        has_no_control(notation::written_scalar(s)),
{
    lemma_quotation_visible(s);
    if notation::is_literal(s) {
        reveal_strlit("true");
        reveal_strlit("false");
        if s != "true"@ && s != "false"@ {
            lemma_number_visible(s);
        }
    }
}

proof fn lemma_number_visible(s: Seq<char>)
    requires
        notation::is_number(notation::without_marks(s)),
    ensures
        has_no_control(s),
{
    reveal_strlit("bBsSlLfFdD");
    let t = notation::without_marks(s);
    let marks = lemma_marks_found(s);
    assert forall|i: int| 0 <= i < marks.len() implies !text::control(#[trigger] marks[i]) by {
        assert("bBsSlLfFdD"@.contains(marks[i]));
    }
    let k = notation::after_sign(t, 0);
    let rest = t.skip(k);
    let word = compose::lowered(rest);
    if notation::is_decimal_number(rest) {
        let p = lemma_decimal_parts(rest);
        assert(has_no_control(p.whole));
        assert(has_no_control(p.fraction));
        lemma_no_control_in_both(seq!['.'], p.fraction);
        if p.has_exponent {
            assert(has_no_control(p.exponent));
            assert(has_no_control(p.exponent_sign));
            lemma_no_control_in_both(seq![p.exponent_mark], p.exponent_sign);
            lemma_no_control_in_both(seq![p.exponent_mark] + p.exponent_sign, p.exponent);
        }
        let point = if p.has_point {
            seq!['.'] + p.fraction
        } else {
            Seq::empty()
        };
        let exponent = if p.has_exponent {
            seq![p.exponent_mark] + p.exponent_sign + p.exponent
        } else {
            Seq::empty()
        };
        lemma_no_control_in_both(p.whole, point);
        lemma_no_control_in_both(p.whole + point, exponent);
    } else {
        reveal_strlit("inf");
        reveal_strlit("infinity");
        reveal_strlit("nan");
        assert("inf"@.len() == 3);
        assert("infinity"@.len() == 8);
        assert("nan"@.len() == 3);
        assert(word.len() == rest.len());
        assert forall|i: int| 0 <= i < rest.len() implies !text::control(#[trigger] rest[i]) by {
            assert(word[i] == text::ascii_lower(rest[i]));
            assert('a' <= word[i] <= 'z') by {
                if word == "inf"@ {
                    assert(word[0] == 'i' && word[1] == 'n' && word[2] == 'f');
                    assert(i == 0 || i == 1 || i == 2);
                } else if word == "infinity"@ {
                    assert(word[0] == 'i' && word[1] == 'n' && word[2] == 'f' && word[3] == 'i');
                    assert(word[4] == 'n' && word[5] == 'i' && word[6] == 't' && word[7] == 'y');
                    assert(i == 0 || i == 1 || i == 2 || i == 3 || i == 4 || i == 5 || i == 6 || i
                        == 7);
                } else {
                    assert('a' <= "nan"@[i] <= 'z');
                }
            }
        }
    }
    assert forall|i: int| 0 <= i < t.len() implies !text::control(#[trigger] t[i]) by {
        if i >= k {
            assert(rest[i - k] == t[i]);
        }
    }
    lemma_no_control_in_both(t, marks);
}

/// A value is written on one line: no control character stands in what is written.
pub proof fn law_values_are_written_on_one_line(n: notation::Node)
    ensures
        has_no_control(notation::written(n)),
    decreases n,
{
    match n {
        notation::Node::Scalar(s) => lemma_scalar_visible(s),
        notation::Node::List(values) => {
            reveal_strlit("[");
            reveal_strlit("]");
            reveal_strlit(", ");
            let parts = notation::written_items(values);
            assert forall|i: int| 0 <= i < parts.len() implies has_no_control(#[trigger] parts[i]) by {
                law_values_are_written_on_one_line(values[i]);
            }
            lemma_joined_visible(parts, ", "@);
            lemma_no_control_in_both("["@, compose::joined(parts, ", "@));
            lemma_no_control_in_both("["@ + compose::joined(parts, ", "@), "]"@);
        },
        notation::Node::Compound(entries) => {
            reveal_strlit("{ ");
            reveal_strlit(" }");
            reveal_strlit(", ");
            reveal_strlit(": ");
            let parts = notation::written_fields(entries);
            assert forall|i: int| 0 <= i < parts.len() implies has_no_control(#[trigger] parts[i]) by {
                law_values_are_written_on_one_line(entries[i].1);
                let key = entries[i].0;
                lemma_quotation_visible(key);
                if notation::is_plain_name(key) {
                    assert forall|j: int| 0 <= j < key.len() implies !text::control(
                        #[trigger] key[j],
                    ) by {
                        assert(notation::is_name_char(key[j]));
                    }
                }
                lemma_no_control_in_both(notation::written_key(key), ": "@);
                lemma_no_control_in_both(
                    notation::written_key(key) + ": "@,
                    notation::written(entries[i].1),
                );
            }
            lemma_joined_visible(parts, ", "@);
            lemma_no_control_in_both("{ "@, compose::joined(parts, ", "@));
            lemma_no_control_in_both("{ "@ + compose::joined(parts, ", "@), " }"@);
        },
    }
}

} // verus!
