//! How texts are read: what is skipped, how texts are quoted, and where reading fails.

use crate::notation;
use crate::notation_laws;
use crate::text;
use vstd::prelude::*;

verus! {

// ---------------------------------------------------------------------------
// What is skipped
// ---------------------------------------------------------------------------

/// White space, a comma, a comment up to the end of its line, or a comment between its marks.
pub open spec fn is_skipped(p: Seq<char>) -> bool {
    ||| p.len() == 1 && (text::whitespace(p[0]) || p[0] == ',')
    ||| is_line_comment(p)
    ||| is_block_comment(p)
}

pub open spec fn is_line_comment(p: Seq<char>) -> bool {
    &&& p.len() >= 2
    &&& p[0] == '#' || p[0] == '/' && p[1] == '/'
    &&& p.last() == '\n'
    &&& forall|i: int| 0 <= i < p.len() - 1 ==> #[trigger] p[i] != '\n'
}

pub open spec fn is_block_comment(p: Seq<char>) -> bool {
    &&& p.len() >= 4
    &&& p[0] == '/' && p[1] == '*'
    &&& p[p.len() - 2] == '*' && p.last() == '/'
    &&& forall|i: int| 2 <= i < p.len() - 2 ==> !(#[trigger] p[i] == '*' && p[i + 1] == '/')
}

proof fn lemma_line_ends(s: Seq<char>, i: int, end: int)
    requires
        0 <= i < end <= s.len(),
        s[end - 1] == '\n',
        forall|k: int| i <= k < end - 1 ==> #[trigger] s[k] != '\n',
    ensures
        notation::line_end(s, i) == end,
    decreases end - i,
{
    if i < end - 1 {
        lemma_line_ends(s, i + 1, end);
    }
}

proof fn lemma_comment_ends(s: Seq<char>, i: int, end: int)
    requires
        0 <= i <= end - 2,
        end <= s.len(),
        s[end - 2] == '*',
        s[end - 1] == '/',
        forall|k: int| i <= k < end - 2 ==> !(#[trigger] s[k] == '*' && s[k + 1] == '/'),
    ensures
        notation::comment_end(s, i) == Some(end),
    decreases end - i,
{
    if i < end - 2 {
        assert(!(s[i] == '*' && s[i + 1] == '/'));
        lemma_comment_ends(s, i + 1, end);
    }
}

proof fn lemma_at(s: Seq<char>, p: Seq<char>, i: int, k: int)
    requires
        text::stands_at(s, p, i),
        0 <= k < p.len(),
    ensures
        s[i + k] == p[k],
{
    assert(s.subrange(i, i + p.len())[k] == p[k]);
}

/// What is skipped makes no difference to where the next character is that is not.
proof fn lemma_skipped(s: Seq<char>, p: Seq<char>, i: int)
    requires
        is_skipped(p),
        text::stands_at(s, p, i),
    ensures
        notation::trivia(s, i) == notation::trivia(s, i + p.len()),
        p[0] != ',' ==> notation::gap(s, i) == notation::gap(s, i + p.len()),
{
    let end = i + p.len();
    lemma_at(s, p, i, 0);
    lemma_at(s, p, i, p.len() - 1);
    if p.len() == 1 {
        if p[0] == ',' {
            assert(notation::gap(s, i) == Ok::<int, notation::Fault>(i));
        } else {
            assert(notation::gap(s, i) == notation::gap(s, i + 1));
        }
    } else if is_line_comment(p) {
        lemma_at(s, p, i, 1);
        assert forall|k: int| i <= k < end - 1 implies #[trigger] s[k] != '\n' by {
            lemma_at(s, p, i, k - i);
        }
        lemma_line_ends(s, i, end);
        assert(!text::whitespace(s[i]));
        assert(notation::gap(s, i) == notation::gap(s, end));
    } else {
        lemma_at(s, p, i, 1);
        lemma_at(s, p, i, p.len() - 2);
        assert forall|k: int| i + 2 <= k < end - 2 implies !(#[trigger] s[k] == '*' && s[k + 1]
            == '/') by {
            lemma_at(s, p, i, k - i);
            lemma_at(s, p, i, k - i + 1);
            assert(!(p[k - i] == '*' && p[k - i + 1] == '/'));
        }
        lemma_comment_ends(s, i + 2, end);
        assert(notation::gap(s, i) == notation::gap(s, end));
    }
}

/// Wherever a value, a field or the next value of a list is to come, white space, commas and
/// comments before it make no difference.
pub proof fn law_comments_are_skipped(
    s: Seq<char>,
    p: Seq<char>,
    i: int,
    fields: Seq<(Seq<char>, notation::Node)>,
    items: Seq<notation::Node>,
)
    requires
        is_skipped(p),
        text::stands_at(s, p, i),
    ensures
        notation::value(s, i) == notation::value(s, i + p.len()),
        notation::fields(s, i, fields) == notation::fields(s, i + p.len(), fields),
        notation::items(s, i, items) == notation::items(s, i + p.len(), items),
        p[0] != ',' ==> notation::colon(s, i) == notation::colon(s, i + p.len()),
{
    lemma_skipped(s, p, i);
}

/// The pieces, one behind the other.
pub open spec fn all_pieces(pieces: Seq<Seq<char>>) -> Seq<char>
    decreases pieces.len(),
{
    if pieces.len() == 0 {
        Seq::empty()
    } else {
        pieces[0] + all_pieces(pieces.skip(1))
    }
}

proof fn lemma_pieces_skipped(s: Seq<char>, pieces: Seq<Seq<char>>, i: int)
    requires
        forall|k: int| 0 <= k < pieces.len() ==> is_skipped(#[trigger] pieces[k]),
        text::stands_at(s, all_pieces(pieces), i),
    ensures
        notation::trivia(s, i) == notation::trivia(s, i + all_pieces(pieces).len()),
    decreases pieces.len(),
{
    if pieces.len() > 0 {
        let rest = pieces.skip(1);
        let all = all_pieces(pieces);
        let n = pieces[0].len() as int;
        assert(is_skipped(pieces[0]));
        assert(all.subrange(0, n) =~= pieces[0]);
        assert(all.subrange(n, n + all_pieces(rest).len()) =~= all_pieces(rest));
        notation_laws::lemma_stands_inside(s, i, all, 0, pieces[0]);
        notation_laws::lemma_stands_inside(s, i, all, n, all_pieces(rest));
        lemma_skipped(s, pieces[0], i);
        assert forall|k: int| 0 <= k < rest.len() implies is_skipped(#[trigger] rest[k]) by {
            assert(rest[k] == pieces[k + 1]);
        }
        lemma_pieces_skipped(s, rest, i + n);
    }
}

/// A document holds its value whatever white space, commas and comments stand before it and, set
/// off by white space or a comma, behind it.
pub proof fn law_documents_may_hold_comments(
    before: Seq<Seq<char>>,
    n: notation::Node,
    after: Seq<Seq<char>>,
)
    requires
        notation::well_formed(n),
        forall|k: int| 0 <= k < before.len() ==> is_skipped(#[trigger] before[k]),
        forall|k: int| 0 <= k < after.len() ==> is_skipped(#[trigger] after[k]),
        after.len() > 0 ==> after[0].len() == 1,
    ensures
        notation::document(all_pieces(before) + notation::written(n) + all_pieces(after)) == Ok::<
            notation::Node,
            notation::Fault,
        >(n),
{
    let a = all_pieces(before);
    let w = notation::written(n);
    let b = all_pieces(after);
    let s = a + w + b;
    let at = a.len() as int;
    let end = at + w.len();
    assert(s.subrange(0, at) =~= a);
    assert(s.subrange(at, end) =~= w);
    assert(s.subrange(end, end + b.len()) =~= b);
    lemma_pieces_skipped(s, before, 0);
    lemma_pieces_skipped(s, after, end);
    if after.len() > 0 {
        assert(is_skipped(after[0]));
        assert(b[0] == after[0][0]);
        assert(s[end] == b[0]);
    }
    notation_laws::lemma_read_value(s, at, n);
    notation_laws::lemma_solid(s, at);
    assert(notation::value(s, 0) == notation::value(s, at));
}

/// A document holds one value: a second one behind it is refused.
pub proof fn law_second_value_is_refused(a: notation::Node, b: notation::Node)
    requires
        notation::well_formed(a),
        notation::well_formed(b),
    ensures
        notation::document(notation::written(a) + " "@ + notation::written(b)) is Err,
{
    reveal_strlit(" ");
    let v = notation::written(a);
    let w = notation::written(b);
    let s = v + " "@ + w;
    let end = v.len() as int;
    assert(s.subrange(0, end) =~= v);
    assert(s.subrange(end + 1, end + 1 + w.len()) =~= w);
    assert(s[end] == ' ');
    notation_laws::lemma_read_value(s, 0, a);
    notation_laws::lemma_read_value(s, end + 1, b);
    notation_laws::lemma_space(s, end);
}

/// A document of nothing but white space, commas and comments holds no value.
pub proof fn law_empty_document_is_refused(pieces: Seq<Seq<char>>)
    requires
        forall|k: int| 0 <= k < pieces.len() ==> is_skipped(#[trigger] pieces[k]),
    ensures
        notation::document(all_pieces(pieces)) is Err,
{
    let s = all_pieces(pieces);
    assert(s.subrange(0, s.len() as int) =~= s);
    lemma_pieces_skipped(s, pieces, 0);
}

// ---------------------------------------------------------------------------
// Texts
// ---------------------------------------------------------------------------

/// A text between two quotes of one kind is read as it stands, where it holds neither that quote
/// nor a backslash; the quote of the other kind may stand in it.
pub proof fn law_quoted_text_is_read(s: Seq<char>, i: int, quote: char, t: Seq<char>)
    requires
        quote == '"' || quote == '\'',
        text::stands_at(s, seq![quote] + t + seq![quote], i),
        forall|k: int| 0 <= k < t.len() ==> #[trigger] t[k] != quote && t[k] != '\\',
    ensures
        notation::value(s, i) == Ok::<(notation::Node, int), notation::Fault>(
            (notation::Node::Scalar(t), i + t.len() + 2),
        ),
        notation::key(s, i) == Ok::<(Seq<char>, int), notation::Fault>((t, i + t.len() + 2)),
{
    let all = seq![quote] + t + seq![quote];
    lemma_at(s, all, i, 0);
    lemma_at(s, all, i, t.len() as int + 1);
    assert forall|k: int| i + 1 <= k < i + 1 + t.len() implies #[trigger] s[k] == t[k - i - 1] by {
        lemma_at(s, all, i, k - i);
    }
    lemma_quoted_run(s, i + 1, quote, Seq::empty(), t);
    assert(Seq::<char>::empty() + t =~= t);
    notation_laws::lemma_solid(s, i);
}

proof fn lemma_quoted_run(s: Seq<char>, i: int, quote: char, before: Seq<char>, t: Seq<char>)
    requires
        0 <= i,
        i + t.len() < s.len(),
        s[i + t.len()] == quote,
        forall|k: int| i <= k < i + t.len() ==> #[trigger] s[k] == t[k - i],
        forall|k: int| 0 <= k < t.len() ==> #[trigger] t[k] != quote && t[k] != '\\',
    ensures
        notation::quoted(s, i, quote, before) == Ok::<(Seq<char>, int), notation::Fault>(
            (before + t, i + t.len() + 1),
        ),
    decreases t.len(),
{
    if t.len() == 0 {
        assert(before + t =~= before);
    } else {
        let rest = t.skip(1);
        assert(s[i] == t[0]);
        assert forall|k: int| i + 1 <= k < i + 1 + rest.len() implies #[trigger] s[k] == rest[k - i
            - 1] by {
            assert(s[k] == t[k - i]);
        }
        assert forall|k: int| 0 <= k < rest.len() implies #[trigger] rest[k] != quote && rest[k]
            != '\\' by {
            assert(rest[k] == t[k + 1]);
        }
        lemma_quoted_run(s, i + 1, quote, before.push(t[0]), rest);
        assert(before.push(t[0]) + rest =~= before + t);
    }
}

/// A quoted text that is not closed is refused.
pub proof fn law_open_quote_is_refused(quote: char, t: Seq<char>)
    requires
        quote == '"' || quote == '\'',
        forall|k: int| 0 <= k < t.len() ==> #[trigger] t[k] != quote && t[k] != '\\',
    ensures
        notation::document(seq![quote] + t) is Err,
{
    let s = seq![quote] + t;
    assert(s[0] == quote);
    assert forall|k: int| 1 <= k < s.len() implies #[trigger] s[k] != quote && s[k] != '\\' by {
        assert(s[k] == t[k - 1]);
    }
    lemma_never_closed(s, 1, quote, Seq::empty());
    notation_laws::lemma_solid(s, 0);
}

proof fn lemma_never_closed(s: Seq<char>, i: int, quote: char, before: Seq<char>)
    requires
        0 <= i <= s.len(),
        forall|k: int| i <= k < s.len() ==> #[trigger] s[k] != quote && s[k] != '\\',
    ensures
        notation::quoted(s, i, quote, before) is Err,
    decreases s.len() - i,
{
    if i < s.len() {
        lemma_never_closed(s, i + 1, quote, before.push(s[i]));
    }
}

/// Behind a backslash `b`, `f`, `n`, `r` and `t` stand for control characters, and every other
/// character but `u` stands for itself; in a quoted text what it stands for is read.
pub proof fn law_escapes_are_read(s: Seq<char>, i: int, quote: char, before: Seq<char>, c: char)
    requires
        quote == '"' || quote == '\'',
        text::stands_at(s, seq!['\\', c], i),
        c != 'u',
    ensures
        ({
            let meant = if c == 'b' {
                '\u{0008}'
            } else if c == 'f' {
                '\u{000C}'
            } else if c == 'n' {
                '\n'
            } else if c == 'r' {
                '\r'
            } else if c == 't' {
                '\t'
            } else {
                c
            };
            notation::quoted(s, i, quote, before) == notation::quoted(
                s,
                i + 2,
                quote,
                before.push(meant),
            )
        }),
{
    lemma_at(s, seq!['\\', c], i, 0);
    lemma_at(s, seq!['\\', c], i, 1);
}

/// What a character is worth as a hexadecimal digit.
pub open spec fn is_worth(c: char, n: int) -> bool {
    ||| 0 <= n < 10 && c as int == '0' as int + n
    ||| 10 <= n < 16 && c as int == 'a' as int + n - 10
    ||| 10 <= n < 16 && c as int == 'A' as int + n - 10
}

/// Behind `\u` four hexadecimal digits, in capitals or small letters, stand for the character of
/// that number.
pub proof fn law_numbered_characters_are_read(
    s: Seq<char>,
    i: int,
    quote: char,
    before: Seq<char>,
    d: Seq<char>,
    n: Seq<int>,
    c: char,
)
    requires
        quote == '"' || quote == '\'',
        d.len() == 4,
        n.len() == 4,
        forall|k: int| 0 <= k < 4 ==> is_worth(#[trigger] d[k], n[k]),
        text::stands_at(s, seq!['\\', 'u'] + d, i),
        c as int == ((n[0] * 16 + n[1]) * 16 + n[2]) * 16 + n[3],
    ensures
        notation::quoted(s, i, quote, before) == notation::quoted(s, i + 6, quote, before.push(c)),
{
    let all = seq!['\\', 'u'] + d;
    lemma_at(s, all, i, 0);
    lemma_at(s, all, i, 1);
    assert forall|k: int| 0 <= k < 4 implies text::hex_value(s[i + 2 + k]) == Some(
        #[trigger] n[k],
    ) by {
        lemma_at(s, all, i, k + 2);
        assert(is_worth(d[k], n[k]));
        assert(s[i + 2 + k] == d[k]);
    }
    assert(text::hex_value(s[i + 2]) == Some(n[0]));
    assert(text::hex_value(s[i + 3]) == Some(n[1]));
    assert(text::hex_value(s[i + 4]) == Some(n[2]));
    assert(text::hex_value(s[i + 5]) == Some(n[3]));
    lemma_at(s, all, i, 5);
    let v = ((n[0] * 16 + n[1]) * 16 + n[2]) * 16 + n[3];
    assert(notation::code_point(v) == Some(c));
    assert(notation::unicode(s, i + 6, 0, v) == Ok::<(char, int), notation::Fault>((c, i + 6)));
    assert(notation::unicode(s, i + 5, 1, (n[0] * 16 + n[1]) * 16 + n[2]) == Ok::<
        (char, int),
        notation::Fault,
    >((c, i + 6)));
    assert(notation::unicode(s, i + 4, 2, n[0] * 16 + n[1]) == Ok::<
        (char, int),
        notation::Fault,
    >((c, i + 6)));
    assert(notation::unicode(s, i + 3, 3, n[0]) == Ok::<(char, int), notation::Fault>(
        (c, i + 6),
    ));
    assert(notation::unicode(s, i + 2, 4, 0) == Ok::<(char, int), notation::Fault>((c, i + 6)));
}

/// A text without quotes is read up to white space, a comma or a closing bracket.
pub proof fn law_bare_text_is_read(s: Seq<char>, i: int, t: Seq<char>)
    requires
        t.len() > 0,
        text::stands_at(s, t, i),
        notation_laws::solid(t[0]),
        t[0] != '{',
        t[0] != '[',
        t[0] != '"',
        t[0] != '\'',
        forall|k: int|
            0 <= k < t.len() ==> !text::whitespace(#[trigger] t[k]) && t[k] != ',' && t[k] != '}'
                && t[k] != ']',
        i + t.len() == s.len() || {
            let c = s[i + t.len()];
            text::whitespace(c) || c == ',' || c == '}' || c == ']'
        },
    ensures
        notation::value(s, i) == Ok::<(notation::Node, int), notation::Fault>(
            (notation::Node::Scalar(t), i + t.len()),
        ),
{
    lemma_at(s, t, i, 0);
    assert forall|k: int| i <= k < i + t.len() implies !notation::ends_bare(#[trigger] s[k]) by {
        lemma_at(s, t, i, k - i);
        assert(!text::whitespace(t[k - i]));
    }
    notation_laws::lemma_bare_run(s, i, i + t.len());
    notation_laws::lemma_solid(s, i);
    assert(s.subrange(i, i + t.len()) == t);
}

/// The mark of a typed list is read over: the list is that of its values.
pub proof fn law_typed_lists_are_lists(s: Seq<char>, i: int, mark: char)
    requires
        text::stands_at(s, seq!['[', mark, ';'], i),
        "BILbil"@.contains(mark),
    ensures
        notation::value(s, i) == notation::items(s, i + 3, Seq::empty()),
{
    reveal_strlit("BILbil");
    let p = seq!['[', mark, ';'];
    lemma_at(s, p, i, 0);
    lemma_at(s, p, i, 1);
    lemma_at(s, p, i, 2);
    notation_laws::lemma_solid(s, i);
    notation_laws::lemma_solid(s, i + 1);
    notation_laws::lemma_solid(s, i + 2);
    assert(notation::list_start(s, i + 1) == Ok::<int, notation::Fault>(i + 3));
}

/// A list without values and a compound without fields are read as such.
pub proof fn law_empty_brackets_are_read(s: Seq<char>, i: int)
    ensures
        text::stands_at(s, seq!['[', ']'], i) ==> notation::value(s, i) == Ok::<
            (notation::Node, int),
            notation::Fault,
        >((notation::Node::List(Seq::empty()), i + 2)),
        text::stands_at(s, seq!['{', '}'], i) ==> notation::value(s, i) == Ok::<
            (notation::Node, int),
            notation::Fault,
        >((notation::Node::Compound(Seq::empty()), i + 2)),
{
    if text::stands_at(s, seq!['[', ']'], i) {
        lemma_at(s, seq!['[', ']'], i, 0);
        lemma_at(s, seq!['[', ']'], i, 1);
        notation_laws::lemma_solid(s, i);
        notation_laws::lemma_solid(s, i + 1);
    }
    if text::stands_at(s, seq!['{', '}'], i) {
        lemma_at(s, seq!['{', '}'], i, 0);
        lemma_at(s, seq!['{', '}'], i, 1);
        notation_laws::lemma_solid(s, i);
        notation_laws::lemma_solid(s, i + 1);
    }
}

// ---------------------------------------------------------------------------
// Where a fault is
// ---------------------------------------------------------------------------

/// The line and the column of a place count from one: a line break ends a line, and the column is
/// the distance from the beginning of the line.
pub proof fn law_faults_are_located(s: Seq<char>, start: int, at: int)
    requires
        0 <= start <= at <= s.len(),
        start == 0 || s[start - 1] == '\n',
        forall|k: int| start <= k < at ==> #[trigger] s[k] != '\n',
    ensures
        notation::column_of(s, at) == at - start + 1,
        notation::line_of(s, at) == notation::line_of(s, start),
        start > 0 ==> notation::line_of(s, start) == notation::line_of(s, start - 1) + 1,
        start == 0 ==> notation::line_of(s, start) == 1,
    decreases at - start,
{
    if start < at {
        law_faults_are_located(s, start, at - 1);
    }
}

} // verus!
