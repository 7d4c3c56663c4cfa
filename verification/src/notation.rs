//! The notation of quest files: what a text means and how a value is written.
//!
//! The functions here are mathematical: they define the grammar that the parser of
//! [`crate::snbt`] follows and the text that its writer gives.

use crate::compose;
use crate::table;
use crate::text;
use vstd::prelude::*;

verus! {

// ---------------------------------------------------------------------------
// Values and failures
// ---------------------------------------------------------------------------

/// The mathematical form of a value. The entries of a compound stand in the order of their keys.
pub ghost enum Node {
    Compound(Seq<(Seq<char>, Node)>),
    List(Seq<Node>),
    Scalar(Seq<char>),
}

/// Where the text breaks the grammar: the message, and the position up to which it was read.
pub type Fault = (Seq<char>, int);

/// The keys of every compound ascend.
pub open spec fn well_formed(n: Node) -> bool
    decreases n,
{
    match n {
        Node::Compound(entries) => {
            &&& table::ordered(entries)
            &&& forall|i: int| 0 <= i < entries.len() ==> well_formed(#[trigger] entries[i].1)
        },
        Node::List(values) => {
            forall|i: int| 0 <= i < values.len() ==> well_formed(#[trigger] values[i])
        },
        Node::Scalar(_) => true,
    }
}

/// The line of a position, counted from one.
pub open spec fn line_of(s: Seq<char>, at: int) -> int
    decreases at,
{
    if at <= 0 {
        1
    } else if s[at - 1] == '\n' {
        line_of(s, at - 1) + 1
    } else {
        line_of(s, at - 1)
    }
}

/// The column of a position in its line, counted from one.
pub open spec fn column_of(s: Seq<char>, at: int) -> int
    decreases at,
{
    if at <= 0 || s[at - 1] == '\n' {
        1
    } else {
        column_of(s, at - 1) + 1
    }
}

pub proof fn lemma_place_bounds(s: Seq<char>, at: int)
    requires
        at >= 0,
    ensures
        1 <= line_of(s, at) <= at + 1,
        1 <= column_of(s, at) <= at + 1,
    decreases at,
{
    if at > 0 {
        lemma_place_bounds(s, at - 1);
    }
}

// ---------------------------------------------------------------------------
// White space, comments and commas
// ---------------------------------------------------------------------------

pub open spec fn char_at(s: Seq<char>, i: int, c: char) -> bool {
    0 <= i < s.len() && s[i] == c
}

pub open spec fn pair_at(s: Seq<char>, i: int, a: char, b: char) -> bool {
    char_at(s, i, a) && char_at(s, i + 1, b)
}

/// The position behind the first line break at or behind `i`, or the end of the text.
pub open spec fn line_end(s: Seq<char>, i: int) -> int
    decreases s.len() - i,
{
    if i >= s.len() {
        s.len() as int
    } else if s[i] == '\n' {
        i + 1
    } else {
        line_end(s, i + 1)
    }
}

/// The position behind the first `*/` at or behind `i`.
pub open spec fn comment_end(s: Seq<char>, i: int) -> Option<int>
    decreases s.len() - i,
{
    if i >= s.len() {
        None
    } else if pair_at(s, i, '*', '/') {
        Some(i + 2)
    } else {
        comment_end(s, i + 1)
    }
}

pub proof fn lemma_line_end(s: Seq<char>, i: int)
    requires
        0 <= i <= s.len(),
    ensures
        i <= line_end(s, i) <= s.len(),
        i < s.len() ==> i < line_end(s, i),
    decreases s.len() - i,
{
    if i < s.len() && s[i] != '\n' {
        lemma_line_end(s, i + 1);
    }
}

pub proof fn lemma_comment_end(s: Seq<char>, i: int)
    requires
        0 <= i,
    ensures
        comment_end(s, i) matches Some(j) ==> i < j <= s.len(),
    decreases s.len() - i,
{
    if i < s.len() && !pair_at(s, i, '*', '/') {
        lemma_comment_end(s, i + 1);
    }
}

/// The first position at or behind `i` that is neither white space nor inside a comment.
pub open spec fn gap(s: Seq<char>, i: int) -> Result<int, Fault>
    decreases s.len() - i,
{
    if i < 0 || i >= s.len() {
        Ok(i)
    } else if text::whitespace(s[i]) {
        gap(s, i + 1)
    } else if pair_at(s, i, '/', '/') || s[i] == '#' {
        proof {
            lemma_line_end(s, i);
        }
        gap(s, line_end(s, i))
    } else if pair_at(s, i, '/', '*') {
        proof {
            lemma_comment_end(s, i + 2);
        }
        match comment_end(s, i + 2) {
            Some(j) => gap(s, j),
            None => Err(("незакрытый блочный комментарий"@, s.len() as int)),
        }
    } else {
        Ok(i)
    }
}

pub proof fn lemma_gap(s: Seq<char>, i: int)
    requires
        0 <= i <= s.len(),
    ensures
        match gap(s, i) {
            Ok(j) => i <= j <= s.len(),
            Err((_, at)) => at == s.len(),
        },
    decreases s.len() - i,
{
    if i < s.len() {
        if text::whitespace(s[i]) {
            lemma_gap(s, i + 1);
        } else if pair_at(s, i, '/', '/') || s[i] == '#' {
            lemma_line_end(s, i);
            lemma_gap(s, line_end(s, i));
        } else if pair_at(s, i, '/', '*') {
            lemma_comment_end(s, i + 2);
            if let Some(j) = comment_end(s, i + 2) {
                lemma_gap(s, j);
            }
        }
    }
}

/// The first position at or behind `i` that is neither a gap nor a comma.
pub open spec fn trivia(s: Seq<char>, i: int) -> Result<int, Fault>
    decreases s.len() - i,
{
    if i < 0 || i >= s.len() {
        Ok(i)
    } else {
        proof {
            lemma_gap(s, i);
        }
        match gap(s, i) {
            Ok(j) => if char_at(s, j, ',') {
                trivia(s, j + 1)
            } else {
                Ok(j)
            },
            Err(fault) => Err(fault),
        }
    }
}

pub proof fn lemma_trivia(s: Seq<char>, i: int)
    requires
        0 <= i <= s.len(),
    ensures
        match trivia(s, i) {
            Ok(j) => i <= j <= s.len(),
            Err((_, at)) => at == s.len(),
        },
    decreases s.len() - i,
{
    if i < s.len() {
        lemma_gap(s, i);
        if let Ok(j) = gap(s, i) {
            if char_at(s, j, ',') {
                lemma_trivia(s, j + 1);
            }
        }
    }
}

// ---------------------------------------------------------------------------
// Names and scalars
// ---------------------------------------------------------------------------

pub open spec fn ends_key(c: char) -> bool {
    text::whitespace(c) || c == ':' || c == ',' || c == '{' || c == '}' || c == '[' || c == ']'
}

pub open spec fn ends_bare(c: char) -> bool {
    text::whitespace(c) || c == ',' || c == '}' || c == ']'
}

/// The first position at or behind `i` that cannot belong to an unquoted name.
pub open spec fn key_end(s: Seq<char>, i: int) -> int
    decreases s.len() - i,
{
    if i >= s.len() || ends_key(s[i]) {
        i
    } else {
        key_end(s, i + 1)
    }
}

/// The first position at or behind `i` that cannot belong to an unquoted value.
pub open spec fn bare_end(s: Seq<char>, i: int) -> int
    decreases s.len() - i,
{
    if i >= s.len() || ends_bare(s[i]) {
        i
    } else {
        bare_end(s, i + 1)
    }
}

pub proof fn lemma_key_end(s: Seq<char>, i: int)
    requires
        0 <= i <= s.len(),
    ensures
        i <= key_end(s, i) <= s.len(),
    decreases s.len() - i,
{
    if i < s.len() && !ends_key(s[i]) {
        lemma_key_end(s, i + 1);
    }
}

pub proof fn lemma_bare_end(s: Seq<char>, i: int)
    requires
        0 <= i <= s.len(),
    ensures
        i <= bare_end(s, i) <= s.len(),
    decreases s.len() - i,
{
    if i < s.len() && !ends_bare(s[i]) {
        lemma_bare_end(s, i + 1);
    }
}

/// The character with the given code point.
pub open spec fn code_point(value: int) -> Option<char> {
    if 0 <= value < 0xd800 || 0xe000 <= value <= 0x10ffff {
        Some(value as char)
    } else {
        None
    }
}

/// `n` hexadecimal digits behind those whose value is `value`, and the character they name.
pub open spec fn unicode(s: Seq<char>, i: int, n: nat, value: int) -> Result<(char, int), Fault>
    decreases n,
{
    if n == 0 {
        match code_point(value) {
            Some(c) => Ok((c, i)),
            None => Err(("некорректный Unicode-символ"@, i)),
        }
    } else if i < 0 || i >= s.len() {
        Err(("некорректная Unicode-последовательность"@, i))
    } else {
        match text::hex_value(s[i]) {
            Some(digit) => unicode(s, i + 1, (n - 1) as nat, value * 16 + digit),
            None => Err(("некорректная Unicode-последовательность"@, i + 1)),
        }
    }
}

/// The character that stands behind a backslash for another one.
pub open spec fn escape(s: Seq<char>, i: int) -> Result<(char, int), Fault> {
    if i < 0 || i >= s.len() {
        Err(("незавершённая escape-последовательность"@, i))
    } else if s[i] == 'b' {
        Ok(('\u{0008}', i + 1))
    } else if s[i] == 'f' {
        Ok(('\u{000C}', i + 1))
    } else if s[i] == 'n' {
        Ok(('\n', i + 1))
    } else if s[i] == 'r' {
        Ok(('\r', i + 1))
    } else if s[i] == 't' {
        Ok(('\t', i + 1))
    } else if s[i] == 'u' {
        unicode(s, i + 1, 4, 0)
    } else {
        Ok((s[i], i + 1))
    }
}

pub proof fn lemma_unicode(s: Seq<char>, i: int, n: nat, value: int)
    requires
        0 <= i <= s.len(),
    ensures
        match unicode(s, i, n, value) {
            Ok((_, j)) => i <= j <= s.len(),
            Err((_, at)) => i <= at <= s.len(),
        },
    decreases n,
{
    if n > 0 && i < s.len() {
        if let Some(digit) = text::hex_value(s[i]) {
            lemma_unicode(s, i + 1, (n - 1) as nat, value * 16 + digit);
        }
    }
}

pub proof fn lemma_escape(s: Seq<char>, i: int)
    requires
        0 <= i <= s.len(),
    ensures
        match escape(s, i) {
            Ok((_, j)) => i < j <= s.len(),
            Err((_, at)) => i <= at <= s.len(),
        },
{
    if i < s.len() {
        lemma_unicode(s, i + 1, 4, 0);
    }
}

/// The rest of a quoted text behind `before`, up to and with the closing quote.
pub open spec fn quoted(s: Seq<char>, i: int, quote: char, before: Seq<char>) -> Result<
    (Seq<char>, int),
    Fault,
>
    decreases s.len() - i,
{
    if i < 0 || i >= s.len() {
        Err(("незакрытая строка"@, i))
    } else if s[i] == quote {
        Ok((before, i + 1))
    } else if s[i] == '\\' {
        proof {
            lemma_escape(s, i + 1);
        }
        match escape(s, i + 1) {
            Ok((c, j)) => quoted(s, j, quote, before.push(c)),
            Err(fault) => Err(fault),
        }
    } else {
        quoted(s, i + 1, quote, before.push(s[i]))
    }
}

pub proof fn lemma_quoted(s: Seq<char>, i: int, quote: char, before: Seq<char>)
    requires
        0 <= i <= s.len(),
    ensures
        match quoted(s, i, quote, before) {
            Ok((_, j)) => i < j <= s.len(),
            Err((_, at)) => i <= at <= s.len(),
        },
    decreases s.len() - i,
{
    if i < s.len() && s[i] != quote {
        if s[i] == '\\' {
            lemma_escape(s, i + 1);
            if let Ok((c, j)) = escape(s, i + 1) {
                lemma_quoted(s, j, quote, before.push(c));
            }
        } else {
            lemma_quoted(s, i + 1, quote, before.push(s[i]));
        }
    }
}

pub open spec fn is_quote(c: char) -> bool {
    c == '"' || c == '\''
}

/// The name of a field.
pub open spec fn key(s: Seq<char>, i: int) -> Result<(Seq<char>, int), Fault> {
    if i < 0 || i >= s.len() {
        Err(("неожиданный конец объекта"@, i))
    } else if is_quote(s[i]) {
        quoted(s, i + 1, s[i], Seq::empty())
    } else if key_end(s, i) == i {
        Err(("ожидалось имя поля"@, i))
    } else {
        Ok((s.subrange(i, key_end(s, i)), key_end(s, i)))
    }
}

/// An unquoted value.
pub open spec fn bare(s: Seq<char>, i: int) -> Result<(Seq<char>, int), Fault> {
    if bare_end(s, i) == i {
        Err(("ожидалось значение"@, i))
    } else {
        Ok((s.subrange(i, bare_end(s, i)), bare_end(s, i)))
    }
}

pub proof fn lemma_key(s: Seq<char>, i: int)
    requires
        0 <= i <= s.len(),
    ensures
        match key(s, i) {
            Ok((_, j)) => i < j <= s.len(),
            Err((_, at)) => i <= at <= s.len(),
        },
{
    if i < s.len() {
        lemma_quoted(s, i + 1, s[i], Seq::empty());
        lemma_key_end(s, i);
    }
}

pub proof fn lemma_bare(s: Seq<char>, i: int)
    requires
        0 <= i <= s.len(),
    ensures
        match bare(s, i) {
            Ok((_, j)) => i < j <= s.len(),
            Err((_, at)) => i <= at <= s.len(),
        },
{
    lemma_bare_end(s, i);
}

// ---------------------------------------------------------------------------
// Values
// ---------------------------------------------------------------------------

/// The position behind the colon of a field.
pub open spec fn colon(s: Seq<char>, i: int) -> Result<int, Fault> {
    match gap(s, i) {
        Err(fault) => Err(fault),
        Ok(j) => if j >= s.len() {
            Err((expected_at_end(':'), j))
        } else if s[j] != ':' {
            Err((expected_before(':', s[j]), j + 1))
        } else {
            Ok(j + 1)
        },
    }
}

pub open spec fn expected_at_end(c: char) -> Seq<char> {
    "ожидался символ '"@.push(c) + "', найден конец файла"@
}

pub open spec fn expected_before(c: char, found: char) -> Seq<char> {
    ("ожидался символ '"@.push(c) + "', найден '"@).push(found).push('\'')
}

pub proof fn lemma_colon(s: Seq<char>, i: int)
    requires
        0 <= i <= s.len(),
    ensures
        match colon(s, i) {
            Ok(j) => i < j <= s.len(),
            Err((_, at)) => i <= at <= s.len(),
        },
{
    lemma_gap(s, i);
}

pub open spec fn is_array_mark(c: char) -> bool {
    c == 'B' || c == 'I' || c == 'L' || c == 'b' || c == 'i' || c == 'l'
}

/// The position behind the opening of a list and, where it has one, its type mark (`I;`).
pub open spec fn list_start(s: Seq<char>, i: int) -> Result<int, Fault> {
    match gap(s, i) {
        Err(fault) => Err(fault),
        Ok(j) => if 0 <= j < s.len() && is_array_mark(s[j]) {
            match gap(s, j + 1) {
                Err(fault) => Err(fault),
                Ok(k) => if char_at(s, k, ';') {
                    Ok(k + 1)
                } else {
                    Ok(j)
                },
            }
        } else {
            Ok(j)
        },
    }
}

pub proof fn lemma_list_start(s: Seq<char>, i: int)
    requires
        0 <= i <= s.len(),
    ensures
        match list_start(s, i) {
            Ok(j) => i <= j <= s.len(),
            Err((_, at)) => at == s.len(),
        },
{
    lemma_gap(s, i);
    if let Ok(j) = gap(s, i) {
        if 0 <= j < s.len() {
            lemma_gap(s, j + 1);
        }
    }
}

/// The value that starts at `i`, behind white space, comments and commas, and where it ends.
pub open spec fn value(s: Seq<char>, i: int) -> Result<(Node, int), Fault>
    decreases s.len() - i, 0int,
{
    if i < 0 || i > s.len() {
        Err((Seq::empty(), i))
    } else {
        proof {
            lemma_trivia(s, i);
        }
        match trivia(s, i) {
            Err(fault) => Err(fault),
            Ok(j) => if j >= s.len() {
                Err(("ожидалось значение"@, j))
            } else if s[j] == '{' {
                fields(s, j + 1, Seq::empty())
            } else if s[j] == '[' {
                proof {
                    lemma_list_start(s, j + 1);
                }
                match list_start(s, j + 1) {
                    Err(fault) => Err(fault),
                    Ok(k) => items(s, k, Seq::empty()),
                }
            } else if is_quote(s[j]) {
                match quoted(s, j + 1, s[j], Seq::empty()) {
                    Err(fault) => Err(fault),
                    Ok((text, k)) => Ok((Node::Scalar(text), k)),
                }
            } else {
                match bare(s, j) {
                    Err(fault) => Err(fault),
                    Ok((text, k)) => Ok((Node::Scalar(text), k)),
                }
            },
        }
    }
}

/// The rest of a compound behind the fields read so far; of two fields of one name the later
/// one stays. (A value never ends at or before its start: `lemma_value`.)
pub open spec fn fields(s: Seq<char>, i: int, before: Seq<(Seq<char>, Node)>) -> Result<
    (Node, int),
    Fault,
>
    decreases s.len() - i, 1int,
{
    if i < 0 || i > s.len() {
        Err((Seq::empty(), i))
    } else {
        proof {
            lemma_trivia(s, i);
        }
        match trivia(s, i) {
            Err(fault) => Err(fault),
            Ok(j) => if char_at(s, j, '}') {
                Ok((Node::Compound(before), j + 1))
            } else {
                proof {
                    lemma_key(s, j);
                }
                match key(s, j) {
                    Err(fault) => Err(fault),
                    Ok((name, k)) => {
                        proof {
                            lemma_colon(s, k);
                        }
                        match colon(s, k) {
                            Err(fault) => Err(fault),
                            Ok(m) => match value(s, m) {
                                Err(fault) => Err(fault),
                                Ok((node, next)) => if m < next <= s.len() {
                                    fields(s, next, table::upsert(before, name, node))
                                } else {
                                    Err((Seq::empty(), next))
                                },
                            },
                        }
                    },
                }
            },
        }
    }
}

/// The rest of a list behind the items read so far.
pub open spec fn items(s: Seq<char>, i: int, before: Seq<Node>) -> Result<(Node, int), Fault>
    decreases s.len() - i, 1int,
{
    if i < 0 || i > s.len() {
        Err((Seq::empty(), i))
    } else {
        proof {
            lemma_trivia(s, i);
        }
        match trivia(s, i) {
            Err(fault) => Err(fault),
            Ok(j) => if char_at(s, j, ']') {
                Ok((Node::List(before), j + 1))
            } else {
                match value(s, j) {
                    Err(fault) => Err(fault),
                    Ok((node, next)) => if j < next <= s.len() {
                        items(s, next, before.push(node))
                    } else {
                        Err((Seq::empty(), next))
                    },
                }
            },
        }
    }
}

/// What a whole text means: one value and nothing else.
pub open spec fn document(s: Seq<char>) -> Result<Node, Fault> {
    match value(s, 0) {
        Err(fault) => Err(fault),
        Ok((node, i)) => match trivia(s, i) {
            Err(fault) => Err(fault),
            Ok(j) => if j < s.len() {
                Err(("лишние данные после корневого значения"@, j))
            } else {
                Ok(node)
            },
        },
    }
}

/// A value ends behind its start and inside the text, and so does a failure.
pub proof fn lemma_value(s: Seq<char>, i: int)
    requires
        0 <= i <= s.len(),
    ensures
        match value(s, i) {
            Ok((_, j)) => i < j <= s.len(),
            Err((_, at)) => i <= at <= s.len(),
        },
    decreases s.len() - i, 0int,
{
    lemma_trivia(s, i);
    if let Ok(j) = trivia(s, i) {
        if j < s.len() {
            if s[j] == '{' {
                lemma_fields(s, j + 1, Seq::empty());
            } else if s[j] == '[' {
                lemma_list_start(s, j + 1);
                if let Ok(k) = list_start(s, j + 1) {
                    lemma_items(s, k, Seq::empty());
                }
            } else {
                lemma_quoted(s, j + 1, s[j], Seq::empty());
                lemma_bare(s, j);
            }
        }
    }
}

pub proof fn lemma_fields(s: Seq<char>, i: int, before: Seq<(Seq<char>, Node)>)
    requires
        0 <= i <= s.len(),
    ensures
        match fields(s, i, before) {
            Ok((_, j)) => i < j <= s.len(),
            Err((_, at)) => i <= at <= s.len(),
        },
    decreases s.len() - i, 1int,
{
    lemma_trivia(s, i);
    if let Ok(j) = trivia(s, i) {
        if !char_at(s, j, '}') {
            lemma_key(s, j);
            if let Ok((name, k)) = key(s, j) {
                lemma_colon(s, k);
                if let Ok(m) = colon(s, k) {
                    lemma_value(s, m);
                    if let Ok((node, next)) = value(s, m) {
                        lemma_fields(s, next, table::upsert(before, name, node));
                    }
                }
            }
        }
    }
}

pub proof fn lemma_items(s: Seq<char>, i: int, before: Seq<Node>)
    requires
        0 <= i <= s.len(),
    ensures
        match items(s, i, before) {
            Ok((_, j)) => i < j <= s.len(),
            Err((_, at)) => i <= at <= s.len(),
        },
    decreases s.len() - i, 1int,
{
    lemma_trivia(s, i);
    if let Ok(j) = trivia(s, i) {
        if !char_at(s, j, ']') {
            lemma_value(s, j);
            if let Ok((node, next)) = value(s, j) {
                lemma_items(s, next, before.push(node));
            }
        }
    }
}

// ---------------------------------------------------------------------------
// Writing
// ---------------------------------------------------------------------------

/// How a character stands between quotes.
pub open spec fn escaped(c: char) -> Seq<char> {
    if c == '"' || c == '\\' {
        seq!['\\', c]
    } else if c == '\n' {
        seq!['\\', 'n']
    } else if c == '\r' {
        seq!['\\', 'r']
    } else if c == '\t' {
        seq!['\\', 't']
    } else if c == '\u{0008}' {
        seq!['\\', 'b']
    } else if c == '\u{000C}' {
        seq!['\\', 'f']
    } else if text::control(c) {
        seq!['\\', 'u'] + compose::hexadecimal(c as u32 as nat, 4)
    } else {
        seq![c]
    }
}

/// The characters as they stand between quotes.
pub open spec fn all_escaped(s: Seq<char>) -> Seq<char>
    decreases s.len(),
{
    if s.len() == 0 {
        Seq::empty()
    } else {
        all_escaped(s.drop_last()) + escaped(s.last())
    }
}

/// The text between quotes.
pub open spec fn quotation(s: Seq<char>) -> Seq<char> {
    seq!['"'] + all_escaped(s) + seq!['"']
}

pub open spec fn is_name_char(c: char) -> bool {
    text::ascii_alphanumeric(c) || c == '_' || c == '-' || c == '.' || c == '+'
}

/// A name that needs no quotes.
pub open spec fn is_plain_name(s: Seq<char>) -> bool {
    s.len() > 0 && forall|i: int| 0 <= i < s.len() ==> is_name_char(#[trigger] s[i])
}

pub open spec fn written_key(s: Seq<char>) -> Seq<char> {
    if is_plain_name(s) {
        s
    } else {
        quotation(s)
    }
}

/// The first position at or behind `i` that is no digit.
pub open spec fn digits_end(s: Seq<char>, i: int) -> int
    decreases s.len() - i,
{
    if i < 0 || i >= s.len() || !text::ascii_digit(s[i]) {
        i
    } else {
        digits_end(s, i + 1)
    }
}

/// The position behind a sign at `i`, or `i`.
pub open spec fn after_sign(s: Seq<char>, i: int) -> int {
    if 0 <= i < s.len() && (s[i] == '+' || s[i] == '-') {
        i + 1
    } else {
        i
    }
}

/// Digits, with a point before, between or behind them or without one, and an exponent or none.
pub open spec fn is_decimal_number(s: Seq<char>) -> bool {
    let whole = digits_end(s, 0);
    let point = char_at(s, whole, '.');
    let end = if point {
        digits_end(s, whole + 1)
    } else {
        whole
    };
    let digits = if point {
        end - 1
    } else {
        end
    };
    let exponent = after_sign(s, end + 1);
    &&& digits > 0
    &&& end == s.len() || {
        &&& s[end] == 'e' || s[end] == 'E'
        &&& digits_end(s, exponent) > exponent
        &&& digits_end(s, exponent) == s.len()
    }
}

/// A signed number, or one of the words for infinity and for what is no number, in letters of
/// either case.
pub open spec fn is_number(s: Seq<char>) -> bool {
    let rest = s.skip(after_sign(s, 0));
    let word = compose::lowered(rest);
    word == "inf"@ || word == "infinity"@ || word == "nan"@ || is_decimal_number(rest)
}

/// The letters that mark the type of a number.
pub open spec fn is_type_mark(c: char) -> bool {
    c == 'b' || c == 'B' || c == 's' || c == 'S' || c == 'l' || c == 'L' || c == 'f' || c == 'F'
        || c == 'd' || c == 'D'
}

/// The text without the type marks at its end.
pub open spec fn without_marks(s: Seq<char>) -> Seq<char>
    decreases s.len(),
{
    if s.len() > 0 && is_type_mark(s.last()) {
        without_marks(s.drop_last())
    } else {
        s
    }
}

/// A scalar that is written without quotes.
pub open spec fn is_literal(s: Seq<char>) -> bool {
    s == "true"@ || s == "false"@ || is_number(without_marks(s))
}

pub open spec fn written_scalar(s: Seq<char>) -> Seq<char> {
    if is_literal(s) {
        s
    } else {
        quotation(s)
    }
}

/// A field as it is written.
pub open spec fn written_field(name: Seq<char>, value: Seq<char>) -> Seq<char> {
    written_key(name) + ": "@ + value
}

/// How a value is written.
pub open spec fn written(n: Node) -> Seq<char>
    decreases n,
{
    match n {
        Node::Compound(entries) => "{ "@ + compose::joined(written_fields(entries), ", "@) + " }"@,
        Node::List(values) => "["@ + compose::joined(written_items(values), ", "@) + "]"@,
        Node::Scalar(s) => written_scalar(s),
    }
}

/// The fields of a compound as they are written.
pub open spec fn written_fields(entries: Seq<(Seq<char>, Node)>) -> Seq<Seq<char>>
    decreases entries,
{
    Seq::new(
        entries.len(),
        |i: int|
            if 0 <= i < entries.len() {
                written_field(entries[i].0, written(entries[i].1))
            } else {
                Seq::empty()
            },
    )
}

/// The items of a list as they are written.
pub open spec fn written_items(values: Seq<Node>) -> Seq<Seq<char>>
    decreases values,
{
    Seq::new(
        values.len(),
        |i: int|
            if 0 <= i < values.len() {
                written(values[i])
            } else {
                Seq::empty()
            },
    )
}

} // verus!
