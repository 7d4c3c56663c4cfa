//! Reading and writing quest files.

use crate::compose;
use crate::compose::hex_number;
use crate::notation;
use crate::notation_laws;
use crate::table;
use crate::table::TextMap;
use crate::text;
use crate::text::{chars_of, part};
use vstd::prelude::*;

verus! {

/// `char::from_u32`: the character with the given code point, for every number that is one.
pub assume_specification[ char::from_u32 ](n: u32) -> (r: Option<char>)
    ensures
        r == notation::code_point(n as int),
;

// ---------------------------------------------------------------------------
// Values
// ---------------------------------------------------------------------------

/// A value of a quest file: named fields, a list, or a text.
#[derive(Debug, PartialEq, Eq)]
pub enum Value {
    Compound(TextMap<Value>),
    List(Vec<Value>),
    Scalar(String),
}

/// The mathematical form of a value.
pub open spec fn node(v: Value) -> notation::Node
    decreases v,
{
    match v {
        Value::Compound(map) => notation::Node::Compound(
            Seq::new(
                map@.len(),
                |i: int|
                    if 0 <= i < map@.len() {
                        proof {
                            table::lemma_value_smaller(map, i);
                        }
                        (map@[i].0, node(map@[i].1))
                    } else {
                        arbitrary()
                    },
            ),
        ),
        Value::List(list) => notation::Node::List(
            Seq::new(
                list@.len(),
                |i: int|
                    if 0 <= i < list@.len() {
                        node(list@[i])
                    } else {
                        arbitrary()
                    },
            ),
        ),
        Value::Scalar(s) => notation::Node::Scalar(s@),
    }
}

impl View for Value {
    type V = notation::Node;

    open spec fn view(&self) -> notation::Node {
        node(*self)
    }
}

/// The mathematical forms of the entries of a map.
pub open spec fn nodes_of(map: Seq<(Seq<char>, Value)>) -> Seq<(Seq<char>, notation::Node)> {
    table::mapped(map, |v: Value| v@)
}

/// The mathematical forms of the items of a list.
pub open spec fn nodes_in(list: Seq<Value>) -> Seq<notation::Node> {
    Seq::new(list.len(), |i: int| list[i]@)
}

pub proof fn lemma_view(v: Value)
    ensures
        match v {
            Value::Compound(map) => v@ == notation::Node::Compound(nodes_of(map@)),
            Value::List(list) => v@ == notation::Node::List(nodes_in(list@)),
            Value::Scalar(s) => v@ == notation::Node::Scalar(s@),
        },
{
    match v {
        Value::Compound(map) => {
            assert(v@->Compound_0 =~= nodes_of(map@));
        },
        Value::List(list) => {
            assert(v@->List_0 =~= nodes_in(list@));
        },
        Value::Scalar(_) => {},
    }
}

/// The node under a key.
pub open spec fn field(n: notation::Node, key: Seq<char>) -> Option<notation::Node> {
    match n {
        notation::Node::Compound(entries) => table::lookup(entries, key),
        _ => None,
    }
}

impl Value {
    /// The value under a key of a compound.
    pub fn get(&self, key: &str) -> (r: Option<&Value>)
        ensures
            match r {
                Some(value) => field(self@, key@) == Some(value@),
                None => field(self@, key@) is None,
            },
    {
        match self {
            Value::Compound(map) => {
                proof {
                    lemma_view(*self);
                    table::lemma_mapped(map@, |v: Value| v@, key@);
                }
                map.get(key)
            },
            _ => None,
        }
    }

    /// The fields of a compound.
    pub fn as_compound(&self) -> (r: Option<&TextMap<Value>>)
        ensures
            match r {
                Some(map) => *self == Value::Compound(*map),
                None => !(*self is Compound),
            },
    {
        match self {
            Value::Compound(map) => Some(map),
            _ => None,
        }
    }

    /// The fields of a compound, to be changed.
    pub fn as_compound_mut(&mut self) -> (r: Option<&mut TextMap<Value>>)
        ensures
            match r {
                Some(map) => *old(self) == Value::Compound(*map) && *final(self)
                    == Value::Compound(*final(map)),
                None => !(*old(self) is Compound) && *final(self) == *old(self),
            },
    {
        match self {
            Value::Compound(map) => Some(map),
            _ => None,
        }
    }

    /// The items of a list.
    pub fn as_list(&self) -> (r: Option<&[Value]>)
        ensures
            match r {
                Some(list) => *self matches Value::List(v) && v@ == list@,
                None => !(*self is List),
            },
    {
        match self {
            Value::List(list) => Some(list.as_slice()),
            _ => None,
        }
    }

    /// The text of a scalar.
    pub fn as_str(&self) -> (r: Option<&str>)
        ensures
            match r {
                Some(s) => self@ == notation::Node::Scalar(s@),
                None => !(self@ is Scalar),
            },
    {
        match self {
            Value::Scalar(s) => Some(s.as_str()),
            _ => None,
        }
    }
}


// ---------------------------------------------------------------------------
// Copying
// ---------------------------------------------------------------------------

impl TextMap<Value> {
    /// A copy of the fields.
    pub fn copy(&self) -> (r: TextMap<Value>)
        ensures
            nodes_of(r@) == nodes_of(self@),
        decreases self,
    {
        let mut r: TextMap<Value> = TextMap::new();
        let n: usize = self.len();
        let mut i: usize = 0;
        while i < n
            invariant
                i <= n == self@.len(),
                r@.len() == i,
                table::ordered(self@),
                forall|j: int|
                    0 <= j < i ==> (#[trigger] r@[j]).0 == self@[j].0 && r@[j].1@ == self@[j].1@,
            decreases n - i,
        {
            let ghost key = self@[i as int].0;
            proof {
                table::lemma_value_smaller(*self, i as int);
                table::lemma_upsert_last(self@, r@, i as int);
            }
            r.insert(self.key_at(i).to_owned(), self.value_at(i).copy());
            i += 1;
        }
        assert(nodes_of(r@) =~= nodes_of(self@));
        r
    }
}

/// A copy of the items of a list.
pub fn copy_values(list: &Vec<Value>) -> (r: Vec<Value>)
    ensures
        nodes_in(r@) == nodes_in(list@),
    decreases list,
{
    let mut r: Vec<Value> = Vec::new();
    let mut i: usize = 0;
    while i < list.len()
        invariant
            i <= list@.len(),
            r@.len() == i,
            forall|j: int| 0 <= j < i ==> (#[trigger] r@[j])@ == list@[j]@,
        decreases list@.len() - i,
    {
        assert(decreases_to!(list => list@));
        r.push(list[i].copy());
        i += 1;
    }
    assert(nodes_in(r@) =~= nodes_in(list@));
    r
}

impl Value {
    /// A copy of the value.
    pub fn copy(&self) -> (r: Value)
        ensures
            r@ == self@,
        decreases self,
    {
        let r = match self {
            Value::Compound(map) => Value::Compound(map.copy()),
            Value::List(list) => Value::List(copy_values(list)),
            Value::Scalar(s) => Value::Scalar(s.clone()),
        };
        proof {
            lemma_view(*self);
            lemma_view(r);
        }
        r
    }
}

impl Clone for Value {
    fn clone(&self) -> (r: Self)
        ensures
            r@ == self@,
    {
        self.copy()
    }
}

// ---------------------------------------------------------------------------
// Failures
// ---------------------------------------------------------------------------

/// Why a text could not be read, and where.
#[derive(Debug, Clone, PartialEq, Eq)]
pub struct ParseError {
    message: String,
    line: usize,
    column: usize,
}

impl ParseError {
    pub closed spec fn said(&self) -> Seq<char> {
        self.message@
    }

    pub closed spec fn line_number(&self) -> int {
        self.line as int
    }

    pub closed spec fn column_number(&self) -> int {
        self.column as int
    }

    /// The error tells of this fault in this text.
    pub open spec fn tells(&self, s: Seq<char>, fault: notation::Fault) -> bool {
        &&& self.said() == fault.0
        &&& self.line_number() == notation::line_of(s, fault.1)
        &&& self.column_number() == notation::column_of(s, fault.1)
    }

    /// The message with the place that it speaks of.
    pub fn message(&self) -> (r: String)
        ensures
            r@ == error_text(self.said(), self.line_number(), self.column_number()),
    {
        let mut r = self.message.clone();
        r.append(" (строка ");
        r.append(compose::number(self.line as u128).as_str());
        r.append(", столбец ");
        r.append(compose::number(self.column as u128).as_str());
        r.append(")");
        r
    }
}

/// A message with the place that it speaks of.
pub open spec fn error_text(message: Seq<char>, line: int, column: int) -> Seq<char> {
    message + " (строка "@ + compose::decimal(line as nat) + ", столбец "@ + compose::decimal(
        column as nat,
    ) + ")"@
}

// ---------------------------------------------------------------------------
// The parser
// ---------------------------------------------------------------------------

/// A text and the position up to which it has been read.
struct Parser {
    chars: Vec<char>,
    offset: usize,
    line: usize,
    column: usize,
}

impl Parser {
    spec fn wf(&self) -> bool {
        &&& self.offset <= self.chars@.len() < usize::MAX
        &&& self.line == notation::line_of(self.chars@, self.offset as int)
        &&& self.column == notation::column_of(self.chars@, self.offset as int)
    }

    /// The parser reads on in the same text.
    spec fn goes_on(&self, before: &Parser) -> bool {
        self.wf() && self.chars@ == before.chars@
    }

    fn new(source: &str) -> (r: Parser)
        ensures
            r.wf(),
            r.chars@ == source@,
            r.offset == 0,
    {
        Parser { chars: chars_of(source), offset: 0, line: 1, column: 1 }
    }

    fn peek(&self) -> (r: Option<char>)
        ensures
            match r {
                Some(c) => self.offset < self.chars@.len() && c == self.chars@[self.offset as int],
                None => self.offset >= self.chars@.len(),
            },
    {
        if self.offset < self.chars.len() {
            Some(self.chars[self.offset])
        } else {
            None
        }
    }

    fn peek_at(&self, distance: usize) -> (r: Option<char>)
        requires
            self.wf(),
            distance <= 1,
        ensures
            match r {
                Some(c) => self.offset + distance < self.chars@.len() && c
                    == self.chars@[self.offset + distance],
                None => self.offset + distance >= self.chars@.len(),
            },
    {
        if self.offset + distance < self.chars.len() {
            Some(self.chars[self.offset + distance])
        } else {
            None
        }
    }

    fn bump(&mut self) -> (r: Option<char>)
        requires
            old(self).wf(),
        ensures
            final(self).goes_on(old(self)),
            match r {
                Some(c) => old(self).offset < old(self).chars@.len() && c
                    == old(self).chars@[old(self).offset as int] && final(self).offset == old(
                    self,
                ).offset + 1,
                None => old(self).offset == old(self).chars@.len() && final(self).offset == old(
                    self,
                ).offset,
            },
    {
        if self.offset < self.chars.len() {
            let c = self.chars[self.offset];
            proof {
                notation::lemma_place_bounds(self.chars@, self.offset as int);
            }
            self.offset = self.offset + 1;
            if c == '\n' {
                self.line = self.line + 1;
                self.column = 1;
            } else {
                self.column = self.column + 1;
            }
            Some(c)
        } else {
            None
        }
    }

    fn error(&self, message: String) -> (r: ParseError)
        requires
            self.wf(),
        ensures
            r.tells(self.chars@, (message@, self.offset as int)),
    {
        ParseError { message, line: self.line, column: self.column }
    }

    fn consume_if(&mut self, expected: char) -> (r: bool)
        requires
            old(self).wf(),
        ensures
            final(self).goes_on(old(self)),
            r == notation::char_at(old(self).chars@, old(self).offset as int, expected),
            final(self).offset == old(self).offset + (if r {
                1int
            } else {
                0
            }),
    {
        if self.peek() == Some(expected) {
            self.bump();
            true
        } else {
            false
        }
    }

    fn skip_line(&mut self)
        requires
            old(self).wf(),
        ensures
            final(self).goes_on(old(self)),
            final(self).offset == notation::line_end(old(self).chars@, old(self).offset as int),
    {
        let ghost s = self.chars@;
        let ghost end = notation::line_end(s, self.offset as int);
        loop
            invariant_except_break
                end == notation::line_end(s, self.offset as int),
            invariant
                self.wf(),
                self.chars@ == s,
            ensures
                self.wf(),
                self.chars@ == s,
                self.offset == end,
            decreases s.len() - self.offset,
        {
            match self.bump() {
                Some(c) => {
                    if c == '\n' {
                        break;
                    }
                },
                None => {
                    break;
                },
            }
        }
    }

    #[verifier::loop_isolation(false)]
    fn skip_block_comment(&mut self) -> (r: bool)
        requires
            old(self).wf(),
        ensures
            final(self).goes_on(old(self)),
            match notation::comment_end(old(self).chars@, old(self).offset as int) {
                Some(end) => r && final(self).offset == end,
                None => !r && final(self).offset == old(self).chars@.len(),
            },
    {
        let ghost s = self.chars@;
        let ghost end = notation::comment_end(s, self.offset as int);
        while !(self.peek() == Some('*') && self.peek_at(1) == Some('/'))
            invariant
                self.wf(),
                self.chars@ == s,
                end == notation::comment_end(s, self.offset as int),
            decreases s.len() - self.offset,
        {
            if self.bump().is_none() {
                return false;
            }
        }
        self.bump();
        self.bump();
        true
    }

    #[verifier::loop_isolation(false)]
    fn skip_whitespace_and_comments(&mut self) -> (r: Result<(), ParseError>)
        requires
            old(self).wf(),
        ensures
            final(self).goes_on(old(self)),
            match (r, notation::gap(old(self).chars@, old(self).offset as int)) {
                (Ok(_), Ok(j)) => final(self).offset == j,
                (Err(e), Err(fault)) => e.tells(old(self).chars@, fault),
                _ => false,
            },
    {
        let ghost s = self.chars@;
        let ghost result = notation::gap(s, self.offset as int);
        loop
            invariant
                self.wf(),
                self.chars@ == s,
                result == notation::gap(s, self.offset as int),
            decreases s.len() - self.offset,
        {
            let c = match self.peek() {
                Some(c) => c,
                None => {
                    return Ok(());
                },
            };
            let next = self.peek_at(1);
            if text::is_whitespace(c) {
                self.bump();
            } else if (c == '/' && next == Some('/')) || c == '#' {
                proof {
                    notation::lemma_line_end(s, self.offset as int);
                }
                self.skip_line();
            } else if c == '/' && next == Some('*') {
                self.bump();
                self.bump();
                proof {
                    notation::lemma_comment_end(s, self.offset as int);
                }
                if !self.skip_block_comment() {
                    return Err(self.error("незакрытый блочный комментарий".to_owned()));
                }
            } else {
                return Ok(());
            }
        }
    }

    #[verifier::loop_isolation(false)]
    fn skip_trivia(&mut self) -> (r: Result<(), ParseError>)
        requires
            old(self).wf(),
        ensures
            final(self).goes_on(old(self)),
            match (r, notation::trivia(old(self).chars@, old(self).offset as int)) {
                (Ok(_), Ok(j)) => final(self).offset == j,
                (Err(e), Err(fault)) => e.tells(old(self).chars@, fault),
                _ => false,
            },
    {
        let ghost s = self.chars@;
        let ghost result = notation::trivia(s, self.offset as int);
        loop
            invariant
                self.wf(),
                self.chars@ == s,
                result == notation::trivia(s, self.offset as int),
            decreases s.len() - self.offset,
        {
            proof {
                notation::lemma_gap(s, self.offset as int);
            }
            match self.skip_whitespace_and_comments() {
                Ok(_) => {},
                Err(e) => {
                    return Err(e);
                },
            }
            if !self.consume_if(',') {
                return Ok(());
            }
        }
    }

    fn expect_colon(&mut self) -> (r: Result<(), ParseError>)
        requires
            old(self).wf(),
        ensures
            final(self).goes_on(old(self)),
            match (r, notation::colon(old(self).chars@, old(self).offset as int)) {
                (Ok(_), Ok(j)) => final(self).offset == j,
                (Err(e), Err(fault)) => e.tells(old(self).chars@, fault),
                _ => false,
            },
    {
        match self.skip_whitespace_and_comments() {
            Ok(_) => {},
            Err(e) => {
                return Err(e);
            },
        }
        self.expect(':')
    }

    fn expect(&mut self, expected: char) -> (r: Result<(), ParseError>)
        requires
            old(self).wf(),
        ensures
            final(self).goes_on(old(self)),
            ({
                let s = old(self).chars@;
                let i = old(self).offset as int;
                match r {
                    Ok(_) => notation::char_at(s, i, expected) && final(self).offset == i + 1,
                    Err(e) => if i == s.len() {
                        e.tells(s, (notation::expected_at_end(expected), i))
                    } else {
                        s[i] != expected && e.tells(
                            s,
                            (notation::expected_before(expected, s[i]), i + 1),
                        )
                    },
                }
            }),
    {
        match self.bump() {
            Some(actual) => {
                if actual == expected {
                    Ok(())
                } else {
                    let mut message = "ожидался символ '".to_owned();
                    message.push(expected);
                    message.append("', найден '");
                    message.push(actual);
                    message.push('\'');
                    Err(self.error(message))
                }
            },
            None => {
                let mut message = "ожидался символ '".to_owned();
                message.push(expected);
                message.append("', найден конец файла");
                Err(self.error(message))
            },
        }
    }

    #[verifier::loop_isolation(false)]
    fn parse_unicode(&mut self) -> (r: Result<char, ParseError>)
        requires
            old(self).wf(),
        ensures
            final(self).goes_on(old(self)),
            match (r, notation::unicode(old(self).chars@, old(self).offset as int, 4, 0)) {
                (Ok(c), Ok((d, j))) => c == d && final(self).offset == j,
                (Err(e), Err(fault)) => e.tells(old(self).chars@, fault),
                _ => false,
            },
    {
        let ghost s = self.chars@;
        let ghost result = notation::unicode(s, self.offset as int, 4, 0);
        let mut value: u32 = 0;
        let mut left: usize = 4;
        while left > 0
            invariant
                self.wf(),
                self.chars@ == s,
                left <= 4,
                left == 4 ==> value == 0,
                left == 3 ==> value < 0x10,
                left == 2 ==> value < 0x100,
                left == 1 ==> value < 0x1000,
                result == notation::unicode(s, self.offset as int, left as nat, value as int),
            decreases left,
        {
            let digit: Option<u32> = match self.bump() {
                Some(c) => text::to_hex_value(c),
                None => None,
            };
            match digit {
                Some(d) => {
                    value = value * 16 + d;
                },
                None => {
                    return Err(self.error("некорректная Unicode-последовательность".to_owned()));
                },
            }
            left = left - 1;
        }
        match char::from_u32(value) {
            Some(c) => Ok(c),
            None => Err(self.error("некорректный Unicode-символ".to_owned())),
        }
    }

    fn parse_escape(&mut self) -> (r: Result<char, ParseError>)
        requires
            old(self).wf(),
        ensures
            final(self).goes_on(old(self)),
            match (r, notation::escape(old(self).chars@, old(self).offset as int)) {
                (Ok(c), Ok((d, j))) => c == d && final(self).offset == j,
                (Err(e), Err(fault)) => e.tells(old(self).chars@, fault),
                _ => false,
            },
    {
        match self.bump() {
            Some(c) => {
                if c == 'b' {
                    Ok('\u{0008}')
                } else if c == 'f' {
                    Ok('\u{000C}')
                } else if c == 'n' {
                    Ok('\n')
                } else if c == 'r' {
                    Ok('\r')
                } else if c == 't' {
                    Ok('\t')
                } else if c == 'u' {
                    self.parse_unicode()
                } else {
                    Ok(c)
                }
            },
            None => Err(self.error("незавершённая escape-последовательность".to_owned())),
        }
    }

    #[verifier::loop_isolation(false)]
    fn parse_quoted(&mut self) -> (r: Result<String, ParseError>)
        requires
            old(self).wf(),
            old(self).offset < old(self).chars@.len(),
        ensures
            final(self).goes_on(old(self)),
            match (
                r,
                notation::quoted(
                    old(self).chars@,
                    old(self).offset + 1,
                    old(self).chars@[old(self).offset as int],
                    Seq::empty(),
                ),
            ) {
                (Ok(t), Ok((u, j))) => t@ == u && final(self).offset == j,
                (Err(e), Err(fault)) => e.tells(old(self).chars@, fault),
                _ => false,
            },
    {
        let ghost s = self.chars@;
        let quote = self.chars[self.offset];
        let ghost result = notation::quoted(s, self.offset + 1, quote, Seq::empty());
        self.bump();
        let mut text = String::new();
        loop
            invariant
                self.wf(),
                self.chars@ == s,
                result == notation::quoted(s, self.offset as int, quote, text@),
            decreases s.len() - self.offset,
        {
            match self.bump() {
                Some(c) => {
                    if c == quote {
                        return Ok(text);
                    }
                    if c == '\\' {
                        proof {
                            notation::lemma_escape(s, self.offset as int);
                        }
                        match self.parse_escape() {
                            Ok(d) => {
                                text.push(d);
                            },
                            Err(e) => {
                                return Err(e);
                            },
                        }
                    } else {
                        text.push(c);
                    }
                },
                None => {
                    return Err(self.error("незакрытая строка".to_owned()));
                },
            }
        }
    }

    fn parse_key(&mut self) -> (r: Result<String, ParseError>)
        requires
            old(self).wf(),
        ensures
            final(self).goes_on(old(self)),
            match (r, notation::key(old(self).chars@, old(self).offset as int)) {
                (Ok(t), Ok((u, j))) => t@ == u && final(self).offset == j,
                (Err(e), Err(fault)) => e.tells(old(self).chars@, fault),
                _ => false,
            },
    {
        match self.peek() {
            Some(c) => {
                if c == '"' || c == '\'' {
                    return self.parse_quoted();
                }
            },
            None => {
                return Err(self.error("неожиданный конец объекта".to_owned()));
            },
        }
        let ghost s = self.chars@;
        let start: usize = self.offset;
        let ghost end = notation::key_end(s, start as int);
        loop
            invariant
                self.wf(),
                self.chars@ == s,
                start <= self.offset,
                end == notation::key_end(s, self.offset as int),
            ensures
                self.wf(),
                self.chars@ == s,
                start <= self.offset == end,
            decreases s.len() - self.offset,
        {
            match self.peek() {
                Some(c) => {
                    if text::is_whitespace(c) || c == ':' || c == ',' || c == '{' || c == '}' || c
                        == '[' || c == ']' {
                        break;
                    }
                },
                None => {
                    break;
                },
            }
            self.bump();
        }
        if self.offset == start {
            Err(self.error("ожидалось имя поля".to_owned()))
        } else {
            Ok(part(&self.chars, start, self.offset))
        }
    }

    fn parse_bare_value(&mut self) -> (r: Result<String, ParseError>)
        requires
            old(self).wf(),
        ensures
            final(self).goes_on(old(self)),
            match (r, notation::bare(old(self).chars@, old(self).offset as int)) {
                (Ok(t), Ok((u, j))) => t@ == u && final(self).offset == j,
                (Err(e), Err(fault)) => e.tells(old(self).chars@, fault),
                _ => false,
            },
    {
        let ghost s = self.chars@;
        let start: usize = self.offset;
        let ghost end = notation::bare_end(s, start as int);
        loop
            invariant
                self.wf(),
                self.chars@ == s,
                start <= self.offset,
                end == notation::bare_end(s, self.offset as int),
            ensures
                self.wf(),
                self.chars@ == s,
                start <= self.offset == end,
            decreases s.len() - self.offset,
        {
            match self.peek() {
                Some(c) => {
                    if text::is_whitespace(c) || c == ',' || c == '}' || c == ']' {
                        break;
                    }
                },
                None => {
                    break;
                },
            }
            self.bump();
        }
        if self.offset == start {
            Err(self.error("ожидалось значение".to_owned()))
        } else {
            Ok(part(&self.chars, start, self.offset))
        }
    }

    fn parse_value(&mut self) -> (r: Result<Value, ParseError>)
        requires
            old(self).wf(),
        ensures
            final(self).goes_on(old(self)),
            match (r, notation::value(old(self).chars@, old(self).offset as int)) {
                (Ok(v), Ok((n, j))) => v@ == n && final(self).offset == j,
                (Err(e), Err(fault)) => e.tells(old(self).chars@, fault),
                _ => false,
            },
        decreases old(self).chars@.len() - old(self).offset, 0int,
    {
        proof {
            notation::lemma_trivia(self.chars@, self.offset as int);
        }
        match self.skip_trivia() {
            Ok(_) => {},
            Err(e) => {
                return Err(e);
            },
        }
        match self.peek() {
            Some(c) => {
                if c == '{' {
                    self.bump();
                    self.parse_compound()
                } else if c == '[' {
                    self.bump();
                    self.parse_list()
                } else if c == '"' || c == '\'' {
                    match self.parse_quoted() {
                        Ok(t) => Ok(Value::Scalar(t)),
                        Err(e) => Err(e),
                    }
                } else {
                    match self.parse_bare_value() {
                        Ok(t) => Ok(Value::Scalar(t)),
                        Err(e) => Err(e),
                    }
                }
            },
            None => Err(self.error("ожидалось значение".to_owned())),
        }
    }

    /// The fields of a compound behind its opening brace.
    #[verifier::loop_isolation(false)]
    fn parse_compound(&mut self) -> (r: Result<Value, ParseError>)
        requires
            old(self).wf(),
        ensures
            final(self).goes_on(old(self)),
            match (r, notation::fields(old(self).chars@, old(self).offset as int, Seq::empty())) {
                (Ok(v), Ok((n, j))) => v@ == n && final(self).offset == j,
                (Err(e), Err(fault)) => e.tells(old(self).chars@, fault),
                _ => false,
            },
        decreases old(self).chars@.len() - old(self).offset, 1int,
    {
        let ghost s = self.chars@;
        let ghost result = notation::fields(s, self.offset as int, Seq::empty());
        let ghost start = self.offset;
        let mut values: TextMap<Value> = TextMap::new();
        assert(nodes_of(values@) =~= Seq::empty());
        loop
            invariant
                self.wf(),
                self.chars@ == s,
                start <= self.offset,
                start == old(self).offset,
                s == old(self).chars@,
                result == notation::fields(s, self.offset as int, nodes_of(values@)),
            decreases s.len() - self.offset,
        {
            proof {
                notation::lemma_trivia(s, self.offset as int);
            }
            match self.skip_trivia() {
                Ok(_) => {},
                Err(e) => {
                    return Err(e);
                },
            }
            if self.consume_if('}') {
                let v = Value::Compound(values);
                proof {
                    lemma_view(v);
                }
                return Ok(v);
            }
            proof {
                notation::lemma_key(s, self.offset as int);
            }
            let key = match self.parse_key() {
                Ok(key) => key,
                Err(e) => {
                    return Err(e);
                },
            };
            proof {
                notation::lemma_colon(s, self.offset as int);
            }
            match self.expect_colon() {
                Ok(_) => {},
                Err(e) => {
                    return Err(e);
                },
            }
            proof {
                notation::lemma_value(s, self.offset as int);
            }
            let value = match self.parse_value() {
                Ok(value) => value,
                Err(e) => {
                    return Err(e);
                },
            };
            proof {
                table::lemma_mapped(values@, |v: Value| v@, key@);
            }
            values.insert(key, value);
        }
    }

    /// The items of a list behind its opening bracket.
    #[verifier::loop_isolation(false)]
    fn parse_list(&mut self) -> (r: Result<Value, ParseError>)
        requires
            old(self).wf(),
        ensures
            final(self).goes_on(old(self)),
            match (
                r,
                match notation::list_start(old(self).chars@, old(self).offset as int) {
                    Ok(k) => notation::items(old(self).chars@, k, Seq::empty()),
                    Err(fault) => Err(fault),
                },
            ) {
                (Ok(v), Ok((n, j))) => v@ == n && final(self).offset == j,
                (Err(e), Err(fault)) => e.tells(old(self).chars@, fault),
                _ => false,
            },
        decreases old(self).chars@.len() - old(self).offset, 1int,
    {
        let ghost s = self.chars@;
        proof {
            notation::lemma_gap(s, self.offset as int);
            notation::lemma_list_start(s, self.offset as int);
        }
        match self.skip_whitespace_and_comments() {
            Ok(_) => {},
            Err(e) => {
                return Err(e);
            },
        }
        match self.peek() {
            Some(c) => {
                if c == 'B' || c == 'I' || c == 'L' || c == 'b' || c == 'i' || c == 'l' {
                    let offset: usize = self.offset;
                    let line: usize = self.line;
                    let column: usize = self.column;
                    self.bump();
                    match self.skip_whitespace_and_comments() {
                        Ok(_) => {},
                        Err(e) => {
                            return Err(e);
                        },
                    }
                    if !self.consume_if(';') {
                        self.offset = offset;
                        self.line = line;
                        self.column = column;
                    }
                }
            },
            None => {},
        }
        let ghost result = notation::items(s, self.offset as int, Seq::empty());
        let ghost start = self.offset;
        let mut values: Vec<Value> = Vec::new();
        assert(nodes_in(values@) =~= Seq::empty());
        loop
            invariant
                self.wf(),
                self.chars@ == s,
                old(self).offset <= start <= self.offset,
                s == old(self).chars@,
                result == notation::items(s, self.offset as int, nodes_in(values@)),
            decreases s.len() - self.offset,
        {
            proof {
                notation::lemma_trivia(s, self.offset as int);
            }
            match self.skip_trivia() {
                Ok(_) => {},
                Err(e) => {
                    return Err(e);
                },
            }
            if self.consume_if(']') {
                let v = Value::List(values);
                proof {
                    lemma_view(v);
                }
                return Ok(v);
            }
            proof {
                notation::lemma_value(s, self.offset as int);
            }
            match self.parse_value() {
                Ok(value) => {
                    assert(nodes_in(values@.push(value)) =~= nodes_in(values@).push(value@));
                    values.push(value);
                },
                Err(e) => {
                    return Err(e);
                },
            }
        }
    }

    fn parse(&mut self) -> (r: Result<Value, ParseError>)
        requires
            old(self).wf(),
            old(self).offset == 0,
        ensures
            match (r, notation::document(old(self).chars@)) {
                (Ok(v), Ok(n)) => v@ == n,
                (Err(e), Err(fault)) => e.tells(old(self).chars@, fault),
                _ => false,
            },
    {
        let value = match self.parse_value() {
            Ok(value) => value,
            Err(e) => {
                return Err(e);
            },
        };
        match self.skip_trivia() {
            Ok(_) => {},
            Err(e) => {
                return Err(e);
            },
        }
        if self.peek().is_some() {
            return Err(self.error("лишние данные после корневого значения".to_owned()));
        }
        Ok(value)
    }
}

/// The value that a text means.
pub fn parse(source: &str) -> (r: Result<Value, ParseError>)
    ensures
        match (r, notation::document(source@)) {
            (Ok(v), Ok(n)) => v@ == n,
            (Err(e), Err(fault)) => e.tells(source@, fault),
            _ => false,
        },
{
    let mut parser = Parser::new(source);
    parser.parse()
}

// ---------------------------------------------------------------------------
// Writing
// ---------------------------------------------------------------------------

/// The text between quotes.
fn quote(text: &str) -> (r: String)
    ensures
        r@ == notation::quotation(text@),
{
    let mut r = String::new();
    r.push('"');
    assert(r@ =~= seq!['"'] + notation::all_escaped(text@.take(0)));
    for c in it: text.chars()
        invariant
            it.seq() == text@,
            r@ == seq!['"'] + notation::all_escaped(text@.take(it.index() as int)),
    {
        let ghost before = r@;
        let ghost after = text@.take(it.index() + 1);
        assert(after.drop_last() =~= text@.take(it.index() as int));
        if c == '"' || c == '\\' {
            r.push('\\');
            r.push(c);
        } else if c == '\n' {
            r.push('\\');
            r.push('n');
        } else if c == '\r' {
            r.push('\\');
            r.push('r');
        } else if c == '\t' {
            r.push('\\');
            r.push('t');
        } else if c == '\u{0008}' {
            r.push('\\');
            r.push('b');
        } else if c == '\u{000C}' {
            r.push('\\');
            r.push('f');
        } else if text::is_control(c) {
            r.push('\\');
            r.push('u');
            r.append(hex_number(c as u32 as u64, 4).as_str());
        } else {
            r.push(c);
        }
        assert(r@ =~= before + notation::escaped(c));
    }
    assert(text@.take(text@.len() as int) =~= text@);
    r.push('"');
    assert(r@ =~= notation::quotation(text@));
    r
}

/// Whether a name needs no quotes.
fn is_plain_name(name: &str) -> (r: bool)
    ensures
        r == notation::is_plain_name(name@),
{
    let chars = chars_of(name);
    let mut i: usize = 0;
    while i < chars.len()
        invariant
            i <= chars@.len(),
            chars@ == name@,
            forall|j: int| 0 <= j < i ==> notation::is_name_char(#[trigger] name@[j]),
        decreases chars@.len() - i,
    {
        let c = chars[i];
        if !(text::is_ascii_alphanumeric(c) || c == '_' || c == '-' || c == '.' || c == '+') {
            assert(!notation::is_name_char(name@[i as int]));
            return false;
        }
        i += 1;
    }
    chars.len() > 0
}

/// The name of a field as it is written.
pub fn stringify_key(key: &str) -> (r: String)
    ensures
        r@ == notation::written_key(key@),
{
    if is_plain_name(key) {
        key.to_owned()
    } else {
        quote(key)
    }
}

fn digits_end(chars: &Vec<char>, from: usize) -> (r: usize)
    requires
        from <= chars@.len(),
    ensures
        r == notation::digits_end(chars@, from as int),
        from <= r <= chars@.len(),
{
    let mut i: usize = from;
    while i < chars.len() && text::is_ascii_digit(chars[i])
        invariant
            from <= i <= chars@.len(),
            notation::digits_end(chars@, from as int) == notation::digits_end(chars@, i as int),
        decreases chars@.len() - i,
    {
        i += 1;
    }
    i
}

fn after_sign(chars: &Vec<char>, i: usize) -> (r: usize)
    requires
        i <= chars@.len(),
    ensures
        r == notation::after_sign(chars@, i as int),
        i <= r <= chars@.len(),
{
    if i < chars.len() && (chars[i] == '+' || chars[i] == '-') {
        i + 1
    } else {
        i
    }
}

fn is_decimal_number(chars: &Vec<char>) -> (r: bool)
    ensures
        r == notation::is_decimal_number(chars@),
{
    let whole: usize = digits_end(chars, 0);
    let point = whole < chars.len() && chars[whole] == '.';
    let end: usize = if point {
        digits_end(chars, whole + 1)
    } else {
        whole
    };
    let digits: usize = if point {
        end - 1
    } else {
        end
    };
    if digits == 0 {
        return false;
    }
    if end == chars.len() {
        return true;
    }
    if chars[end] != 'e' && chars[end] != 'E' {
        return false;
    }
    let exponent: usize = after_sign(chars, end + 1);
    let last: usize = digits_end(chars, exponent);
    last > exponent && last == chars.len()
}

/// Whether a text reads as a floating-point number.
pub fn is_number(text: &str) -> (r: bool)
    ensures
        r == notation::is_number(text@),
{
    let chars = chars_of(text);
    let start: usize = after_sign(&chars, 0);
    let rest = part(&chars, start, chars.len());
    assert(rest@ =~= text@.skip(start as int));
    proof {
        reveal_strlit("inf");
        reveal_strlit("infinity");
        reveal_strlit("nan");
        assert(compose::lowered("inf"@) =~= "inf"@);
        assert(compose::lowered("infinity"@) =~= "infinity"@);
        assert(compose::lowered("nan"@) =~= "nan"@);
    }
    compose::same_ignoring_ascii_case(rest.as_str(), "inf")
        || compose::same_ignoring_ascii_case(rest.as_str(), "infinity")
        || compose::same_ignoring_ascii_case(rest.as_str(), "nan") || is_decimal_number(
        &chars_of(rest.as_str()),
    )
}

/// The text without the type marks at its end.
pub fn trim_type_marks(text: &str) -> (r: String)
    ensures
        r@ == notation::without_marks(text@),
{
    let chars = chars_of(text);
    let mut end: usize = chars.len();
    assert(chars@.take(end as int) =~= text@);
    loop
        invariant
            end <= chars@.len(),
            notation::without_marks(chars@.take(end as int)) == notation::without_marks(text@),
        ensures
            end <= chars@.len(),
            chars@.take(end as int) == notation::without_marks(text@),
        decreases end,
    {
        if end == 0 {
            break;
        }
        let c = chars[end - 1];
        assert(chars@.take(end as int).drop_last() =~= chars@.take(end - 1));
        if c == 'b' || c == 'B' || c == 's' || c == 'S' || c == 'l' || c == 'L' || c == 'f' || c
            == 'F' || c == 'd' || c == 'D' {
            end -= 1;
        } else {
            break;
        }
    }
    assert(chars@.subrange(0, end as int) =~= chars@.take(end as int));
    part(&chars, 0, end)
}

/// Whether a scalar is written without quotes.
pub fn is_bare_literal(text: &str) -> (r: bool)
    ensures
        r == notation::is_literal(text@),
{
    text::same(text, "true") || text::same(text, "false") || is_number(
        trim_type_marks(text).as_str(),
    )
}

/// The fields of a compound as they are written.
fn stringify_fields(map: &TextMap<Value>) -> (r: Vec<String>)
    ensures
        text::texts(r@) == notation::written_fields(nodes_of(map@)),
        notation::well_formed(notation::Node::Compound(nodes_of(map@))),
    decreases map,
{
    let n: usize = map.len();
    let mut parts: Vec<String> = Vec::new();
    let mut i: usize = 0;
    while i < n
        invariant
            i <= n == map@.len(),
            parts@.len() == i,
            forall|j: int|
                0 <= j < i ==> (#[trigger] parts@[j])@ == notation::written_field(
                    map@[j].0,
                    notation::written(map@[j].1@),
                ),
            forall|j: int| 0 <= j < i ==> notation::well_formed((#[trigger] map@[j]).1@),
        decreases n - i,
    {
        proof {
            table::lemma_value_smaller(*map, i as int);
        }
        let mut field = stringify_key(map.key_at(i));
        field.append(": ");
        field.append(stringify(map.value_at(i)).as_str());
        parts.push(field);
        i += 1;
    }
    proof {
        let entries = nodes_of(map@);
        assert(text::texts(parts@) =~= notation::written_fields(entries));
        assert forall|a: int, b: int| 0 <= a < b < entries.len() implies text::precedes(
            #[trigger] entries[a].0,
            #[trigger] entries[b].0,
        ) by {
            assert(text::precedes(map@[a].0, map@[b].0));
        }
        assert forall|j: int| 0 <= j < entries.len() implies notation::well_formed(
            #[trigger] entries[j].1,
        ) by {
            assert(notation::well_formed(map@[j].1@));
        }
    }
    parts
}

/// The items of a list as they are written.
fn stringify_items(list: &Vec<Value>) -> (r: Vec<String>)
    ensures
        text::texts(r@) == notation::written_items(nodes_in(list@)),
        notation::well_formed(notation::Node::List(nodes_in(list@))),
    decreases list,
{
    let mut parts: Vec<String> = Vec::new();
    let mut i: usize = 0;
    while i < list.len()
        invariant
            i <= list@.len(),
            parts@.len() == i,
            forall|j: int| 0 <= j < i ==> (#[trigger] parts@[j])@ == notation::written(list@[j]@),
            forall|j: int| 0 <= j < i ==> notation::well_formed((#[trigger] list@[j])@),
        decreases list@.len() - i,
    {
        assert(decreases_to!(list => list@));
        parts.push(stringify(&list[i]));
        i += 1;
    }
    proof {
        let values = nodes_in(list@);
        assert(text::texts(parts@) =~= notation::written_items(values));
        assert forall|j: int| 0 <= j < values.len() implies notation::well_formed(
            #[trigger] values[j],
        ) by {
            assert(notation::well_formed(list@[j]@));
        }
    }
    parts
}

/// The text of a value, from which `parse` gives the value back.
pub fn stringify(value: &Value) -> (r: String)
    ensures
        r@ == notation::written(value@),
        notation::well_formed(value@),
        notation::document(r@) == Ok::<notation::Node, notation::Fault>(value@),
    decreases value,
{
    proof {
        lemma_view(*value);
    }
    let r = match value {
        Value::Compound(map) => {
            let parts = stringify_fields(map);
            let mut r = "{ ".to_owned();
            r.append(compose::join(&parts, ", ").as_str());
            r.append(" }");
            r
        },
        Value::List(list) => {
            let parts = stringify_items(list);
            let mut r = "[".to_owned();
            r.append(compose::join(&parts, ", ").as_str());
            r.append("]");
            r
        },
        Value::Scalar(s) => {
            if is_bare_literal(s.as_str()) {
                s.clone()
            } else {
                quote(s.as_str())
            }
        },
    };
    proof {
        notation_laws::law_reading_gives_back_what_was_written(value@);
    }
    r
}

} // verus!
