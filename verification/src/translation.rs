//! The languages of a quest book and the texts that stand in them under keys.

use crate::compose;
use crate::compose::replace;
use crate::table;
use crate::table::TextMap;
use crate::text;
use crate::text::{chars_of, find_char, part, trim};
use vstd::prelude::*;

verus! {

// ---------------------------------------------------------------------------
// The catalog
// ---------------------------------------------------------------------------

/// The texts of a language.
pub open spec fn words(language: TextMap<String>) -> Seq<(Seq<char>, Seq<char>)> {
    table::mapped(language@, |s: String| s@)
}

/// The texts of the quest book in each language, and the language that is shown.
#[derive(Debug, Clone)]
pub struct TranslationCatalog {
    pub languages: TextMap<TextMap<String>>,
    pub active_locale: String,
}

/// The mathematical form of a catalog.
#[verifier::ext_equal]
pub ghost struct CatalogModel {
    pub languages: Seq<(Seq<char>, Seq<(Seq<char>, Seq<char>)>)>,
    pub active_locale: Seq<char>,
}

/// The languages with their texts.
pub open spec fn languages_of(languages: TextMap<TextMap<String>>) -> Seq<
    (Seq<char>, Seq<(Seq<char>, Seq<char>)>),
> {
    table::mapped(languages@, |m: TextMap<String>| words(m))
}

impl View for TranslationCatalog {
    type V = CatalogModel;

    open spec fn view(&self) -> CatalogModel {
        CatalogModel {
            languages: languages_of(self.languages),
            active_locale: self.active_locale@,
        }
    }
}

/// A catalog without languages.
pub open spec fn empty_catalog() -> CatalogModel {
    CatalogModel { languages: Seq::empty(), active_locale: "en_us"@ }
}

impl Default for TranslationCatalog {
    fn default() -> (r: Self)
        ensures
            r@ == empty_catalog(),
    {
        let r = TranslationCatalog { languages: TextMap::new(), active_locale: "en_us".to_owned() };
        assert(r@.languages =~= Seq::empty());
        r
    }
}

// ---------------------------------------------------------------------------
// Keys in braces
// ---------------------------------------------------------------------------

/// The key of a text that is nothing but a key in braces.
pub open spec fn key_of(value: Seq<char>) -> Option<Seq<char>> {
    let s = text::trimmed(value);
    if s.len() > 2 && s[0] == '{' && s.last() == '}' && !s.subrange(1, s.len() - 1).contains('{')
        && !s.subrange(1, s.len() - 1).contains('}') {
        Some(s.subrange(1, s.len() - 1))
    } else {
        None
    }
}

/// The key of a text that is nothing but a key in braces.
pub fn translation_key(value: &str) -> (r: Option<String>)
    ensures
        text::opt_text(r) == key_of(value@),
{
    let trimmed = trim(value);
    let s = chars_of(trimmed.as_str());
    if s.len() <= 2 || s[0] != '{' || s[s.len() - 1] != '}' {
        return None;
    }
    let key = part(&s, 1, s.len() - 1);
    let inner = chars_of(key.as_str());
    proof {
        text::lemma_place_of(inner@, '{', 0);
        text::lemma_place_of(inner@, '}', 0);
    }
    if find_char(&inner, '{', 0).is_some() || find_char(&inner, '}', 0).is_some() {
        return None;
    }
    Some(key)
}

/// The text of a key in a language that may be missing.
pub open spec fn word(language: Option<Seq<(Seq<char>, Seq<char>)>>, key: Seq<char>) -> Option<
    Seq<char>,
> {
    match language {
        Some(entries) => table::lookup(entries, key),
        None => None,
    }
}

/// What stands for a key in braces: its text in the selected language, else in the other one,
/// else the key in its braces.
pub open spec fn substitute(
    key: Seq<char>,
    selected: Option<Seq<(Seq<char>, Seq<char>)>>,
    fallback: Option<Seq<(Seq<char>, Seq<char>)>>,
) -> Seq<char> {
    if key.len() == 0 || key.contains('{') {
        seq!['{'] + key + seq!['}']
    } else if let Some(found) = word(selected, key) {
        found
    } else if let Some(found) = word(fallback, key) {
        found
    } else {
        seq!['{'] + key + seq!['}']
    }
}

/// The text with its keys replaced, and whether every opening brace has a closing one.
#[verifier::opaque]
pub open spec fn substituted(
    s: Seq<char>,
    selected: Option<Seq<(Seq<char>, Seq<char>)>>,
    fallback: Option<Seq<(Seq<char>, Seq<char>)>>,
) -> (Seq<char>, bool)
    decreases s.len(),
{
    match text::place_of(s, '{', 0) {
        None => (s, true),
        Some(start) => match text::place_of(s, '}', start + 1) {
            None => (s, false),
            Some(end) => {
                proof {
                    text::lemma_place_of(s, '{', 0);
                    text::lemma_place_of(s, '}', start + 1);
                }
                let rest = substituted(s.skip(end + 1), selected, fallback);
                (
                    s.take(start) + substitute(s.subrange(start + 1, end), selected, fallback)
                        + rest.0,
                    rest.1,
                )
            },
        },
    }
}

/// The text with its keys replaced and, where its braces are complete, its line breaks put in.
pub open spec fn resolved(
    s: Seq<char>,
    selected: Option<Seq<(Seq<char>, Seq<char>)>>,
    fallback: Option<Seq<(Seq<char>, Seq<char>)>>,
) -> Seq<char> {
    let (t, complete) = substituted(s, selected, fallback);
    if complete {
        displayed(t)
    } else {
        t
    }
}

/// The text with line breaks for the signs that stand for them.
pub open spec fn displayed(s: Seq<char>) -> Seq<char> {
    compose::replaced(s, "\\n"@, "\n"@)
}

/// The text with signs that stand for its line breaks.
pub open spec fn stored(s: Seq<char>) -> Seq<char> {
    compose::replaced(s, "\n"@, "\\n"@)
}

/// The text as it is shown: with line breaks for the signs that stand for them.
pub fn translation_display_text(value: &str) -> (r: String)
    ensures
        r@ == displayed(value@),
{
    proof {
        reveal_strlit("\\n");
    }
    replace(value, "\\n", "\n")
}

/// The text as it is stored: with signs that stand for its line breaks.
pub fn translation_storage_text(value: &str) -> (r: String)
    ensures
        r@ == stored(value@),
{
    proof {
        reveal_strlit("\n");
    }
    replace(value, "\n", "\\n")
}

/// The texts of a language that may be missing.
pub open spec fn opt_words(language: Option<&TextMap<String>>) -> Option<
    Seq<(Seq<char>, Seq<char>)>,
> {
    match language {
        Some(map) => Some(words(*map)),
        None => None,
    }
}

fn find_word<'a>(language: Option<&'a TextMap<String>>, key: &str) -> (r: Option<&'a str>)
    ensures
        text::opt_str(r) == word(opt_words(language), key@),
{
    match language {
        Some(map) => {
            proof {
                table::lemma_mapped(map@, |s: String| s@, key@);
            }
            match map.get(key) {
                Some(s) => Some(s.as_str()),
                None => None,
            }
        },
        None => None,
    }
}

/// Writes what stands for a key in braces.
fn append_substitute(
    output: &mut String,
    key: &str,
    selected: Option<&TextMap<String>>,
    fallback: Option<&TextMap<String>>,
)
    ensures
        final(output)@ == old(output)@ + substitute(
            key@,
            opt_words(selected),
            opt_words(fallback),
        ),
{
    let inner = chars_of(key);
    proof {
        text::lemma_place_of(inner@, '{', 0);
    }
    if inner.len() > 0 && find_char(&inner, '{', 0).is_none() {
        if let Some(found) = find_word(selected, key) {
            output.append(found);
            return;
        }
        if let Some(found) = find_word(fallback, key) {
            output.append(found);
            return;
        }
    }
    output.push('{');
    output.append(key);
    output.push('}');
    assert(output@ =~= old(output)@ + (seq!['{'] + key@ + seq!['}']));
}

/// What is left to replace after the first key.
proof fn lemma_substituted_step(
    s: Seq<char>,
    start: int,
    end: int,
    selected: Option<Seq<(Seq<char>, Seq<char>)>>,
    fallback: Option<Seq<(Seq<char>, Seq<char>)>>,
    from: Seq<char>,
)
    requires
        text::place_of(s, '{', 0) == Some(start),
        text::place_of(s, '}', start + 1) == Some(end),
    ensures
        0 <= start < end < s.len(),
        from + substituted(s, selected, fallback).0 == from + s.take(start) + substitute(
            s.subrange(start + 1, end),
            selected,
            fallback,
        ) + substituted(s.skip(end + 1), selected, fallback).0,
        substituted(s, selected, fallback).1 == substituted(
            s.skip(end + 1),
            selected,
            fallback,
        ).1,
{
    reveal(substituted);
    text::lemma_place_of(s, '{', 0);
    text::lemma_place_of(s, '}', start + 1);
    let key = substitute(s.subrange(start + 1, end), selected, fallback);
    let next = substituted(s.skip(end + 1), selected, fallback).0;
    assert(from + (s.take(start) + key + next) =~= from + s.take(start) + key + next);
}

/// Nothing is left to replace where no key is complete.
proof fn lemma_substituted_end(
    s: Seq<char>,
    selected: Option<Seq<(Seq<char>, Seq<char>)>>,
    fallback: Option<Seq<(Seq<char>, Seq<char>)>>,
)
    ensures
        text::place_of(s, '{', 0) is None ==> substituted(s, selected, fallback) == (s, true),
        text::place_of(s, '{', 0) matches Some(start) ==> (text::place_of(
            s,
            '}',
            start + 1,
        ) is None ==> substituted(s, selected, fallback) == (s, false)),
{
    reveal(substituted);
}

/// The first key of what follows a position: where it starts and where it ends.
fn next_key(s: &Vec<char>, done: usize) -> (r: (Option<usize>, Option<usize>))
    requires
        done <= s@.len() < usize::MAX,
    ensures
        match r.0 {
            Some(start) => {
                &&& done <= start < s@.len()
                &&& text::place_of(s@.skip(done as int), '{', 0) == Some(start - done)
                &&& match r.1 {
                    Some(end) => start < end < s@.len() && text::place_of(
                        s@.skip(done as int),
                        '}',
                        start - done + 1,
                    ) == Some(end - done),
                    None => text::place_of(s@.skip(done as int), '}', start - done + 1) is None,
                }
            },
            None => text::place_of(s@.skip(done as int), '{', 0) is None,
        },
{
    proof {
        lemma_place_skip(s@, '{', done as int, 0);
        text::lemma_place_of(s@, '{', done as int);
    }
    match find_char(s, '{', done) {
        Some(start) => {
            proof {
                lemma_place_skip(s@, '}', done as int, start + 1 - done);
                text::lemma_place_of(s@, '}', start + 1);
            }
            (Some(start), find_char(s, '}', start + 1))
        },
        None => (None, None),
    }
}

/// The text with its keys replaced.
pub fn resolve_translation_tags(
    value: &str,
    selected: Option<&TextMap<String>>,
    fallback: Option<&TextMap<String>>,
) -> (r: String)
    ensures
        r@ == resolved(value@, opt_words(selected), opt_words(fallback)),
{
    let s = chars_of(value);
    let ghost sel = opt_words(selected);
    let ghost fall = opt_words(fallback);
    let ghost whole = substituted(s@, sel, fall);
    let mut output = String::new();
    let mut done: usize = 0;
    assert(s@.skip(0) =~= s@);
    assert(output@ + substituted(s@, sel, fall).0 =~= whole.0);
    loop
        invariant
            done <= s@.len() < usize::MAX,
            s@ == value@,
            sel == opt_words(selected),
            fall == opt_words(fallback),
            whole == substituted(s@, sel, fall),
            whole.0 == output@ + substituted(s@.skip(done as int), sel, fall).0,
            whole.1 == substituted(s@.skip(done as int), sel, fall).1,
        decreases s@.len() - done,
    {
        let ghost rest = s@.skip(done as int);
        let (start, end) = match next_key(&s, done) {
            (Some(start), Some(end)) => (start, end),
            (start, _) => {
                let tail = part(&s, done, s.len());
                proof {
                    assert(tail@ =~= rest);
                    lemma_substituted_end(rest, sel, fall);
                }
                output.append(tail.as_str());
                return if start.is_none() {
                    translation_display_text(output.as_str())
                } else {
                    output
                };
            },
        };
        let before = part(&s, done, start);
        let key = part(&s, start + 1, end);
        proof {
            lemma_substituted_step(rest, start - done, end - done, sel, fall, output@);
            assert(before@ =~= rest.take(start - done));
            assert(key@ =~= rest.subrange(start + 1 - done, end - done));
            assert(rest.skip(end + 1 - done) =~= s@.skip(end + 1));
        }
        output.append(before.as_str());
        append_substitute(&mut output, key.as_str(), selected, fallback);
        done = end + 1;
    }
}

proof fn lemma_place_skip(s: Seq<char>, c: char, n: int, from: int)
    requires
        0 <= n <= s.len(),
        0 <= from,
    ensures
        text::place_of(s.skip(n), c, from) == match text::place_of(s, c, n + from) {
            Some(i) => Some(i - n),
            None => None,
        },
    decreases s.len() - n - from,
{
    if n + from < s.len() {
        assert(s.skip(n)[from] == s[n + from]);
        lemma_place_skip(s, c, n, from + 1);
    }
}

// ---------------------------------------------------------------------------
// Names of languages
// ---------------------------------------------------------------------------

/// A character of the name of a language as it is kept, or none.
pub open spec fn locale_char(c: char) -> Option<char> {
    let d = if text::ascii_lower(c) == '-' {
        '_'
    } else {
        text::ascii_lower(c)
    };
    if text::ascii_alphanumeric(d) || d == '_' {
        Some(d)
    } else {
        None
    }
}

pub open spec fn locale_chars(s: Seq<char>) -> Seq<char>
    decreases s.len(),
{
    if s.len() == 0 {
        Seq::empty()
    } else {
        match locale_char(s.last()) {
            Some(d) => locale_chars(s.drop_last()).push(d),
            None => locale_chars(s.drop_last()),
        }
    }
}

/// The name of a language in small letters, digits and underscores.
pub open spec fn normal_locale(locale: Seq<char>) -> Seq<char> {
    locale_chars(text::trimmed(locale))
}

/// A language of that name can be added: the name is one, and no language has it.
pub open spec fn can_add(catalog: CatalogModel, locale: Seq<char>) -> bool {
    normal_locale(locale).len() > 0 && !table::has_key(catalog.languages, normal_locale(locale))
}

/// The texts with an empty language, which is shown.
pub open spec fn with_locale(catalog: CatalogModel, locale: Seq<char>) -> CatalogModel {
    CatalogModel {
        languages: table::upsert(catalog.languages, normal_locale(locale), Seq::empty()),
        active_locale: normal_locale(locale),
    }
}

/// The name of a language in small letters, digits and underscores.
pub fn normalize_locale(locale: &str) -> (r: String)
    ensures
        r@ == normal_locale(locale@),
{
    let trimmed = trim(locale);
    let s = chars_of(trimmed.as_str());
    let mut r = String::new();
    let mut i: usize = 0;
    assert(s@.take(0) =~= Seq::empty());
    while i < s.len()
        invariant
            i <= s@.len(),
            r@ == locale_chars(s@.take(i as int)),
        decreases s@.len() - i,
    {
        assert(s@.take(i + 1).drop_last() =~= s@.take(i as int));
        let lower = text::to_ascii_lower(s[i]);
        let d = if lower == '-' {
            '_'
        } else {
            lower
        };
        if text::is_ascii_alphanumeric(d) || d == '_' {
            r.push(d);
        }
        i += 1;
    }
    assert(s@.take(i as int) =~= s@);
    r
}

// ---------------------------------------------------------------------------
// Reading and changing the catalog
// ---------------------------------------------------------------------------

/// The text of a key in a language.
pub open spec fn translated(catalog: CatalogModel, locale: Seq<char>, key: Seq<char>) -> Option<
    Seq<char>,
> {
    word(table::lookup(catalog.languages, locale), key)
}

/// A text as the catalog shows it.
pub open spec fn shown(catalog: CatalogModel, value: Seq<char>) -> Seq<char> {
    resolved(
        value,
        table::lookup(catalog.languages, catalog.active_locale),
        table::lookup(catalog.languages, "en_us"@),
    )
}

/// The catalog with a text under a key of a language.
pub open spec fn with_translation(
    catalog: CatalogModel,
    locale: Seq<char>,
    key: Seq<char>,
    value: Seq<char>,
) -> CatalogModel {
    let language = match table::lookup(catalog.languages, locale) {
        Some(entries) => entries,
        None => Seq::empty(),
    };
    CatalogModel {
        languages: table::upsert(
            catalog.languages,
            locale,
            table::upsert(language, key, value),
        ),
        ..catalog
    }
}

/// The key that stands for a text, in braces.
pub open spec fn in_braces(key: Seq<char>) -> Seq<char> {
    seq!['{'] + key + seq!['}']
}

/// The text of a version 4 UUID: 32 small hexadecimal digits in five groups, of which the first
/// of the third group is 4 and the first of the fourth is 8, 9, a or b.
pub open spec fn is_uuid(s: Seq<char>) -> bool {
    &&& s.len() == 36
    &&& forall|i: int|
        0 <= i < 36 ==> if i == 8 || i == 13 || i == 18 || i == 23 {
            #[trigger] s[i] == '-'
        } else {
            '0' <= s[i] <= '9' || 'a' <= s[i] <= 'f'
        }
    &&& s[14] == '4'
    &&& s[19] == '8' || s[19] == '9' || s[19] == 'a' || s[19] == 'b'
}

/// `Uuid::new_v4`, written out by its `Display`: a random UUID in its hyphenated form in small
/// letters. Which of them it is rests on chance.
#[verifier::external_body]
fn random_uuid() -> (r: String)
    ensures
        is_uuid(r@),
{
    uuid::Uuid::new_v4().to_string()
}

/// A key that was made for a text.
pub open spec fn is_fresh_key(key: Seq<char>) -> bool {
    text::has_prefix(key, "ftbgui."@) && is_uuid(key.skip(7))
}

/// A new key, made of a random UUID.
pub fn fresh_key() -> (r: String)
    ensures
        is_fresh_key(r@),
{
    let uuid = random_uuid();
    let mut key = "ftbgui.".to_owned();
    key.append(uuid.as_str());
    proof {
        reveal_strlit("ftbgui.");
        assert(key@.subrange(0, 7) =~= "ftbgui."@);
        assert(key@.skip(7) =~= uuid@);
    }
    key
}

/// The key of a text that is nothing but a key in braces, and the text that is edited in its
/// place: the one in the active language, else the one in English, else the key as it stands.
pub open spec fn edited(catalog: CatalogModel, raw_value: Seq<char>) -> Option<
    (Seq<char>, Seq<char>),
> {
    match key_of(raw_value) {
        None => None,
        Some(key) => Some(
            (
                key,
                displayed(
                    match translated(catalog, catalog.active_locale, key) {
                        Some(found) => found,
                        None => match translated(catalog, "en_us"@, key) {
                            Some(found) => found,
                            None => raw_value,
                        },
                    },
                ),
            ),
        ),
    }
}

impl TranslationCatalog {
    fn language(&self, locale: &str) -> (r: Option<&TextMap<String>>)
        ensures
            opt_words(r) == table::lookup(self@.languages, locale@),
    {
        proof {
            table::lemma_mapped(self.languages@, |m: TextMap<String>| words(m), locale@);
        }
        self.languages.get(locale)
    }

    /// A text as it is shown: in the active language, else in English.
    pub fn resolve(&self, value: &str) -> (r: String)
        ensures
            r@ == shown(self@, value@),
    {
        resolve_translation_tags(
            value,
            self.language(self.active_locale.as_str()),
            self.language("en_us"),
        )
    }

    /// The key of a text that is nothing but a key in braces.
    pub fn exact_key(&self, value: &str) -> (r: Option<String>)
        ensures
            text::opt_text(r) == key_of(value@),
    {
        translation_key(value)
    }

    /// The text of a key in a language.
    pub fn translation(&self, locale: &str, key: &str) -> (r: Option<&str>)
        ensures
            text::opt_str(r) == translated(self@, locale@, key@),
    {
        find_word(self.language(locale), key)
    }

    /// Puts a text under a key of a language.
    pub fn set_translation(&mut self, locale: &str, key: &str, value: String)
        ensures
            final(self)@ == with_translation(old(self)@, locale@, key@, value@),
    {
        let ghost languages = self.languages@;
        let ghost f = |m: TextMap<String>| words(m);
        let ghost g = |s: String| s@;
        proof {
            table::lemma_mapped(languages, f, locale@);
            table::lemma_lookup_some(languages, locale@);
        }
        match self.languages.position(locale) {
            Some(i) => {
                proof {
                    table::lemma_lookup_at(languages, i as int);
                }
                let mut language = self.languages.replace_at(i, TextMap::new());
                proof {
                    table::lemma_mapped(language@, g, key@);
                }
                language.insert(key.to_owned(), value);
                let ghost after = language;
                self.languages.replace_at(i, language);
                proof {
                    let at = table::lemma_place_exists(languages, locale@);
                    table::lemma_place_upsert(languages, locale@, after, at);
                    table::lemma_place_lookup(languages, locale@, at);
                    table::lemma_same_place(languages, at, i as int);
                    assert(self.languages@ =~= table::upsert(languages, locale@, after));
                }
            },
            None => {
                let mut language: TextMap<String> = TextMap::new();
                proof {
                    table::lemma_mapped(language@, g, key@);
                    assert(words(language) =~= Seq::empty());
                }
                language.insert(key.to_owned(), value);
                self.languages.insert(locale.to_owned(), language);
            },
        }
    }

    /// Adds an empty language and shows it; whether there was none of that name.
    pub fn add_locale(&mut self, locale: &str) -> (r: bool)
        ensures
            r == can_add(old(self)@, locale@),
            final(self)@ == (if r {
                with_locale(old(self)@, locale@)
            } else {
                old(self)@
            }),
    {
        let name = normalize_locale(locale);
        proof {
            table::lemma_mapped(self.languages@, |m: TextMap<String>| words(m), name@);
        }
        if text::chars_of(name.as_str()).len() == 0 || self.languages.contains_key(name.as_str()) {
            return false;
        }
        let language: TextMap<String> = TextMap::new();
        assert(words(language) =~= Seq::empty());
        self.languages.insert(name.clone(), language);
        self.active_locale = name;
        true
    }

    /// The key of a text that is nothing but a key in braces, and the text that is edited in its
    /// place.
    pub fn edited_text(&self, raw_value: &str) -> (r: Option<(String, String)>)
        ensures
            match r {
                Some((key, text)) => edited(self@, raw_value@) == Some((key@, text@)),
                None => edited(self@, raw_value@) is None,
            },
    {
        let key = match translation_key(raw_value) {
            Some(key) => key,
            None => {
                return None;
            },
        };
        let stored = match self.translation(self.active_locale.as_str(), key.as_str()) {
            Some(found) => found,
            None => {
                match self.translation("en_us", key.as_str()) {
                    Some(found) => found,
                    None => raw_value,
                }
            },
        };
        let text = translation_display_text(stored);
        Some((key, text))
    }

    /// Puts a text that was edited under its key in the active language.
    pub fn store_edited_text(&mut self, key: &str, text: &str)
        ensures
            final(self)@ == with_translation(
                old(self)@,
                old(self)@.active_locale,
                key@,
                stored(text@),
            ),
    {
        let locale = self.active_locale.clone();
        self.set_translation(locale.as_str(), key, translation_storage_text(text));
    }

    /// Moves a text into the active language under the given key, unless it is a key already;
    /// the key under which it stands.
    pub fn localize_as(&mut self, raw_value: &mut String, key: String) -> (r: String)
        ensures
            match key_of(old(raw_value)@) {
                Some(present) => r@ == present && final(self)@ == old(self)@ && final(raw_value)@
                    == old(raw_value)@,
                None => {
                    &&& r@ == key@
                    &&& final(raw_value)@ == in_braces(key@)
                    &&& final(self)@ == with_translation(
                        old(self)@,
                        old(self)@.active_locale,
                        key@,
                        stored(old(raw_value)@),
                    )
                },
            },
    {
        if let Some(present) = translation_key(raw_value.as_str()) {
            return present;
        }
        let text = translation_storage_text(raw_value.as_str());
        let mut tag = String::new();
        tag.push('{');
        tag.append(key.as_str());
        tag.push('}');
        assert(tag@ =~= in_braces(key@));
        *raw_value = tag;
        let locale = self.active_locale.clone();
        self.set_translation(locale.as_str(), key.as_str(), text);
        key
    }

    /// Moves a text into the active language under a new key, unless it is a key already; the
    /// key under which it stands. The new key is made of a random UUID.
    pub fn localize(&mut self, raw_value: &mut String) -> (r: String)
        ensures
            match key_of(old(raw_value)@) {
                Some(present) => r@ == present && final(self)@ == old(self)@ && final(raw_value)@
                    == old(raw_value)@,
                None => {
                    &&& is_fresh_key(r@)
                    &&& final(raw_value)@ == in_braces(r@)
                    &&& final(self)@ == with_translation(
                        old(self)@,
                        old(self)@.active_locale,
                        r@,
                        stored(old(raw_value)@),
                    )
                },
            },
    {
        let key = fresh_key();
        self.localize_as(raw_value, key)
    }
}

// ---------------------------------------------------------------------------
// Laws
// ---------------------------------------------------------------------------

proof fn lemma_display_of_storage(s: Seq<char>)
    requires
        !text::has_text(s, "\\n"@),
    ensures
        displayed(stored(s)) == s,
        s.len() == 0 ==> stored(s).len() == 0,
        s.len() > 0 ==> stored(s).len() > 0 && stored(s)[0] == (if s[0] == '\n' {
            '\\'
        } else {
            s[0]
        }),
    decreases s.len(),
{
    reveal_strlit("\\n");
    reveal_strlit("\n");
    let sign = "\\n"@;
    let line = "\n"@;
    assert(sign =~= seq!['\\', 'n']);
    assert(line =~= seq!['\n']);
    if s.len() > 0 {
        let rest = s.skip(1);
        assert(!text::has_text(rest, sign)) by {
            if text::has_text(rest, sign) {
                let i = choose|i: int| text::stands_at(rest, sign, i);
                assert(s.subrange(i + 1, i + 3) =~= rest.subrange(i, i + 2));
                assert(text::stands_at(s, sign, i + 1));
            }
        }
        lemma_display_of_storage(rest);
        let tail = stored(rest);
        let head = s.subrange(0, 1);
        assert(head[0] == s[0]);
        if s[0] == '\n' {
            assert(head =~= line);
            assert(text::has_prefix(s, line));
            let t = sign + tail;
            assert(stored(s) == t);
            assert(t.subrange(0, 2) =~= sign);
            assert(text::has_prefix(t, sign));
            assert(t.skip(2) =~= tail);
            assert(displayed(t) == line + displayed(tail));
            assert(line + rest =~= s);
        } else {
            assert(!text::has_prefix(s, line));
            let t = seq![s[0]] + tail;
            assert(stored(s) == t);
            assert(t.skip(1) =~= tail);
            assert(!text::has_prefix(t, sign)) by {
                if text::has_prefix(t, sign) {
                    let front = t.subrange(0, 2);
                    assert(front[0] == t[0] && front[1] == t[1]);
                    assert(s[0] == '\\' && tail[0] == 'n');
                    assert(rest.len() > 0 && rest[0] == 'n');
                    assert(s.subrange(0, 2) =~= sign);
                    assert(text::stands_at(s, sign, 0));
                }
            }
            assert(displayed(t) == seq![s[0]] + displayed(tail));
            assert(seq![s[0]] + rest =~= s);
        }
    }
}

/// A text in which no sign stands for a line break is shown as it was stored.
pub proof fn law_stored_text_is_displayed(s: Seq<char>)
    requires
        !text::has_text(s, "\\n"@),
    ensures
        displayed(stored(s)) == s,
{
    lemma_display_of_storage(s);
}

/// What was put under a key of a language is found there, and nothing else has changed.
pub proof fn law_set_translation_is_found(
    catalog: CatalogModel,
    locale: Seq<char>,
    key: Seq<char>,
    value: Seq<char>,
)
    requires
        table::ordered(catalog.languages),
        table::lookup(catalog.languages, locale) matches Some(language) ==> table::ordered(
            language,
        ),
    ensures
        translated(with_translation(catalog, locale, key, value), locale, key) == Some(value),
        forall|other_locale: Seq<char>, other_key: Seq<char>|
            other_locale != locale || other_key != key ==> #[trigger] translated(
                with_translation(catalog, locale, key, value),
                other_locale,
                other_key,
            ) == translated(catalog, other_locale, other_key),
{
    let language = match table::lookup(catalog.languages, locale) {
        Some(entries) => entries,
        None => Seq::empty(),
    };
    table::lemma_upsert(language, key, value);
    table::lemma_upsert(catalog.languages, locale, table::upsert(language, key, value));
}

/// A text that was edited in place of a key is the one that is edited next.
pub proof fn law_edited_text_is_kept(
    catalog: CatalogModel,
    raw_value: Seq<char>,
    value: Seq<char>,
)
    requires
        table::ordered(catalog.languages),
        table::lookup(catalog.languages, catalog.active_locale) matches Some(language)
            ==> table::ordered(language),
        !text::has_text(value, "\\n"@),
    ensures
        key_of(raw_value) matches Some(key) ==> edited(
            with_translation(catalog, catalog.active_locale, key, stored(value)),
            raw_value,
        ) == Some((key, value)),
{
    if let Some(key) = key_of(raw_value) {
        law_set_translation_is_found(catalog, catalog.active_locale, key, stored(value));
        law_stored_text_is_displayed(value);
    }
}

proof fn lemma_brace_key(key: Seq<char>)
    requires
        key.len() > 0,
        !key.contains('{'),
        !key.contains('}'),
    ensures
        text::place_of(in_braces(key), '{', 0) == Some(0int),
        text::place_of(in_braces(key), '}', 1) == Some(key.len() as int + 1),
        in_braces(key).subrange(1, key.len() as int + 1) == key,
        in_braces(key).skip(key.len() as int + 2) == Seq::<char>::empty(),
        in_braces(key).take(0) == Seq::<char>::empty(),
{
    let s = in_braces(key);
    text::lemma_place_of(s, '}', 1);
    let end = text::place_of(s, '}', 1);
    assert(s[key.len() as int + 1] == '}');
    if let Some(i) = end {
        if i < key.len() + 1 {
            assert(key[i - 1] == '}');
        }
    }
    assert(s.subrange(1, key.len() as int + 1) =~= key);
    assert(s.skip(key.len() as int + 2) =~= Seq::empty());
    assert(s.take(0) =~= Seq::empty());
}

/// A text that was moved into the catalog is still shown as it was, if no sign in it stands for
/// a line break.
pub proof fn law_localized_text_is_shown(
    catalog: CatalogModel,
    value: Seq<char>,
    key: Seq<char>,
)
    requires
        table::ordered(catalog.languages),
        table::lookup(catalog.languages, catalog.active_locale) matches Some(language)
            ==> table::ordered(language),
        key.len() > 0,
        !key.contains('{'),
        !key.contains('}'),
        !text::has_text(value, "\\n"@),
    ensures
        shown(
            with_translation(catalog, catalog.active_locale, key, stored(value)),
            in_braces(key),
        ) == value,
{
    let after = with_translation(catalog, catalog.active_locale, key, stored(value));
    law_set_translation_is_found(catalog, catalog.active_locale, key, stored(value));
    lemma_brace_key(key);
    lemma_display_of_storage(value);
    let selected = table::lookup(after.languages, after.active_locale);
    let fallback = table::lookup(after.languages, "en_us"@);
    let s = in_braces(key);
    assert(word(selected, key) == Some(stored(value)));
    reveal(substituted);
    assert(substituted(Seq::empty(), selected, fallback) == (Seq::<char>::empty(), true));
    assert(substituted(s, selected, fallback).0 =~= stored(value));
    assert(substituted(s, selected, fallback).1);
}

/// A key that was made for a text is found in the braces in which it stands.
pub proof fn lemma_fresh_key_is_a_key(key: Seq<char>)
    requires
        is_fresh_key(key),
    ensures
        key_of(in_braces(key)) == Some(key),
{
    reveal_strlit("ftbgui.");
    assert(key.len() >= 7);
    assert forall|i: int| 0 <= i < key.len() implies (#[trigger] key[i]) != '{' && key[i] != '}' by {
        if i < 7 {
            assert(key.subrange(0, 7)[i] == "ftbgui."@[i]);
        } else {
            assert(key.skip(7)[i - 7] == key[i]);
        }
    }
    let s = in_braces(key);
    assert(s[0] == '{' && s.last() == '}');
    assert(text::trim_start(s) == s);
    assert(text::trim_end(s) == s);
    assert(s.subrange(1, s.len() - 1) =~= key);
}

} // verus!
