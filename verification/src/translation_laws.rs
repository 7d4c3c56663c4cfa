//! What a catalog of languages shows, and what it keeps.

use crate::compose;
use crate::editor;
use crate::languages;
use crate::localize;
use crate::localize::Keying;
use crate::quest;
use crate::table;
use crate::text;
use crate::text_laws;
use crate::translation;
use crate::translation::CatalogModel;
use vstd::prelude::*;

verus! {

// ---------------------------------------------------------------------------
// Showing
// ---------------------------------------------------------------------------

/// The text of a key: that of the active language where it has one, or else that of American
/// English where that has one.
pub open spec fn text_of_key(catalog: CatalogModel, key: Seq<char>) -> Option<Seq<char>> {
    let own = match table::lookup(catalog.languages, catalog.active_locale) {
        Some(language) => table::lookup(language, key),
        None => None,
    };
    match own {
        Some(found) => Some(found),
        None => match table::lookup(catalog.languages, "en_us"@) {
            Some(language) => table::lookup(language, key),
            None => None,
        },
    }
}

proof fn lemma_first_braces(a: Seq<char>, key: Seq<char>, b: Seq<char>)
    requires
        !a.contains('{'),
        !key.contains('}'),
    ensures
        ({
            let s = a + translation::in_braces(key) + b;
            let start = a.len() as int;
            let end = start + key.len() + 1;
            &&& text::place_of(s, '{', 0) == Some(start)
            &&& text::place_of(s, '}', start + 1) == Some(end)
            &&& s.take(start) == a
            &&& s.subrange(start + 1, end) == key
            &&& s.skip(end + 1) == b
        }),
{
    let s = a + translation::in_braces(key) + b;
    let start = a.len() as int;
    let end = start + key.len() + 1;
    assert(s[start] == '{');
    assert(s[end] == '}');
    text::lemma_place_of(s, '{', 0);
    text::lemma_place_of(s, '}', start + 1);
    match text::place_of(s, '{', 0) {
        Some(i) => {
            if i < start {
                assert(a[i] == '{');
            }
        },
        None => {},
    }
    match text::place_of(s, '}', start + 1) {
        Some(i) => {
            if i < end {
                assert(key[i - start - 1] == '}');
            }
        },
        None => {},
    }
    assert(s.take(start) =~= a);
    assert(s.subrange(start + 1, end) =~= key);
    assert(s.skip(end + 1) =~= b);
}

proof fn lemma_no_braces(s: Seq<char>, c: char)
    requires
        !s.contains(c),
    ensures
        text::place_of(s, c, 0) is None,
{
    text::lemma_place_of(s, c, 0);
    if let Some(i) = text::place_of(s, c, 0) {
        assert(s[i] == c);
    }
}

/// A text without keys is shown as it is, with its signs for line breaks as line breaks.
pub proof fn law_text_without_keys_is_shown(catalog: CatalogModel, s: Seq<char>)
    requires
        !s.contains('{'),
    ensures
        translation::shown(catalog, s) == translation::displayed(s),
{
    reveal(translation::substituted);
    lemma_no_braces(s, '{');
}

/// A key in braces stands for its text, before and behind other text; a key without a text stays
/// in its braces.
pub proof fn law_key_is_shown_as_its_text(
    catalog: CatalogModel,
    a: Seq<char>,
    key: Seq<char>,
    b: Seq<char>,
)
    requires
        !a.contains('{'),
        !b.contains('{'),
        key.len() > 0,
        !key.contains('{'),
        !key.contains('}'),
    ensures
        translation::shown(catalog, a + translation::in_braces(key) + b)
            == translation::displayed(
            match text_of_key(catalog, key) {
                Some(found) => a + found + b,
                None => a + seq!['{'] + key + seq!['}'] + b,
            },
        ),
{
    reveal_with_fuel(translation::substituted, 2);
    lemma_first_braces(a, key, b);
    lemma_no_braces(b, '{');
    assert(a + seq!['{'] + key + seq!['}'] + b =~= a + translation::in_braces(key) + b);
}

/// Several keys are each shown as their texts: what stands behind the first one is treated as a
/// text of its own.
pub proof fn law_keys_are_shown_one_by_one(
    catalog: CatalogModel,
    a: Seq<char>,
    key: Seq<char>,
    b: Seq<char>,
)
    requires
        !a.contains('{'),
        key.len() > 0,
        !key.contains('{'),
        !key.contains('}'),
    ensures
        ({
            let selected = table::lookup(catalog.languages, catalog.active_locale);
            let fallback = table::lookup(catalog.languages, "en_us"@);
            let all = translation::substituted(
                a + translation::in_braces(key) + b,
                selected,
                fallback,
            );
            let rest = translation::substituted(b, selected, fallback);
            &&& all.1 == rest.1
            &&& text_of_key(catalog, key) matches Some(found) ==> all.0 == a + found + rest.0
            &&& text_of_key(catalog, key) is None ==> all.0 == a + translation::in_braces(key)
                + rest.0
        }),
{
    reveal(translation::substituted);
    lemma_first_braces(a, key, b);
}

/// Empty braces, and a brace that is never closed, are shown as they stand.
pub proof fn law_other_braces_stay(catalog: CatalogModel, a: Seq<char>, b: Seq<char>)
    requires
        !a.contains('{'),
        !b.contains('{'),
    ensures
        !b.contains('}') ==> translation::shown(catalog, a + seq!['{'] + b) == a + seq!['{'] + b,
        translation::shown(catalog, a + seq!['{', '}'] + b) == translation::displayed(
            a + seq!['{', '}'] + b,
        ),
{
    reveal_with_fuel(translation::substituted, 2);
    if !b.contains('}') {
        let s = a + seq!['{'] + b;
        let start = a.len() as int;
        assert(s[start] == '{');
        text::lemma_place_of(s, '{', 0);
        if let Some(i) = text::place_of(s, '{', 0) {
            if i < start {
                assert(a[i] == '{');
            }
        }
        assert(text::place_of(s, '{', 0) == Some(start));
        text::lemma_place_of(s, '}', start + 1);
        if let Some(i) = text::place_of(s, '}', start + 1) {
            assert(b[i - start - 1] == '}');
        }
    }
    let none = Seq::<char>::empty();
    lemma_first_braces(a, none, b);
    lemma_no_braces(b, '{');
    assert(translation::in_braces(none) =~= seq!['{', '}']);
    assert(a + seq!['{', '}'] + b =~= a + (seq!['{'] + none + seq!['}']) + b);
}

/// Each sign for a line break is shown as a line break, and each line break is kept as its sign.
pub proof fn law_line_breaks_are_signed(a: Seq<char>, b: Seq<char>)
    ensures
        !text::has_text(a, "\\n"@) ==> translation::displayed(a) == a,
        !text::has_text(a, "\\n"@) ==> translation::displayed(a + "\\n"@ + b) == a + "\n"@
            + translation::displayed(b),
        !a.contains('\n') ==> translation::stored(a) == a,
        !a.contains('\n') ==> translation::stored(a + "\n"@ + b) == a + "\\n"@
            + translation::stored(b),
{
    reveal_strlit("\\n");
    reveal_strlit("\n");
    let sign = "\\n"@;
    let line = "\n"@;
    if !text::has_text(a, sign) {
        text_laws::law_other_text_is_not_replaced(a, sign, line);
        let s = a + sign + b;
        assert forall|i: int| 0 <= i < a.len() implies !text::stands_at(s, sign, i) by {
            if text::stands_at(s, sign, i) {
                let there = s.subrange(i, i + 2);
                assert(there[0] == s[i] && there[1] == s[i + 1]);
                if i + 1 < a.len() {
                    assert(a.subrange(i, i + 2) =~= there);
                    assert(text::stands_at(a, sign, i));
                } else {
                    assert(s[i + 1] == sign[0]);
                }
            }
        }
        text_laws::law_text_is_replaced(a, sign, line, b);
    }
    if !a.contains('\n') {
        if text::has_text(a, line) {
            let i = choose|i: int| text::stands_at(a, line, i);
            assert(a.subrange(i, i + 1)[0] == a[i]);
        }
        text_laws::law_other_text_is_not_replaced(a, line, sign);
        let s = a + line + b;
        assert forall|i: int| 0 <= i < a.len() implies !text::stands_at(s, line, i) by {
            if text::stands_at(s, line, i) {
                assert(s.subrange(i, i + 1)[0] == s[i]);
                assert(a[i] == '\n');
            }
        }
        text_laws::law_text_is_replaced(a, line, sign, b);
    }
}

/// A text is a key where it is nothing but a name in braces, with white space round it or not.
pub proof fn law_keys_are_recognised(a: Seq<char>, key: Seq<char>, b: Seq<char>, value: Seq<char>)
    ensures
        text_laws::is_blank(a) && text_laws::is_blank(b) && key.len() > 0 && !key.contains('{')
            && !key.contains('}') ==> translation::key_of(a + translation::in_braces(key) + b)
            == Some(key),
        translation::key_of(value) matches Some(k) ==> {
            &&& k.len() > 0
            &&& !k.contains('{')
            &&& !k.contains('}')
            &&& text::trimmed(value) == seq!['{'] + k + seq!['}']
        },
{
    if text_laws::is_blank(a) && text_laws::is_blank(b) && key.len() > 0 && !key.contains('{')
        && !key.contains('}') {
        let s = translation::in_braces(key);
        text_laws::law_white_space_is_trimmed(a, s, b);
        assert(s.subrange(1, s.len() - 1) =~= key);
    }
    if let Some(k) = translation::key_of(value) {
        let s = text::trimmed(value);
        assert(s =~= seq!['{'] + k + seq!['}']);
    }
}

/// The text that is edited in place of a key is that of the active language, or else that of
/// American English, or else the key as it stands; a text that is no key has none.
pub proof fn law_text_to_edit(catalog: CatalogModel, value: Seq<char>)
    ensures
        match translation::edited(catalog, value) {
            Some((key, shown)) => {
                &&& translation::key_of(value) == Some(key)
                &&& text_of_key(catalog, key) matches Some(found) ==> shown
                    == translation::displayed(found)
                &&& text_of_key(catalog, key) is None ==> shown == translation::displayed(value)
            },
            None => translation::key_of(value) is None,
        },
{
}

// ---------------------------------------------------------------------------
// Languages
// ---------------------------------------------------------------------------

/// The name of a language is written in small letters, digits and underlines: a hyphen becomes an
/// underline, and other characters are left out.
pub proof fn law_locales_are_normal(s: Seq<char>, i: int)
    requires
        0 <= i < translation::normal_locale(s).len(),
    ensures
        ({
            let c = translation::normal_locale(s)[i];
            'a' <= c <= 'z' || '0' <= c <= '9' || c == '_'
        }),
{
    lemma_locale_chars(text::trimmed(s), i);
}

proof fn lemma_locale_chars(s: Seq<char>, i: int)
    requires
        0 <= i < translation::locale_chars(s).len(),
    ensures
        ({
            let c = translation::locale_chars(s)[i];
            'a' <= c <= 'z' || '0' <= c <= '9' || c == '_'
        }),
    decreases s.len(),
{
    if s.len() > 0 {
        let front = translation::locale_chars(s.drop_last());
        if i < front.len() {
            lemma_locale_chars(s.drop_last(), i);
        }
    }
}

/// Each character of the name of a language stands for one of its own: a letter for the small
/// one, a digit for itself, and a hyphen and an underline for an underline.
pub proof fn law_locale_characters(a: Seq<char>, c: char)
    ensures
        ({
            let before = translation::locale_chars(a);
            let after = translation::locale_chars(a.push(c));
            &&& 'a' <= c <= 'z' || '0' <= c <= '9' || c == '_' ==> after == before.push(c)
            &&& 'A' <= c <= 'Z' ==> after == before.push((c as int + 32) as char)
            &&& c == '-' ==> after == before.push('_')
            &&& !('a' <= c <= 'z' || '0' <= c <= '9' || c == '_' || 'A' <= c <= 'Z' || c == '-')
                ==> after == before
        }),
        translation::locale_chars(Seq::empty()).len() == 0,
{
    assert(a.push(c).drop_last() =~= a);
}

/// Adding a language makes it the active one, without texts, and leaves the others; it is refused
/// where it has no name or is there already.
pub proof fn law_language_is_added(catalog: CatalogModel, locale: Seq<char>, other: Seq<char>)
    requires
        table::ordered(catalog.languages),
    ensures
        ({
            let name = translation::normal_locale(locale);
            let after = translation::with_locale(catalog, locale);
            &&& translation::can_add(catalog, locale) <==> name.len() > 0 && table::lookup(
                catalog.languages,
                name,
            ) is None
            &&& after.active_locale == name
            &&& table::lookup(after.languages, name) == Some(Seq::<(Seq<char>, Seq<char>)>::empty())
            &&& other != name ==> table::lookup(after.languages, other) == table::lookup(
                catalog.languages,
                other,
            )
        }),
{
    let name = translation::normal_locale(locale);
    table::lemma_upsert(catalog.languages, name, Seq::<(Seq<char>, Seq<char>)>::empty());
    table::lemma_lookup_some(catalog.languages, name);
}

proof fn lemma_gathered_ordered(pairs: Seq<(Seq<char>, Seq<char>)>)
    ensures
        table::ordered(languages::gathered(pairs)),
    decreases pairs.len(),
{
    if pairs.len() > 0 {
        lemma_gathered_ordered(pairs.drop_last());
        table::lemma_upsert(
            languages::gathered(pairs.drop_last()),
            pairs.last().0,
            pairs.last().1,
        );
    }
}

/// Of pairs with one key the last one counts.
pub proof fn law_last_pair_counts(pairs: Seq<(Seq<char>, Seq<char>)>, i: int)
    requires
        0 <= i < pairs.len(),
        forall|j: int| i < j < pairs.len() ==> (#[trigger] pairs[j]).0 != pairs[i].0,
    ensures
        table::lookup(languages::gathered(pairs), pairs[i].0) == Some(pairs[i].1),
    decreases pairs.len(),
{
    let front = pairs.drop_last();
    lemma_gathered_ordered(front);
    table::lemma_upsert(languages::gathered(front), pairs.last().0, pairs.last().1);
    if i < front.len() {
        assert(pairs[front.len() as int].0 != pairs[i].0);
        law_last_pair_counts(front, i);
    }
}

/// A key that no pair has is not there.
pub proof fn law_no_pair_is_made_up(pairs: Seq<(Seq<char>, Seq<char>)>, key: Seq<char>)
    requires
        forall|i: int| 0 <= i < pairs.len() ==> (#[trigger] pairs[i]).0 != key,
    ensures
        table::lookup(languages::gathered(pairs), key) is None,
    decreases pairs.len(),
{
    if pairs.len() > 0 {
        let front = pairs.drop_last();
        lemma_gathered_ordered(front);
        table::lemma_upsert(languages::gathered(front), pairs.last().0, pairs.last().1);
        assert(pairs[front.len() as int].0 != key);
        law_no_pair_is_made_up(front, key);
    }
}

/// Each language file gives the language that it is named after its texts; of two files of one
/// language the last one counts, and there are no other languages.
pub proof fn law_languages_are_read(files: Seq<languages::LanguageFileModel>, locale: Seq<char>)
    ensures
        table::ordered(languages::languages_in(files)),
        (forall|i: int|
            0 <= i < files.len() ==> translation::normal_locale((#[trigger] files[i]).stem)
                != locale) ==> table::lookup(languages::languages_in(files), locale) is None,
        forall|i: int|
            #![trigger files[i]]
            0 <= i < files.len() && translation::normal_locale(files[i].stem) == locale && (forall|
                j: int,
            |
                i < j < files.len() ==> translation::normal_locale((#[trigger] files[j]).stem)
                    != locale) ==> (languages::json_pairs(files[i].contents) matches Ok(pairs)
                ==> table::lookup(languages::languages_in(files), locale) == Some(
                languages::gathered(pairs),
            )),
    decreases files.len(),
{
    if files.len() > 0 {
        let front = files.drop_last();
        law_languages_are_read(front, locale);
        let last = files.last();
        let name = translation::normal_locale(last.stem);
        let pairs = match languages::json_pairs(last.contents) {
            Ok(pairs) => pairs,
            Err(_) => Seq::empty(),
        };
        table::lemma_upsert(languages::languages_in(front), name, languages::gathered(pairs));
        let n = files.len() - 1;
        assert(files[n] == last);
        if name != locale {
            assert forall|i: int|
                #![trigger files[i]]
                0 <= i < files.len() && translation::normal_locale(files[i].stem) == locale && (
                forall|j: int|
                    i < j < files.len() ==> translation::normal_locale((#[trigger] files[j]).stem)
                        != locale) implies (languages::json_pairs(files[i].contents) matches Ok(p)
                ==> table::lookup(languages::languages_in(files), locale) == Some(
                languages::gathered(p),
            )) by {
                assert(front[i] == files[i]);
                assert forall|j: int| i < j < front.len() implies translation::normal_locale(
                    (#[trigger] front[j]).stem,
                ) != locale by {
                    assert(front[j] == files[j]);
                }
            }
            if forall|i: int|
                0 <= i < files.len() ==> translation::normal_locale((#[trigger] files[i]).stem)
                    != locale {
                assert forall|i: int| 0 <= i < front.len() implies translation::normal_locale(
                    (#[trigger] front[i]).stem,
                ) != locale by {
                    assert(front[i] == files[i]);
                }
            }
        } else {
            assert forall|i: int|
                #![trigger files[i]]
                0 <= i < files.len() && translation::normal_locale(files[i].stem) == locale && (
                forall|j: int|
                    i < j < files.len() ==> translation::normal_locale((#[trigger] files[j]).stem)
                        != locale) implies i == n by {
                if i < n {
                    assert(translation::normal_locale(files[n].stem) != locale);
                }
            }
        }
    } else {
        table::lemma_lookup_some(languages::languages_in(files), locale);
    }
}

/// Reading the languages fails at the first file that cannot be read, and only where there is one.
pub proof fn law_first_unread_language_is_told(files: Seq<languages::LanguageFileModel>)
    ensures
        match languages::language_fault(files) {
            None => forall|i: int|
                0 <= i < files.len() ==> languages::json_pairs((#[trigger] files[i]).contents) is Ok,
            Some((path, message)) => exists|i: int|
                #![trigger files[i]]
                0 <= i < files.len() && files[i].path == path && languages::json_pairs(
                    files[i].contents,
                ) == Err::<Seq<(Seq<char>, Seq<char>)>, Seq<char>>(message) && forall|j: int|
                    0 <= j < i ==> languages::json_pairs((#[trigger] files[j]).contents) is Ok,
        },
    decreases files.len(),
{
    if files.len() > 0 {
        let front = files.drop_last();
        law_first_unread_language_is_told(front);
        let n = files.len() - 1;
        assert(files[n] == files.last());
        assert forall|i: int| 0 <= i < n implies #[trigger] files[i] == front[i] by {}
        match languages::language_fault(front) {
            Some((path, message)) => {
                let i = choose|i: int|
                    #![trigger front[i]]
                    0 <= i < front.len() && front[i].path == path && languages::json_pairs(
                        front[i].contents,
                    ) == Err::<Seq<(Seq<char>, Seq<char>)>, Seq<char>>(message) && forall|j: int|
                        0 <= j < i ==> languages::json_pairs((#[trigger] front[j]).contents) is Ok;
                assert(files[i] == front[i]);
                assert forall|j: int| 0 <= j < i implies languages::json_pairs(
                    (#[trigger] files[j]).contents,
                ) is Ok by {
                    assert(files[j] == front[j]);
                }
            },
            None => {
                assert forall|j: int| 0 <= j < n implies languages::json_pairs(
                    (#[trigger] files[j]).contents,
                ) is Ok by {
                    assert(files[j] == front[j]);
                }
            },
        }
    }
}

/// American English is active where there is such a language or none at all, and else the first
/// language is.
pub proof fn law_active_language(languages: Seq<(Seq<char>, Seq<(Seq<char>, Seq<char>)>)>)
    ensures
        ({
            let catalog = languages::catalog_of(languages);
            &&& catalog.languages == languages
            &&& languages.len() == 0 ==> catalog.active_locale == "en_us"@
            &&& (exists|i: int| 0 <= i < languages.len() && (#[trigger] languages[i]).0
                == "en_us"@) ==> catalog.active_locale == "en_us"@
            &&& languages.len() > 0 && (forall|i: int|
                0 <= i < languages.len() ==> (#[trigger] languages[i]).0 != "en_us"@)
                ==> catalog.active_locale == languages[0].0
        }),
{
}

// ---------------------------------------------------------------------------
// Moving the texts of a book into a language
// ---------------------------------------------------------------------------

/// A text that has been moved into the active language: one that is blank or a key already stays,
/// and any other one is replaced by a key under which the language holds it.
pub open spec fn is_moved(
    before: Seq<char>,
    after: Seq<char>,
    k: Keying,
    keys: Seq<Seq<char>>,
) -> bool {
    if text::trimmed(before).len() == 0 || translation::key_of(before) is Some {
        after == before
    } else {
        exists|j: int|
            0 <= j < k.used && after == seq!['{'] + #[trigger] keys[j] + seq!['}']
                && translation::translated(k.catalog, k.catalog.active_locale, keys[j]) == Some(
                translation::stored(before),
            )
    }
}

/// The languages have their texts in order.
pub open spec fn is_sound(catalog: CatalogModel) -> bool {
    &&& table::ordered(catalog.languages)
    &&& forall|locale: Seq<char>|
        (#[trigger] table::lookup(catalog.languages, locale)) matches Some(language)
            ==> table::ordered(language)
}

/// Nothing that was there under the first keys has changed.
spec fn goes_on(a: Keying, b: Keying, keys: Seq<Seq<char>>) -> bool {
    &&& 0 <= a.used <= b.used
    &&& b.catalog.active_locale == a.catalog.active_locale
    &&& is_sound(b.catalog)
    &&& forall|j: int|
        0 <= j < a.used && j < keys.len() ==> translation::translated(
            b.catalog,
            a.catalog.active_locale,
            #[trigger] keys[j],
        ) == translation::translated(a.catalog, a.catalog.active_locale, keys[j])
}

proof fn lemma_goes_on(a: Keying, b: Keying, c: Keying, keys: Seq<Seq<char>>)
    requires
        goes_on(a, b, keys),
        goes_on(b, c, keys),
    ensures
        goes_on(a, c, keys),
{
}

proof fn lemma_stays_moved(
    before: Seq<char>,
    after: Seq<char>,
    a: Keying,
    b: Keying,
    keys: Seq<Seq<char>>,
)
    requires
        is_moved(before, after, a, keys),
        goes_on(a, b, keys),
        a.used <= keys.len(),
    ensures
        is_moved(before, after, b, keys),
{
    if !(text::trimmed(before).len() == 0 || translation::key_of(before) is Some) {
        let j = choose|j: int|
            0 <= j < a.used && after == seq!['{'] + #[trigger] keys[j] + seq!['}']
                && translation::translated(a.catalog, a.catalog.active_locale, keys[j]) == Some(
                translation::stored(before),
            );
        assert(translation::translated(b.catalog, a.catalog.active_locale, keys[j])
            == translation::translated(a.catalog, a.catalog.active_locale, keys[j]));
    }
}

proof fn lemma_keyed(k: Keying, keys: Seq<Seq<char>>, s: Seq<char>)
    requires
        0 <= k.used,
        k.used + localize::keys_for(s) <= keys.len(),
        keys.no_duplicates(),
        is_sound(k.catalog),
    ensures
        ({
            let r = localize::keyed(k, keys, s);
            &&& goes_on(k, r.0, keys)
            &&& r.0.used == k.used + localize::keys_for(s)
            &&& is_moved(s, r.1, r.0, keys)
        }),
{
    let r = localize::keyed(k, keys, s);
    if localize::needs_key(s) {
        let locale = k.catalog.active_locale;
        let value = translation::stored(s);
        let key = keys[k.used];
        translation::law_set_translation_is_found(k.catalog, locale, key, value);
        let language = match table::lookup(k.catalog.languages, locale) {
            Some(entries) => entries,
            None => Seq::empty(),
        };
        table::lemma_upsert(language, key, value);
        table::lemma_upsert(k.catalog.languages, locale, table::upsert(language, key, value));
        assert(is_sound(r.0.catalog)) by {
            assert forall|other: Seq<char>|
                (#[trigger] table::lookup(r.0.catalog.languages, other)) matches Some(l) implies
                table::ordered(table::lookup(r.0.catalog.languages, other)->0) by {
                if other != locale {
                    assert(table::lookup(r.0.catalog.languages, other) == table::lookup(
                        k.catalog.languages,
                        other,
                    ));
                }
            }
        }
        assert forall|j: int| 0 <= j < k.used && j < keys.len() implies translation::translated(
            r.0.catalog,
            locale,
            #[trigger] keys[j],
        ) == translation::translated(k.catalog, locale, keys[j]) by {
            assert(keys[j] != key);
        }
        assert(r.1 == seq!['{'] + keys[k.used] + seq!['}']);
    }
}

/// The task is the other one with its title moved.
pub open spec fn task_is_moved(
    before: quest::TaskModel,
    after: quest::TaskModel,
    k: Keying,
    keys: Seq<Seq<char>>,
) -> bool {
    match (before, after) {
        (
            quest::TaskModel::Checkmark { id, title, raw },
            quest::TaskModel::Checkmark { id: i, title: t, raw: r },
        ) => i == id && r == raw && is_moved(title, t, k, keys),
        (
            quest::TaskModel::Item { id, title, item, count, raw },
            quest::TaskModel::Item { id: i, title: t, item: m, count: n, raw: r },
        ) => i == id && m == item && n == count && r == raw && is_moved(title, t, k, keys),
        (
            quest::TaskModel::Kill { id, title, entity, count, raw },
            quest::TaskModel::Kill { id: i, title: t, entity: e, count: n, raw: r },
        ) => i == id && e == entity && n == count && r == raw && is_moved(title, t, k, keys),
        (quest::TaskModel::Unsupported { .. }, _) => after == before,
        _ => false,
    }
}

pub open spec fn tasks_are_moved(
    before: Seq<quest::TaskModel>,
    after: Seq<quest::TaskModel>,
    k: Keying,
    keys: Seq<Seq<char>>,
) -> bool {
    &&& after.len() == before.len()
    &&& forall|i: int| 0 <= i < before.len() ==> task_is_moved(#[trigger] before[i], after[i], k, keys)
}

/// The quest is the other one with its title, its description, its subtitle and the titles of its
/// tasks moved.
pub open spec fn quest_is_moved(
    before: quest::QuestModel,
    after: quest::QuestModel,
    k: Keying,
    keys: Seq<Seq<char>>,
) -> bool {
    &&& is_moved(before.title, after.title, k, keys)
    &&& is_moved(before.description, after.description, k, keys)
    &&& is_moved(before.settings.subtitle, after.settings.subtitle, k, keys)
    &&& tasks_are_moved(before.tasks, after.tasks, k, keys)
    &&& after == (quest::QuestModel {
        title: after.title,
        description: after.description,
        settings: quest::SettingsModel { subtitle: after.settings.subtitle, ..before.settings },
        tasks: after.tasks,
        ..before
    })
}

pub open spec fn quests_are_moved(
    before: Seq<quest::QuestModel>,
    after: Seq<quest::QuestModel>,
    k: Keying,
    keys: Seq<Seq<char>>,
) -> bool {
    &&& after.len() == before.len()
    &&& forall|i: int|
        0 <= i < before.len() ==> quest_is_moved(#[trigger] before[i], after[i], k, keys)
}

pub open spec fn chapter_is_moved(
    before: quest::ChapterModel,
    after: quest::ChapterModel,
    k: Keying,
    keys: Seq<Seq<char>>,
) -> bool {
    &&& is_moved(before.title, after.title, k, keys)
    &&& quests_are_moved(before.quests, after.quests, k, keys)
    &&& after == (quest::ChapterModel { title: after.title, quests: after.quests, ..before })
}

pub open spec fn chapters_are_moved(
    before: Seq<quest::ChapterModel>,
    after: Seq<quest::ChapterModel>,
    k: Keying,
    keys: Seq<Seq<char>>,
) -> bool {
    &&& after.len() == before.len()
    &&& forall|i: int|
        0 <= i < before.len() ==> chapter_is_moved(#[trigger] before[i], after[i], k, keys)
}

pub open spec fn groups_are_moved(
    before: Seq<quest::GroupModel>,
    after: Seq<quest::GroupModel>,
    k: Keying,
    keys: Seq<Seq<char>>,
) -> bool {
    &&& after.len() == before.len()
    &&& forall|i: int|
        0 <= i < before.len() ==> (#[trigger] before[i]).id == after[i].id && is_moved(
            before[i].title,
            after[i].title,
            k,
            keys,
        )
}

proof fn lemma_task_stays_moved(
    before: quest::TaskModel,
    after: quest::TaskModel,
    a: Keying,
    b: Keying,
    keys: Seq<Seq<char>>,
)
    requires
        task_is_moved(before, after, a, keys),
        goes_on(a, b, keys),
        a.used <= keys.len(),
    ensures
        task_is_moved(before, after, b, keys),
{
    match (localize::task_title(before), localize::task_title(after)) {
        (Some(t), Some(u)) => lemma_stays_moved(t, u, a, b, keys),
        _ => {},
    }
}

proof fn lemma_tasks_stay_moved(
    before: Seq<quest::TaskModel>,
    after: Seq<quest::TaskModel>,
    a: Keying,
    b: Keying,
    keys: Seq<Seq<char>>,
)
    requires
        tasks_are_moved(before, after, a, keys),
        goes_on(a, b, keys),
        a.used <= keys.len(),
    ensures
        tasks_are_moved(before, after, b, keys),
{
    assert forall|i: int| 0 <= i < before.len() implies task_is_moved(
        #[trigger] before[i],
        after[i],
        b,
        keys,
    ) by {
        lemma_task_stays_moved(before[i], after[i], a, b, keys);
    }
}

proof fn lemma_quest_stays_moved(
    before: quest::QuestModel,
    after: quest::QuestModel,
    a: Keying,
    b: Keying,
    keys: Seq<Seq<char>>,
)
    requires
        quest_is_moved(before, after, a, keys),
        goes_on(a, b, keys),
        a.used <= keys.len(),
    ensures
        quest_is_moved(before, after, b, keys),
{
    lemma_stays_moved(before.title, after.title, a, b, keys);
    lemma_stays_moved(before.description, after.description, a, b, keys);
    lemma_stays_moved(before.settings.subtitle, after.settings.subtitle, a, b, keys);
    lemma_tasks_stay_moved(before.tasks, after.tasks, a, b, keys);
}

proof fn lemma_quests_stay_moved(
    before: Seq<quest::QuestModel>,
    after: Seq<quest::QuestModel>,
    a: Keying,
    b: Keying,
    keys: Seq<Seq<char>>,
)
    requires
        quests_are_moved(before, after, a, keys),
        goes_on(a, b, keys),
        a.used <= keys.len(),
    ensures
        quests_are_moved(before, after, b, keys),
{
    assert forall|i: int| 0 <= i < before.len() implies quest_is_moved(
        #[trigger] before[i],
        after[i],
        b,
        keys,
    ) by {
        lemma_quest_stays_moved(before[i], after[i], a, b, keys);
    }
}

proof fn lemma_chapter_stays_moved(
    before: quest::ChapterModel,
    after: quest::ChapterModel,
    a: Keying,
    b: Keying,
    keys: Seq<Seq<char>>,
)
    requires
        chapter_is_moved(before, after, a, keys),
        goes_on(a, b, keys),
        a.used <= keys.len(),
    ensures
        chapter_is_moved(before, after, b, keys),
{
    lemma_stays_moved(before.title, after.title, a, b, keys);
    lemma_quests_stay_moved(before.quests, after.quests, a, b, keys);
}

proof fn lemma_keyed_tasks(k: Keying, keys: Seq<Seq<char>>, tasks: Seq<quest::TaskModel>)
    requires
        0 <= k.used,
        k.used + localize::keys_for_tasks(tasks) <= keys.len(),
        keys.no_duplicates(),
        is_sound(k.catalog),
    ensures
        ({
            let r = localize::keyed_tasks(k, keys, tasks);
            &&& goes_on(k, r.0, keys)
            &&& r.0.used == k.used + localize::keys_for_tasks(tasks)
            &&& tasks_are_moved(tasks, r.1, r.0, keys)
        }),
    decreases tasks.len(),
{
    if tasks.len() > 0 {
        let front = tasks.drop_last();
        lemma_keyed_tasks(k, keys, front);
        let (b, done) = localize::keyed_tasks(k, keys, front);
        let last = tasks.last();
        let (c, moved) = localize::keyed_task(b, keys, last);
        match localize::task_title(last) {
            Some(title) => {
                lemma_keyed(b, keys, title);
                lemma_goes_on(k, b, c, keys);
                lemma_tasks_stay_moved(front, done, b, c, keys);
            },
            None => {},
        }
        assert(task_is_moved(last, moved, c, keys));
        let all = done.push(moved);
        assert forall|i: int| 0 <= i < tasks.len() implies task_is_moved(
            #[trigger] tasks[i],
            all[i],
            c,
            keys,
        ) by {
            if i < front.len() {
                assert(task_is_moved(front[i], done[i], c, keys));
            }
        }
    }
}

proof fn lemma_keyed_quest(k: Keying, keys: Seq<Seq<char>>, q: quest::QuestModel)
    requires
        0 <= k.used,
        k.used + localize::keys_for_quest(q) <= keys.len(),
        keys.no_duplicates(),
        is_sound(k.catalog),
    ensures
        ({
            let r = localize::keyed_quest(k, keys, q);
            &&& goes_on(k, r.0, keys)
            &&& r.0.used == k.used + localize::keys_for_quest(q)
            &&& quest_is_moved(q, r.1, r.0, keys)
        }),
{
    lemma_keyed(k, keys, q.title);
    let (a, title) = localize::keyed(k, keys, q.title);
    lemma_keyed(a, keys, q.description);
    let (b, description) = localize::keyed(a, keys, q.description);
    lemma_keyed(b, keys, q.settings.subtitle);
    let (c, subtitle) = localize::keyed(b, keys, q.settings.subtitle);
    lemma_keyed_tasks(c, keys, q.tasks);
    let (d, tasks) = localize::keyed_tasks(c, keys, q.tasks);
    lemma_goes_on(b, c, d, keys);
    lemma_goes_on(a, b, d, keys);
    lemma_goes_on(k, a, d, keys);
    lemma_stays_moved(q.title, title, a, d, keys);
    lemma_stays_moved(q.description, description, b, d, keys);
    lemma_stays_moved(q.settings.subtitle, subtitle, c, d, keys);
}

proof fn lemma_keyed_quests(k: Keying, keys: Seq<Seq<char>>, quests: Seq<quest::QuestModel>)
    requires
        0 <= k.used,
        k.used + localize::keys_for_quests(quests) <= keys.len(),
        keys.no_duplicates(),
        is_sound(k.catalog),
    ensures
        ({
            let r = localize::keyed_quests(k, keys, quests);
            &&& goes_on(k, r.0, keys)
            &&& r.0.used == k.used + localize::keys_for_quests(quests)
            &&& quests_are_moved(quests, r.1, r.0, keys)
        }),
    decreases quests.len(),
{
    if quests.len() > 0 {
        let front = quests.drop_last();
        lemma_keyed_quests(k, keys, front);
        let (b, done) = localize::keyed_quests(k, keys, front);
        let last = quests.last();
        lemma_keyed_quest(b, keys, last);
        let (c, moved) = localize::keyed_quest(b, keys, last);
        lemma_goes_on(k, b, c, keys);
        lemma_quests_stay_moved(front, done, b, c, keys);
        let all = done.push(moved);
        assert forall|i: int| 0 <= i < quests.len() implies quest_is_moved(
            #[trigger] quests[i],
            all[i],
            c,
            keys,
        ) by {
            if i < front.len() {
                assert(quest_is_moved(front[i], done[i], c, keys));
            }
        }
    }
}

proof fn lemma_keyed_chapters(k: Keying, keys: Seq<Seq<char>>, chapters: Seq<quest::ChapterModel>)
    requires
        0 <= k.used,
        k.used + localize::keys_for_chapters(chapters) <= keys.len(),
        keys.no_duplicates(),
        is_sound(k.catalog),
    ensures
        ({
            let r = localize::keyed_chapters(k, keys, chapters);
            &&& goes_on(k, r.0, keys)
            &&& r.0.used == k.used + localize::keys_for_chapters(chapters)
            &&& chapters_are_moved(chapters, r.1, r.0, keys)
        }),
    decreases chapters.len(),
{
    if chapters.len() > 0 {
        let front = chapters.drop_last();
        lemma_keyed_chapters(k, keys, front);
        let (b, done) = localize::keyed_chapters(k, keys, front);
        let last = chapters.last();
        lemma_keyed(b, keys, last.title);
        let (b1, title) = localize::keyed(b, keys, last.title);
        lemma_keyed_quests(b1, keys, last.quests);
        let (c, moved) = localize::keyed_chapter(b, keys, last);
        lemma_goes_on(b, b1, c, keys);
        lemma_goes_on(k, b, c, keys);
        lemma_stays_moved(last.title, title, b1, c, keys);
        assert(chapter_is_moved(last, moved, c, keys));
        let all = done.push(moved);
        assert forall|i: int| 0 <= i < chapters.len() implies chapter_is_moved(
            #[trigger] chapters[i],
            all[i],
            c,
            keys,
        ) by {
            if i < front.len() {
                assert(chapter_is_moved(front[i], done[i], b, keys));
                lemma_chapter_stays_moved(front[i], done[i], b, c, keys);
            }
        }
    }
}

proof fn lemma_keyed_groups(k: Keying, keys: Seq<Seq<char>>, groups: Seq<quest::GroupModel>)
    requires
        0 <= k.used,
        k.used + localize::keys_for_groups(groups) <= keys.len(),
        keys.no_duplicates(),
        is_sound(k.catalog),
    ensures
        ({
            let r = localize::keyed_groups(k, keys, groups);
            &&& goes_on(k, r.0, keys)
            &&& r.0.used == k.used + localize::keys_for_groups(groups)
            &&& groups_are_moved(groups, r.1, r.0, keys)
        }),
    decreases groups.len(),
{
    if groups.len() > 0 {
        let front = groups.drop_last();
        lemma_keyed_groups(k, keys, front);
        let (b, done) = localize::keyed_groups(k, keys, front);
        let last = groups.last();
        lemma_keyed(b, keys, last.title);
        let (c, title) = localize::keyed(b, keys, last.title);
        lemma_goes_on(k, b, c, keys);
        let all = localize::keyed_groups(k, keys, groups).1;
        assert forall|i: int| 0 <= i < groups.len() implies (#[trigger] groups[i]).id == all[i].id
            && is_moved(groups[i].title, all[i].title, c, keys) by {
            if i < front.len() {
                assert(front[i] == groups[i] && all[i] == done[i]);
                lemma_stays_moved(front[i].title, done[i].title, b, c, keys);
            }
        }
    }
}

/// Moving the texts of a book into the active language moves them all: each title of the book, of
/// its groups, chapters, quests and tasks, each description and each subtitle either stays, where
/// it is blank or a key already, or is replaced by a key under which the language holds it.
/// Nothing else in the book changes. The keys are different ones.
pub proof fn law_texts_are_moved_into_the_language(book: editor::BookModel, keys: Seq<Seq<char>>)
    requires
        is_sound(book.translations),
        keys.len() == localize::keys_for_book(book),
        keys.no_duplicates(),
    ensures
        ({
            let after = localize::keyed_book(book, keys);
            let k = Keying { catalog: after.translations, used: keys.len() as int };
            &&& is_moved(book.title, after.title, k, keys)
            &&& groups_are_moved(book.groups, after.groups, k, keys)
            &&& chapters_are_moved(book.chapters, after.chapters, k, keys)
            &&& after.grid_scale == book.grid_scale
            &&& after.preserved_files == book.preserved_files
            &&& after.translations.active_locale == book.translations.active_locale
        }),
{
    let k = Keying { catalog: book.translations, used: 0 };
    lemma_keyed(k, keys, book.title);
    let (a, title) = localize::keyed(k, keys, book.title);
    lemma_keyed_groups(a, keys, book.groups);
    let (b, groups) = localize::keyed_groups(a, keys, book.groups);
    lemma_keyed_chapters(b, keys, book.chapters);
    let (c, chapters) = localize::keyed_chapters(b, keys, book.chapters);
    lemma_goes_on(a, b, c, keys);
    lemma_stays_moved(book.title, title, a, c, keys);
    assert forall|i: int| 0 <= i < book.groups.len() implies (#[trigger] book.groups[i]).id
        == groups[i].id && is_moved(book.groups[i].title, groups[i].title, c, keys) by {
        lemma_stays_moved(book.groups[i].title, groups[i].title, b, c, keys);
    }
    assert(c.used == keys.len());
}

} // verus!
