//! The files in which the texts of a language are kept.

use crate::table;
use crate::table::TextMap;
use crate::text;
use crate::translation;
use crate::translation::{normalize_locale, TranslationCatalog};
use std::collections::BTreeMap;
use vstd::prelude::*;

verus! {

// ---------------------------------------------------------------------------
// JSON
// ---------------------------------------------------------------------------

/// Keys and texts in a list.
pub open spec fn pairs_of(list: Seq<(String, String)>) -> Seq<(Seq<char>, Seq<char>)> {
    Seq::new(list.len(), |i: int| (list[i].0@, list[i].1@))
}

pub open spec fn pairs_or_text(
    r: Result<Vec<(String, String)>, String>,
) -> Result<Seq<(Seq<char>, Seq<char>)>, Seq<char>> {
    match r {
        Ok(list) => Ok(pairs_of(list@)),
        Err(message) => Err(message@),
    }
}

/// What `serde_json::from_slice` makes of bytes that should hold a JSON object of texts: its
/// keys and texts in the order of the keys, or the text of the error.
pub uninterp spec fn json_pairs(bytes: Seq<u8>) -> Result<Seq<(Seq<char>, Seq<char>)>, Seq<char>>;

/// The bytes that `serde_json::to_vec` makes of a map from texts to texts.
pub uninterp spec fn json_bytes(pairs: Seq<(Seq<char>, Seq<char>)>) -> Seq<u8>;

/// The bytes are read as these entries.
pub open spec fn holds_pairs(bytes: Seq<u8>, pairs: Seq<(Seq<char>, Seq<char>)>) -> bool {
    json_pairs(bytes) == Ok::<Seq<(Seq<char>, Seq<char>)>, Seq<char>>(pairs)
}

/// No line break stands among the bytes.
pub open spec fn is_one_line(bytes: Seq<u8>) -> bool {
    forall|i: int| 0 <= i < bytes.len() ==> #[trigger] bytes[i] != 10
}

/// `serde_json::from_slice` for a `BTreeMap<String, String>`: the entries of a JSON object, or
/// the text of the error. The result rests on the bytes alone.
#[verifier::external_body]
pub(crate) fn read_json(bytes: &Vec<u8>) -> (r: Result<Vec<(String, String)>, String>)
    ensures
        pairs_or_text(r) == json_pairs(bytes@),
{
    serde_json::from_slice::<BTreeMap<String, String>>(bytes)
        .map(|values| values.into_iter().collect())
        .map_err(|error| error.to_string())
}

/// `serde_json::to_vec` for a `BTreeMap<String, String>`: the bytes of a JSON object. It fails only
/// where a value refuses to be written or where the keys of a map are no texts, and of a map from
/// texts to texts neither is so. The bytes rest on the entries alone; `from_slice` reads the same
/// entries from them, and no line break stands among them, for the compact form has none between
/// its parts and texts are escaped.
#[verifier::external_body]
fn write_json(pairs: Vec<(String, String)>) -> (r: Result<Vec<u8>, String>)
    requires
        table::ordered(pairs_of(pairs@)),
    ensures
        r is Ok,
        r->Ok_0@ == json_bytes(pairs_of(pairs@)),
        holds_pairs(r->Ok_0@, pairs_of(pairs@)),
        is_one_line(r->Ok_0@),
{
    let values = pairs.into_iter().collect::<BTreeMap<String, String>>();
    serde_json::to_vec(&values).map_err(|error| error.to_string())
}

// ---------------------------------------------------------------------------
// Reading
// ---------------------------------------------------------------------------

/// Entries put into a map one after the other.
pub open spec fn gathered(pairs: Seq<(Seq<char>, Seq<char>)>) -> Seq<(Seq<char>, Seq<char>)>
    decreases pairs.len(),
{
    if pairs.len() == 0 {
        Seq::empty()
    } else {
        table::upsert(gathered(pairs.drop_last()), pairs.last().0, pairs.last().1)
    }
}

/// Entries whose keys ascend are the map that they make.
pub proof fn lemma_gathered_ordered(pairs: Seq<(Seq<char>, Seq<char>)>)
    requires
        table::ordered(pairs),
    ensures
        gathered(pairs) == pairs,
    decreases pairs.len(),
{
    if pairs.len() > 0 {
        let front = pairs.drop_last();
        assert(table::ordered(front)) by {
            assert forall|i: int, j: int| 0 <= i < j < front.len() implies text::precedes(
                #[trigger] front[i].0,
                #[trigger] front[j].0,
            ) by {
                assert(front[i] == pairs[i] && front[j] == pairs[j]);
            }
        }
        lemma_gathered_ordered(front);
        table::lemma_upsert_last(pairs, front, pairs.len() - 1);
        assert(front.push(pairs.last()) =~= pairs);
    }
}

/// A map of texts made of entries.
pub fn gather(pairs: Vec<(String, String)>) -> (r: TextMap<String>)
    ensures
        translation::words(r) == gathered(pairs_of(pairs@)),
{
    let ghost all = pairs_of(pairs@);
    let mut map: TextMap<String> = TextMap::new();
    let mut i: usize = 0;
    assert(all.take(0) =~= Seq::empty());
    assert(translation::words(map) =~= Seq::empty());
    while i < pairs.len()
        invariant
            i <= pairs@.len(),
            all == pairs_of(pairs@),
            translation::words(map) == gathered(all.take(i as int)),
        decreases pairs@.len() - i,
    {
        proof {
            assert(all.take(i + 1).drop_last() =~= all.take(i as int));
            table::lemma_mapped(map@, |s: String| s@, pairs@[i as int].0@);
        }
        map.insert(pairs[i].0.clone(), pairs[i].1.clone());
        i += 1;
    }
    assert(all.take(i as int) =~= all);
    map
}

/// A file that may hold a language: its path as it is shown, its name without the ending, and
/// what stands in it.
pub struct LanguageFile {
    pub path: String,
    pub stem: String,
    pub contents: Vec<u8>,
}

/// The mathematical form of a file of a language.
pub ghost struct LanguageFileModel {
    pub path: Seq<char>,
    pub stem: Seq<char>,
    pub contents: Seq<u8>,
}

impl View for LanguageFile {
    type V = LanguageFileModel;

    open spec fn view(&self) -> LanguageFileModel {
        LanguageFileModel {
            path: self.path@,
            stem: self.stem@,
            contents: self.contents@,
        }
    }
}

/// The first file that holds no JSON object of texts, and why.
pub open spec fn language_fault(files: Seq<LanguageFileModel>) -> Option<(Seq<char>, Seq<char>)>
    decreases files.len(),
{
    if files.len() == 0 {
        None
    } else {
        match language_fault(files.drop_last()) {
            Some(fault) => Some(fault),
            None => match json_pairs(files.last().contents) {
                Ok(_) => None,
                Err(message) => Some((files.last().path, message)),
            },
        }
    }
}

/// The languages of the files. Of two files of one language the later counts.
pub open spec fn languages_in(files: Seq<LanguageFileModel>) -> Seq<
    (Seq<char>, Seq<(Seq<char>, Seq<char>)>),
>
    decreases files.len(),
{
    if files.len() == 0 {
        Seq::empty()
    } else {
        let pairs = match json_pairs(files.last().contents) {
            Ok(pairs) => pairs,
            Err(_) => Seq::empty(),
        };
        table::upsert(
            languages_in(files.drop_last()),
            translation::normal_locale(files.last().stem),
            gathered(pairs),
        )
    }
}

/// The catalog with these languages. English is shown if it is there, else the first language.
pub open spec fn catalog_of(
    languages: Seq<(Seq<char>, Seq<(Seq<char>, Seq<char>)>)>,
) -> translation::CatalogModel {
    translation::CatalogModel {
        languages,
        active_locale: if languages.len() == 0 || table::has_key(languages, "en_us"@) {
            "en_us"@
        } else {
            languages[0].0
        },
    }
}

/// What is said of a file that holds no JSON object of texts.
pub open spec fn language_error(fault: (Seq<char>, Seq<char>)) -> Seq<char> {
    "ошибка JSON в "@ + fault.0 + ": "@ + fault.1
}

/// The languages of the files, or what is said of the first that cannot be read.
pub fn load_translations(files: &Vec<LanguageFile>) -> (r: Result<TranslationCatalog, String>)
    ensures
        match (r, language_fault(crate::order::views(files@))) {
            (Ok(catalog), None) => catalog@ == catalog_of(
                languages_in(crate::order::views(files@)),
            ),
            (Err(message), Some(fault)) => message@ == language_error(fault),
            _ => false,
        },
{
    let ghost all = crate::order::views(files@);
    let ghost f = |m: TextMap<String>| translation::words(m);
    let mut languages: TextMap<TextMap<String>> = TextMap::new();
    let mut i: usize = 0;
    assert(all.take(0) =~= Seq::empty());
    assert(translation::languages_of(languages) =~= Seq::empty());
    while i < files.len()
        invariant
            i <= files@.len(),
            all == crate::order::views(files@),
            language_fault(all.take(i as int)) is None,
            translation::languages_of(languages) == languages_in(all.take(i as int)),
        decreases files@.len() - i,
    {
        let file = &files[i];
        proof {
            assert(all.take(i + 1).drop_last() =~= all.take(i as int));
            assert(all.take(i + 1).last() == file@);
        }
        match read_json(&file.contents) {
            Ok(pairs) => {
                let locale = normalize_locale(file.stem.as_str());
                proof {
                    table::lemma_mapped(
                        languages@,
                        |m: TextMap<String>| translation::words(m),
                        locale@,
                    );
                }
                languages.insert(locale, gather(pairs));
            },
            Err(error) => {
                let mut message = "ошибка JSON в ".to_owned();
                message.append(file.path.as_str());
                message.append(": ");
                message.append(error.as_str());
                proof {
                    lemma_fault_stays(all, i + 1);
                }
                return Err(message);
            },
        }
        i += 1;
    }
    assert(all.take(i as int) =~= all);
    proof {
        table::lemma_mapped(languages@, |m: TextMap<String>| translation::words(m), "en_us"@);
    }
    let active_locale = if languages.len() == 0 || languages.contains_key("en_us") {
        "en_us".to_owned()
    } else {
        languages.key_at(0).to_owned()
    };
    Ok(TranslationCatalog { languages, active_locale })
}

proof fn lemma_fault_stays(files: Seq<LanguageFileModel>, n: int)
    requires
        0 <= n <= files.len(),
        language_fault(files.take(n)) is Some,
    ensures
        language_fault(files) == language_fault(files.take(n)),
    decreases files.len(),
{
    if n < files.len() {
        assert(files.drop_last().take(n) =~= files.take(n));
        lemma_fault_stays(files.drop_last(), n);
    } else {
        assert(files.take(n) =~= files);
    }
}

// ---------------------------------------------------------------------------
// Writing
// ---------------------------------------------------------------------------

/// The entries of a map of texts.
pub fn entries(map: &TextMap<String>) -> (r: Vec<(String, String)>)
    ensures
        pairs_of(r@) == translation::words(*map),
        table::ordered(pairs_of(r@)),
{
    let n: usize = map.len();
    let mut r: Vec<(String, String)> = Vec::new();
    let mut i: usize = 0;
    while i < n
        invariant
            i <= n == map@.len(),
            r@.len() == i,
            forall|j: int|
                0 <= j < i ==> (#[trigger] r@[j]).0@ == map@[j].0 && r@[j].1@ == map@[j].1@,
        decreases n - i,
    {
        r.push((map.key_at(i).to_owned(), map.value_at(i).clone()));
        i += 1;
    }
    assert(pairs_of(r@) =~= translation::words(*map));
    proof {
        table::lemma_mapped(map@, |s: String| s@, Seq::empty());
    }
    r
}

/// The bytes of the file of a language, which say the same when they are read.
pub fn language_bytes(language: &TextMap<String>) -> (r: Vec<u8>)
    ensures
        r@ == json_bytes(translation::words(*language)),
        holds_pairs(r@, translation::words(*language)),
        is_one_line(r@),
        gathered(translation::words(*language)) == translation::words(*language),
{
    let list = entries(language);
    proof {
        lemma_gathered_ordered(pairs_of(list@));
    }
    write_json(list).unwrap()
}

// ---------------------------------------------------------------------------
// Laws
// ---------------------------------------------------------------------------

/// Languages that are written, each to a file of its name, are the languages that are read.
pub proof fn law_saved_languages_are_read_back(
    languages: Seq<(Seq<char>, Seq<(Seq<char>, Seq<char>)>)>,
    files: Seq<LanguageFileModel>,
)
    requires
        table::ordered(languages),
        files.len() == languages.len(),
        forall|i: int|
            0 <= i < files.len() ==> {
                &&& (#[trigger] files[i]).stem == languages[i].0
                &&& translation::normal_locale(languages[i].0) == languages[i].0
                &&& table::ordered(languages[i].1)
                &&& holds_pairs(files[i].contents, languages[i].1)
            },
    ensures
        language_fault(files) is None,
        languages_in(files) == languages,
    decreases files.len(),
{
    if files.len() > 0 {
        let front = languages.drop_last();
        let n = languages.len() - 1;
        assert(table::ordered(front)) by {
            assert forall|i: int, j: int| 0 <= i < j < front.len() implies text::precedes(
                #[trigger] front[i].0,
                #[trigger] front[j].0,
            ) by {
                assert(front[i] == languages[i] && front[j] == languages[j]);
            }
        }
        assert forall|i: int| 0 <= i < files.drop_last().len() implies {
            &&& (#[trigger] files.drop_last()[i]).stem == front[i].0
            &&& translation::normal_locale(front[i].0) == front[i].0
            &&& table::ordered(front[i].1)
            &&& holds_pairs(files.drop_last()[i].contents, front[i].1)
        } by {
            assert(files[i].stem == languages[i].0);
        }
        law_saved_languages_are_read_back(front, files.drop_last());
        assert(files[n].stem == languages[n].0);
        lemma_gathered_ordered(languages[n].1);
        table::lemma_upsert_last(languages, front, n);
        assert(front.push(languages[n]) =~= languages);
    } else {
        assert(languages =~= Seq::empty());
    }
}

} // verus!
