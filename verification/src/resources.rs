//! The items and entities that quests can speak of, as they are found in mods.

use crate::compose;
use crate::compose::{join, replace, split};
use crate::languages;
use crate::languages::{gather, read_json};
use crate::letters;
use crate::letters::to_upper_case;
use crate::order;
use crate::path;
use crate::path::ProjectPath;
use crate::saving;
use crate::saving::project_root;
use crate::table;
use crate::table::TextMap;
use crate::text;
use crate::translation;
use std::sync::Arc;
use vstd::prelude::*;

verus! {

// ---------------------------------------------------------------------------
// Entries
// ---------------------------------------------------------------------------

/// What a resource is.
#[derive(Debug, Clone, Copy, PartialEq, Eq, Structural)]
pub enum ResourceKind {
    Item,
    Entity,
}

/// A resource: its id and name, what it is, where it was found, and its picture.
#[derive(Debug, Clone)]
pub struct ResourceEntry {
    pub id: String,
    pub name: String,
    pub kind: ResourceKind,
    pub source: String,
    pub icon_png: Option<Arc<Vec<u8>>>,
}

/// The mathematical form of a resource.
#[verifier::ext_equal]
pub ghost struct EntryModel {
    pub id: Seq<char>,
    pub name: Seq<char>,
    pub kind: ResourceKind,
    pub source: Seq<char>,
    pub icon_png: Option<Seq<u8>>,
}

/// The mathematical form of a picture that may be missing.
pub open spec fn picture(icon: Option<Arc<Vec<u8>>>) -> Option<Seq<u8>> {
    match icon {
        Some(bytes) => Some((*bytes)@),
        None => None,
    }
}

impl View for ResourceEntry {
    type V = EntryModel;

    open spec fn view(&self) -> EntryModel {
        EntryModel {
            id: self.id@,
            name: self.name@,
            kind: self.kind,
            source: self.source@,
            icon_png: picture(self.icon_png),
        }
    }
}

/// All resources that were found, where they were looked for, and what could not be read.
#[derive(Debug, Clone)]
pub struct ResourceIndex {
    pub entries: Vec<ResourceEntry>,
    pub scanned_sources: Vec<String>,
    pub warnings: Vec<String>,
}

/// The mathematical form of an index.
#[verifier::ext_equal]
pub ghost struct IndexModel {
    pub entries: Seq<EntryModel>,
    pub scanned_sources: Seq<Seq<char>>,
    pub warnings: Seq<Seq<char>>,
}

impl View for ResourceIndex {
    type V = IndexModel;

    open spec fn view(&self) -> IndexModel {
        IndexModel {
            entries: order::views(self.entries@),
            scanned_sources: text::texts(self.scanned_sources@),
            warnings: text::texts(self.warnings@),
        }
    }
}

/// The file that holds the client of the game.
pub open spec fn client_file(project: Seq<path::PartModel>) -> Seq<path::PartModel> {
    path::inside(
        path::inside(saving::project_folder(project), ".ftbgui"@),
        "minecraft-client.jar"@,
    )
}

/// The file that holds the client of the game.
pub fn minecraft_jar_path(project: &ProjectPath) -> (r: ProjectPath)
    ensures
        r@ == client_file(project@),
{
    project_root(project).join(".ftbgui").join("minecraft-client.jar")
}

// ---------------------------------------------------------------------------
// Names
// ---------------------------------------------------------------------------

/// The path under which a resource is registered: in the game itself, what follows the first dot
/// of a translated path is left out.
pub open spec fn registered(namespace: Seq<char>, translation_path: Seq<char>) -> Seq<char> {
    if namespace == "minecraft"@ {
        match text::cut(translation_path, "."@) {
            Some((first, _)) => first,
            None => translation_path,
        }
    } else {
        translation_path
    }
}

/// The path under which a resource is registered.
pub fn registry_path(namespace: &str, translation_path: &str) -> (r: String)
    ensures
        r@ == registered(namespace@, translation_path@),
{
    if text::same(namespace, "minecraft") {
        match text::split_once(translation_path, ".") {
            Some((first, _)) => first,
            None => translation_path.to_owned(),
        }
    } else {
        translation_path.to_owned()
    }
}

/// The path ends in a marker, or a marker stands in it before a dot.
pub open spec fn is_marked(path: Seq<char>, marker: Seq<char>) -> bool {
    text::has_suffix(path, marker) || text::has_text(path, marker + "."@)
}

/// The translation does not name a resource but says something about it.
pub open spec fn is_auxiliary(path: Seq<char>) -> bool {
    is_marked(path, ".tooltip"@) || is_marked(path, ".description"@) || is_marked(path, ".desc"@)
        || is_marked(path, ".summary"@) || is_marked(path, ".condition"@) || is_marked(
        path,
        ".behaviour"@,
    ) || is_marked(path, ".behavior"@)
}

fn has_marker(path: &str, marker: &str) -> (r: bool)
    ensures
        r == is_marked(path@, marker@),
{
    let mut dotted = marker.to_owned();
    dotted.append(".");
    text::ends_with(path, marker) || text::contains(path, dotted.as_str())
}

/// Whether the translation does not name a resource but says something about it.
pub fn is_auxiliary_translation(path: &str) -> (r: bool)
    ensures
        r == is_auxiliary(path@),
{
    has_marker(path, ".tooltip") || has_marker(path, ".description") || has_marker(path, ".desc")
        || has_marker(path, ".summary") || has_marker(path, ".condition") || has_marker(
        path,
        ".behaviour",
    ) || has_marker(path, ".behavior")
}

/// The parts of a name that are not empty.
pub open spec fn nonempty(parts: Seq<Seq<char>>) -> Seq<Seq<char>>
    decreases parts.len(),
{
    if parts.len() == 0 {
        Seq::empty()
    } else if parts.last().len() == 0 {
        nonempty(parts.drop_last())
    } else {
        nonempty(parts.drop_last()).push(parts.last())
    }
}

/// The words of the last part of a path.
pub open spec fn words_of(value: Seq<char>) -> Seq<Seq<char>> {
    nonempty(compose::pieces(compose::pieces(value, '/').last(), '_'))
}

/// Words with other first characters.
pub open spec fn with_initials(words: Seq<Seq<char>>, initials: Seq<Seq<char>>) -> Seq<Seq<char>> {
    Seq::new(words.len(), |i: int| initials[i] + words[i].skip(1))
}

/// The upper case of the first characters of words.
pub open spec fn capitals(words: Seq<Seq<char>>) -> Seq<Seq<char>> {
    Seq::new(words.len(), |i: int| letters::uppercase(words[i][0]))
}

/// A path as a name that can be read.
pub open spec fn humanized(value: Seq<char>) -> Seq<char> {
    compose::joined(with_initials(words_of(value), capitals(words_of(value))), " "@)
}

proof fn lemma_nonempty(parts: Seq<Seq<char>>)
    ensures
        forall|i: int| 0 <= i < nonempty(parts).len() ==> (#[trigger] nonempty(parts)[i]).len() > 0,
    decreases parts.len(),
{
    if parts.len() > 0 {
        lemma_nonempty(parts.drop_last());
        let front = nonempty(parts.drop_last());
        assert forall|i: int| 0 <= i < nonempty(parts).len() implies (#[trigger] nonempty(
            parts,
        )[i]).len() > 0 by {
            if i < front.len() {
                assert(nonempty(parts)[i] == front[i]);
            }
        }
    }
}

/// The words of the last part of a path.
pub fn name_words(value: &str) -> (r: Vec<String>)
    ensures
        text::texts(r@) == words_of(value@),
        forall|i: int| 0 <= i < r@.len() ==> (#[trigger] r@[i])@.len() > 0,
{
    let parts = split(value, '/');
    let last = &parts[parts.len() - 1];
    let pieces = split(last.as_str(), '_');
    let ghost all = text::texts(pieces@);
    assert(last@ == compose::pieces(value@, '/').last());
    let mut r: Vec<String> = Vec::new();
    let mut i: usize = 0;
    assert(all.take(0) =~= Seq::empty());
    assert(text::texts(r@) =~= Seq::empty());
    while i < pieces.len()
        invariant
            i <= pieces@.len(),
            all == text::texts(pieces@),
            text::texts(r@) == nonempty(all.take(i as int)),
        decreases pieces@.len() - i,
    {
        proof {
            assert(all.take(i + 1).drop_last() =~= all.take(i as int));
            assert(all.take(i + 1).last() == pieces@[i as int]@);
            reveal_strlit("");
            assert(pieces@[i as int]@.len() == 0 ==> pieces@[i as int]@ =~= ""@);
        }
        if !text::same(pieces[i].as_str(), "") {
            let ghost before = r@;
            r.push(pieces[i].clone());
            assert(text::texts(r@) =~= text::texts(before).push(pieces@[i as int]@));
        }
        i += 1;
    }
    assert(all.take(i as int) =~= all);
    proof {
        lemma_nonempty(all);
        assert forall|k: int| 0 <= k < r@.len() implies (#[trigger] r@[k])@.len() > 0 by {
            assert(text::texts(r@)[k] == r@[k]@);
        }
    }
    r
}

/// Words with other first characters, in a row.
pub fn join_words(words: &Vec<String>, initials: &Vec<String>) -> (r: String)
    requires
        words@.len() == initials@.len(),
        forall|i: int| 0 <= i < words@.len() ==> (#[trigger] words@[i])@.len() > 0,
    ensures
        r@ == compose::joined(
            with_initials(text::texts(words@), text::texts(initials@)),
            " "@,
        ),
{
    let mut parts: Vec<String> = Vec::new();
    let mut i: usize = 0;
    while i < words.len()
        invariant
            i <= words@.len() == initials@.len(),
            parts@.len() == i,
            forall|k: int| 0 <= k < words@.len() ==> (#[trigger] words@[k])@.len() > 0,
            forall|k: int|
                0 <= k < i ==> (#[trigger] parts@[k])@ == initials@[k]@ + words@[k]@.skip(1),
        decreases words@.len() - i,
    {
        let chars = text::chars_of(words[i].as_str());
        let mut word = initials[i].clone();
        let rest = text::part(&chars, 1, chars.len());
        word.append(rest.as_str());
        assert(rest@ =~= words@[i as int]@.skip(1));
        parts.push(word);
        i += 1;
    }
    assert(text::texts(parts@) =~= with_initials(text::texts(words@), text::texts(initials@)));
    join(&parts, " ")
}

/// A path as a name that can be read.
pub fn humanize(value: &str) -> (r: String)
    ensures
        r@ == humanized(value@),
{
    let words = name_words(value);
    let mut initials: Vec<String> = Vec::new();
    let mut i: usize = 0;
    while i < words.len()
        invariant
            i <= words@.len(),
            initials@.len() == i,
            forall|k: int| 0 <= k < words@.len() ==> (#[trigger] words@[k])@.len() > 0,
            forall|k: int|
                0 <= k < i ==> (#[trigger] initials@[k])@ == letters::uppercase(words@[k]@[0]),
        decreases words@.len() - i,
    {
        let chars = text::chars_of(words[i].as_str());
        initials.push(to_upper_case(chars[0]));
        i += 1;
    }
    assert(text::texts(initials@) =~= capitals(text::texts(words@)));
    join_words(&words, &initials)
}

// ---------------------------------------------------------------------------
// What files of a mod are called
// ---------------------------------------------------------------------------

/// The namespace whose language a file of a mod holds.
pub open spec fn language_of(name: Seq<char>) -> Option<Seq<char>> {
    let parts = compose::pieces(name, '/');
    if parts.len() == 4 && parts[0] == "assets"@ && parts[2] == "lang"@ && (parts[3]
        == "en_us.json"@ || parts[3] == "en_gb.json"@) {
        Some(parts[1])
    } else {
        None
    }
}

/// The namespace whose language a file of a mod holds.
pub fn lang_namespace(name: &str) -> (r: Option<String>)
    ensures
        text::opt_text(r) == language_of(name@),
{
    let parts = split(name, '/');
    let ghost all = compose::pieces(name@, '/');
    if parts.len() != 4 {
        return None;
    }
    proof {
        assert(all[0] == parts@[0]@ && all[1] == parts@[1]@ && all[2] == parts@[2]@ && all[3]
            == parts@[3]@);
    }
    if text::same(parts[0].as_str(), "assets") && text::same(parts[2].as_str(), "lang") && (
    text::same(parts[3].as_str(), "en_us.json") || text::same(parts[3].as_str(), "en_gb.json")) {
        Some(parts[1].clone())
    } else {
        None
    }
}

/// The id that a file of a mod has: its namespace and its path in a folder, without the ending.
pub open spec fn id_in(name: Seq<char>, folder: Seq<char>, ending: Seq<char>) -> Option<Seq<char>> {
    match text::without_prefix(name, "assets/"@) {
        Some(rest) => match text::cut(rest, folder) {
            Some((namespace, file)) => match text::without_suffix(file, ending) {
                Some(path) => Some(namespace + ":"@ + path),
                None => None,
            },
            None => None,
        },
        None => None,
    }
}

fn id_from_path(name: &str, folder: &str, ending: &str) -> (r: Option<String>)
    ensures
        text::opt_text(r) == id_in(name@, folder@, ending@),
{
    match text::strip_prefix(name, "assets/") {
        Some(rest) => {
            match text::split_once(rest.as_str(), folder) {
                Some((namespace, file)) => {
                    match text::strip_suffix(file.as_str(), ending) {
                        Some(path) => {
                            let mut id = namespace;
                            id.append(":");
                            id.append(path.as_str());
                            Some(id)
                        },
                        None => None,
                    }
                },
                None => None,
            }
        },
        None => None,
    }
}

/// The id of the model that a file of a mod holds.
pub fn model_id(name: &str) -> (r: Option<String>)
    ensures
        text::opt_text(r) == id_in(name@, "/models/"@, ".json"@),
{
    id_from_path(name, "/models/", ".json")
}

/// The id of the texture that a file of a mod holds.
pub fn texture_id_from_path(name: &str) -> (r: Option<String>)
    ensures
        text::opt_text(r) == id_in(name@, "/textures/"@, ".png"@),
{
    id_from_path(name, "/textures/", ".png")
}

/// How a file of an archive is read: as text, as bytes, or not at all.
#[derive(Debug, Clone, Copy, PartialEq, Eq, Structural)]
pub enum FileUse {
    Text,
    Bytes,
    Skip,
}

/// How a file of an archive is read: languages and models as text, pictures as bytes.
pub fn file_use(name: &str) -> (r: FileUse)
    ensures
        r == (if language_of(name@) is Some || id_in(name@, "/models/"@, ".json"@) is Some {
            FileUse::Text
        } else if id_in(name@, "/textures/"@, ".png"@) is Some {
            FileUse::Bytes
        } else {
            FileUse::Skip
        }),
{
    if lang_namespace(name).is_some() || model_id(name).is_some() {
        FileUse::Text
    } else if texture_id_from_path(name).is_some() {
        FileUse::Bytes
    } else {
        FileUse::Skip
    }
}

/// The id of a file in a folder of a namespace, of which the path and the length of the ending are
/// given.
pub open spec fn id_in_folder(namespace: Seq<char>, relative: Seq<char>, ending: nat) -> Seq<char> {
    let path = compose::replaced(relative, "\\"@, "/"@);
    namespace + ":"@ + (if path.len() >= ending {
        path.take(path.len() - ending)
    } else {
        Seq::empty()
    })
}

/// The id of a file in a folder of a namespace, of which the path and the length of the ending are
/// given.
pub fn folder_id(namespace: &str, relative: &str, ending: usize) -> (r: String)
    ensures
        r@ == id_in_folder(namespace@, relative@, ending as nat),
{
    proof {
        reveal_strlit("\\");
    }
    let path = replace(relative, "\\", "/");
    let chars = text::chars_of(path.as_str());
    let kept: usize = if chars.len() >= ending {
        chars.len() - ending
    } else {
        0
    };
    let mut r = namespace.to_owned();
    r.append(":");
    let front = text::part(&chars, 0, kept);
    proof {
        assert(front@ =~= chars@.take(kept as int));
        if chars@.len() < ending {
            assert(front@ =~= Seq::empty());
        }
    }
    r.append(front.as_str());
    r
}

// ---------------------------------------------------------------------------
// Models
// ---------------------------------------------------------------------------

/// A field of a JSON object: a text, an object with its texts, or something else.
#[derive(Debug, Clone)]
pub enum JsonField {
    Text(String),
    Object(Vec<(String, Option<String>)>),
    Other,
}

/// The mathematical form of a field.
#[verifier::ext_equal]
pub ghost enum FieldModel {
    Text(Seq<char>),
    Object(Seq<(Seq<char>, Option<Seq<char>>)>),
    Other,
}

/// The mathematical form of the fields of an object in a field.
pub open spec fn texts_in(list: Seq<(String, Option<String>)>) -> Seq<
    (Seq<char>, Option<Seq<char>>),
> {
    Seq::new(list.len(), |i: int| (list[i].0@, text::opt_text(list[i].1)))
}

impl View for JsonField {
    type V = FieldModel;

    open spec fn view(&self) -> FieldModel {
        match self {
            JsonField::Text(s) => FieldModel::Text(s@),
            JsonField::Object(list) => FieldModel::Object(texts_in(list@)),
            JsonField::Other => FieldModel::Other,
        }
    }
}

/// The mathematical form of fields with their names.
pub open spec fn fields_of(list: Seq<(String, JsonField)>) -> Seq<(Seq<char>, FieldModel)> {
    Seq::new(list.len(), |i: int| (list[i].0@, list[i].1@))
}

/// The mathematical form of fields that may be missing.
pub open spec fn opt_fields(list: Option<Vec<(String, JsonField)>>) -> Option<
    Seq<(Seq<char>, FieldModel)>,
> {
    match list {
        Some(fields) => Some(fields_of(fields@)),
        None => None,
    }
}

/// What `serde_json::from_slice` makes of bytes that hold a JSON value: the fields of an object,
/// no fields for another value, or nothing where the bytes are no JSON.
pub uninterp spec fn json_fields(bytes: Seq<u8>) -> Option<Seq<(Seq<char>, FieldModel)>>;

/// `serde_json::from_slice` for a `serde_json::Value`: the fields of the value, each a text, an
/// object with its texts, or something else. The result rests on the bytes alone.
#[verifier::external_body]
fn read_fields(bytes: &Vec<u8>) -> (r: Option<Vec<(String, JsonField)>>)
    ensures
        opt_fields(r) == json_fields(bytes@),
{
    let value = serde_json::from_slice::<serde_json::Value>(bytes).ok()?;
    let plain = |field: &serde_json::Value| match field {
        serde_json::Value::String(text) => JsonField::Text(text.clone()),
        serde_json::Value::Object(map) => JsonField::Object(
            map.iter().map(|(k, v)| (k.clone(), v.as_str().map(str::to_owned))).collect(),
        ),
        _ => JsonField::Other,
    };
    let fields = value.as_object().into_iter().flatten();
    Some(fields.map(|(key, field)| (key.clone(), plain(field))).collect())
}

/// A model: its textures under their names, and the model that it takes the rest from.
#[derive(Debug, Clone)]
pub struct Model {
    pub textures: Option<TextMap<Option<String>>>,
    pub parent: Option<String>,
}

/// The mathematical form of a model.
#[verifier::ext_equal]
pub ghost struct ModelModel {
    pub textures: Option<Seq<(Seq<char>, Option<Seq<char>>)>>,
    pub parent: Option<Seq<char>>,
}

/// The mathematical form of a map of texts that may be missing.
pub open spec fn opt_texts(map: TextMap<Option<String>>) -> Seq<(Seq<char>, Option<Seq<char>>)> {
    table::mapped(map@, |t: Option<String>| text::opt_text(t))
}

impl View for Model {
    type V = ModelModel;

    open spec fn view(&self) -> ModelModel {
        ModelModel {
            textures: match self.textures {
                Some(map) => Some(opt_texts(map)),
                None => None,
            },
            parent: text::opt_text(self.parent),
        }
    }
}

/// Entries in the order of their keys; of two with one key, the later one counts.
pub open spec fn arranged<V>(pairs: Seq<(Seq<char>, V)>) -> Seq<(Seq<char>, V)>
    decreases pairs.len(),
{
    if pairs.len() == 0 {
        Seq::empty()
    } else {
        table::upsert(arranged(pairs.drop_last()), pairs.last().0, pairs.last().1)
    }
}

/// The last field of a name.
pub open spec fn field_named(fields: Seq<(Seq<char>, FieldModel)>, key: Seq<char>) -> Option<
    FieldModel,
>
    decreases fields.len(),
{
    if fields.len() == 0 {
        None
    } else if fields.last().0 == key {
        Some(fields.last().1)
    } else {
        field_named(fields.drop_last(), key)
    }
}

/// The model that fields describe.
pub open spec fn model_of(fields: Seq<(Seq<char>, FieldModel)>) -> ModelModel {
    ModelModel {
        textures: match field_named(fields, "textures"@) {
            Some(FieldModel::Object(list)) => Some(arranged(list)),
            _ => None,
        },
        parent: match field_named(fields, "parent"@) {
            Some(FieldModel::Text(s)) => Some(s),
            _ => None,
        },
    }
}

fn find_field<'a>(fields: &'a Vec<(String, JsonField)>, key: &str) -> (r: Option<&'a JsonField>)
    ensures
        match r {
            Some(field) => field_named(fields_of(fields@), key@) == Some(field@),
            None => field_named(fields_of(fields@), key@) is None,
        },
{
    let ghost all = fields_of(fields@);
    let mut i: usize = fields.len();
    assert(all.take(i as int) =~= all);
    while i > 0
        invariant
            i <= fields@.len(),
            all == fields_of(fields@),
            field_named(all, key@) == field_named(all.take(i as int), key@),
        decreases i,
    {
        proof {
            assert(all.take(i as int).last() == all[i - 1]);
            assert(all.take(i as int).drop_last() =~= all.take(i - 1));
        }
        if text::same(fields[i - 1].0.as_str(), key) {
            return Some(&fields[i - 1].1);
        }
        i -= 1;
    }
    assert(all.take(0) =~= Seq::empty());
    None
}

fn arrange(list: &Vec<(String, Option<String>)>) -> (r: TextMap<Option<String>>)
    ensures
        opt_texts(r) == arranged(texts_in(list@)),
{
    let ghost all = texts_in(list@);
    let mut r: TextMap<Option<String>> = TextMap::new();
    let mut i: usize = 0;
    assert(all.take(0) =~= Seq::empty());
    assert(opt_texts(r) =~= Seq::empty());
    while i < list.len()
        invariant
            i <= list@.len(),
            all == texts_in(list@),
            opt_texts(r) == arranged(all.take(i as int)),
        decreases list@.len() - i,
    {
        let value = crate::quest::copy_option_text(&list[i].1);
        proof {
            assert(all.take(i + 1).drop_last() =~= all.take(i as int));
            assert(all.take(i + 1).last() == all[i as int]);
            table::lemma_mapped(r@, |t: Option<String>| text::opt_text(t), list@[i as int].0@);
        }
        r.insert(list[i].0.clone(), value);
        i += 1;
    }
    assert(all.take(i as int) =~= all);
    r
}

/// The model that fields describe.
pub fn model_from(fields: &Vec<(String, JsonField)>) -> (r: Model)
    ensures
        r@ == model_of(fields_of(fields@)),
{
    let textures = match find_field(fields, "textures") {
        Some(JsonField::Object(list)) => Some(arrange(list)),
        _ => None,
    };
    let parent = match find_field(fields, "parent") {
        Some(JsonField::Text(s)) => Some(s.clone()),
        _ => None,
    };
    Model { textures, parent }
}

/// The model that bytes hold.
pub open spec fn model_in(bytes: Seq<u8>) -> Option<ModelModel> {
    match json_fields(bytes) {
        Some(fields) => Some(model_of(fields)),
        None => None,
    }
}

/// The model that bytes hold.
pub fn read_model(bytes: &Vec<u8>) -> (r: Option<Model>)
    ensures
        match r {
            Some(model) => model_in(bytes@) == Some(model@),
            None => model_in(bytes@) is None,
        },
{
    match read_fields(bytes) {
        Some(fields) => Some(model_from(&fields)),
        None => None,
    }
}

// ---------------------------------------------------------------------------
// Pictures
// ---------------------------------------------------------------------------

/// A name with its namespace: its own, the one of the game for items and blocks, or the given one.
pub open spec fn full_name(value: Seq<char>, namespace: Seq<char>) -> Seq<char> {
    if text::has_text(value, ":"@) {
        value
    } else if text::has_prefix(value, "item/"@) || text::has_prefix(value, "block/"@) {
        "minecraft:"@ + value
    } else {
        namespace + ":"@ + value
    }
}

/// A name with its namespace.
pub fn normalize_model_reference(value: &str, namespace: &str) -> (r: String)
    ensures
        r@ == full_name(value@, namespace@),
{
    if text::contains(value, ":") {
        value.to_owned()
    } else if text::starts_with(value, "item/") || text::starts_with(value, "block/") {
        let mut r = "minecraft:".to_owned();
        r.append(value);
        r
    } else {
        let mut r = namespace.to_owned();
        r.append(":");
        r.append(value);
        r
    }
}

/// What stands for a reference: the reference, or for an alias the text that it names.
pub open spec fn unaliased(
    value: Seq<char>,
    textures: Seq<(Seq<char>, Option<Seq<char>>)>,
) -> Option<Seq<char>> {
    match text::without_prefix(value, "#"@) {
        Some(alias) => match table::lookup(textures, alias) {
            Some(target) => target,
            None => None,
        },
        None => Some(value),
    }
}

/// The texture that a reference names. An alias is followed once.
pub open spec fn texture_named(
    value: Seq<char>,
    textures: Seq<(Seq<char>, Option<Seq<char>>)>,
    namespace: Seq<char>,
) -> Option<Seq<char>> {
    match unaliased(value, textures) {
        Some(target) => if text::has_prefix(target, "#"@) {
            None
        } else {
            Some(full_name(target, namespace))
        },
        None => None,
    }
}

fn text_at(map: &TextMap<Option<String>>, key: &str) -> (r: Option<String>)
    ensures
        text::opt_text(r) == match table::lookup(opt_texts(*map), key@) {
            Some(value) => value,
            None => None,
        },
{
    proof {
        table::lemma_mapped(map@, |t: Option<String>| text::opt_text(t), key@);
    }
    match map.get(key) {
        Some(value) => crate::quest::copy_option_text(value),
        None => None,
    }
}

/// The texture that a reference names.
pub fn resolve_texture_reference(
    value: &str,
    textures: &TextMap<Option<String>>,
    namespace: &str,
) -> (r: Option<String>)
    ensures
        text::opt_text(r) == texture_named(value@, opt_texts(*textures), namespace@),
{
    let target = match text::strip_prefix(value, "#") {
        Some(alias) => text_at(textures, alias.as_str()),
        None => Some(value.to_owned()),
    };
    match target {
        Some(target) => {
            if text::starts_with(target.as_str(), "#") {
                None
            } else {
                Some(normalize_model_reference(target.as_str(), namespace))
            }
        },
        None => None,
    }
}

/// The mathematical form of pictures under their ids.
pub open spec fn pictures_of(map: TextMap<Arc<Vec<u8>>>) -> Seq<(Seq<char>, Seq<u8>)> {
    table::mapped(map@, |bytes: Arc<Vec<u8>>| (*bytes)@)
}

/// The mathematical form of models under their ids.
pub open spec fn models_of(map: TextMap<Model>) -> Seq<(Seq<char>, ModelModel)> {
    table::mapped(map@, |model: Model| model@)
}

/// The picture that a reference names.
pub open spec fn picture_named(
    value: Option<Seq<char>>,
    textures: Seq<(Seq<char>, Option<Seq<char>>)>,
    namespace: Seq<char>,
    pictures: Seq<(Seq<char>, Seq<u8>)>,
) -> Option<Seq<u8>> {
    match value {
        Some(s) => match texture_named(s, textures, namespace) {
            Some(id) => table::lookup(pictures, id),
            None => None,
        },
        None => None,
    }
}

/// The names under which a picture is looked for first.
pub open spec fn preferred(i: int) -> Seq<char> {
    if i == 0 {
        "layer0"@
    } else if i == 1 {
        "layer1"@
    } else if i == 2 {
        "all"@
    } else if i == 3 {
        "front"@
    } else if i == 4 {
        "side"@
    } else if i == 5 {
        "0"@
    } else {
        "particle"@
    }
}

/// The picture under the first of the preferred names, from the `i`th on, that gives one.
pub open spec fn preferred_picture(
    i: int,
    textures: Seq<(Seq<char>, Option<Seq<char>>)>,
    namespace: Seq<char>,
    pictures: Seq<(Seq<char>, Seq<u8>)>,
) -> Option<Seq<u8>>
    decreases 7 - i,
{
    if i >= 7 {
        None
    } else {
        let value = match table::lookup(textures, preferred(i)) {
            Some(value) => value,
            None => None,
        };
        match picture_named(value, textures, namespace, pictures) {
            Some(bytes) => Some(bytes),
            None => preferred_picture(i + 1, textures, namespace, pictures),
        }
    }
}

/// The picture of the first texture, from the `i`th on, that gives one.
pub open spec fn any_picture(
    i: int,
    textures: Seq<(Seq<char>, Option<Seq<char>>)>,
    namespace: Seq<char>,
    pictures: Seq<(Seq<char>, Seq<u8>)>,
) -> Option<Seq<u8>>
    decreases textures.len() - i,
{
    if i < 0 || i >= textures.len() {
        None
    } else {
        match picture_named(textures[i].1, textures, namespace, pictures) {
            Some(bytes) => Some(bytes),
            None => any_picture(i + 1, textures, namespace, pictures),
        }
    }
}

/// The picture that a model has by itself.
pub open spec fn own_picture(
    model: ModelModel,
    namespace: Seq<char>,
    pictures: Seq<(Seq<char>, Seq<u8>)>,
) -> Option<Seq<u8>> {
    match model.textures {
        Some(textures) => match preferred_picture(0, textures, namespace, pictures) {
            Some(bytes) => Some(bytes),
            None => any_picture(0, textures, namespace, pictures),
        },
        None => None,
    }
}

/// The model has no picture to give to others.
pub open spec fn is_template(parent: Seq<char>) -> bool {
    parent == "item/generated"@ || parent == "minecraft:item/generated"@ || parent
        == "item/handheld"@ || parent == "minecraft:item/handheld"@
}

/// How many models have not been seen.
pub open spec fn unseen(models: Seq<(Seq<char>, ModelModel)>, seen: Seq<Seq<char>>) -> nat
    decreases models.len(),
{
    if models.len() == 0 {
        0
    } else {
        unseen(models.drop_last(), seen) + (if seen.contains(models.last().0) {
            0nat
        } else {
            1
        })
    }
}

pub proof fn lemma_unseen(models: Seq<(Seq<char>, ModelModel)>, seen: Seq<Seq<char>>, id: Seq<char>)
    ensures
        unseen(models, seen.push(id)) <= unseen(models, seen),
        !seen.contains(id) && table::has_key(models, id) ==> unseen(models, seen.push(id)) < unseen(
            models,
            seen,
        ),
    decreases models.len(),
{
    if models.len() > 0 {
        let front = models.drop_last();
        lemma_unseen(front, seen, id);
        let key = models.last().0;
        let more = seen.push(id);
        if seen.contains(key) {
            let i = choose|i: int| 0 <= i < seen.len() && seen[i] == key;
            assert(more[i] == key);
        }
        if key == id {
            assert(more[seen.len() as int] == id);
        }
        if table::has_key(models, id) && key != id {
            let i = choose|i: int| 0 <= i < models.len() && #[trigger] models[i].0 == id;
            assert(front[i].0 == id);
            if more.contains(key) && !seen.contains(key) {
                let j = choose|j: int| 0 <= j < more.len() && more[j] == key;
                assert(seen[j] == key);
            }
        }
    }
}

/// The picture of a model: its own, or else that of the model it takes the rest from. A model that
/// was seen before has none.
pub open spec fn picture_of(
    id: Seq<char>,
    models: Seq<(Seq<char>, ModelModel)>,
    pictures: Seq<(Seq<char>, Seq<u8>)>,
    seen: Seq<Seq<char>>,
) -> Option<Seq<u8>>
    decreases unseen(models, seen),
{
    proof {
        lemma_unseen(models, seen, id);
        table::lemma_lookup_some(models, id);
    }
    if seen.contains(id) {
        None
    } else {
        match (table::lookup(models, id), text::cut(id, ":"@)) {
            (Some(model), Some((namespace, _))) => match own_picture(model, namespace, pictures) {
                Some(bytes) => Some(bytes),
                None => match model.parent {
                    Some(parent) => if is_template(parent) {
                        None
                    } else {
                        picture_of(
                            full_name(parent, namespace),
                            models,
                            pictures,
                            seen.push(id),
                        )
                    },
                    None => None,
                },
            },
            _ => None,
        }
    }
}

fn share(bytes: &Arc<Vec<u8>>) -> (r: Arc<Vec<u8>>)
    ensures
        (*r)@ == (*bytes)@,
{
    bytes.clone()
}

fn find_picture(
    value: Option<&str>,
    textures: &TextMap<Option<String>>,
    namespace: &str,
    pictures: &TextMap<Arc<Vec<u8>>>,
) -> (r: Option<Arc<Vec<u8>>>)
    ensures
        picture(r) == picture_named(
            text::opt_str(value),
            opt_texts(*textures),
            namespace@,
            pictures_of(*pictures),
        ),
{
    match value {
        Some(s) => {
            match resolve_texture_reference(s, textures, namespace) {
                Some(id) => {
                    proof {
                        table::lemma_mapped(pictures@, |b: Arc<Vec<u8>>| (*b)@, id@);
                    }
                    match pictures.get(id.as_str()) {
                        Some(bytes) => Some(share(bytes)),
                        None => None,
                    }
                },
                None => None,
            }
        },
        None => None,
    }
}

fn preferred_name(i: usize) -> (r: &'static str)
    ensures
        r@ == preferred(i as int),
{
    if i == 0 {
        "layer0"
    } else if i == 1 {
        "layer1"
    } else if i == 2 {
        "all"
    } else if i == 3 {
        "front"
    } else if i == 4 {
        "side"
    } else if i == 5 {
        "0"
    } else {
        "particle"
    }
}

fn find_own_picture(
    textures: &TextMap<Option<String>>,
    namespace: &str,
    pictures: &TextMap<Arc<Vec<u8>>>,
) -> (r: Option<Arc<Vec<u8>>>)
    ensures
        picture(r) == match preferred_picture(
            0,
            opt_texts(*textures),
            namespace@,
            pictures_of(*pictures),
        ) {
            Some(bytes) => Some(bytes),
            None => any_picture(0, opt_texts(*textures), namespace@, pictures_of(*pictures)),
        },
{
    let ghost map = opt_texts(*textures);
    let ghost all = pictures_of(*pictures);
    let mut i: usize = 0;
    while i < 7
        invariant
            i <= 7,
            map == opt_texts(*textures),
            all == pictures_of(*pictures),
            preferred_picture(0, map, namespace@, all) == preferred_picture(
                i as int,
                map,
                namespace@,
                all,
            ),
        decreases 7 - i,
    {
        let value = text_at(textures, preferred_name(i));
        let found = match &value {
            Some(s) => find_picture(Some(s.as_str()), textures, namespace, pictures),
            None => find_picture(None, textures, namespace, pictures),
        };
        if found.is_some() {
            return found;
        }
        i += 1;
    }
    let n: usize = textures.len();
    let mut k: usize = 0;
    while k < n
        invariant
            k <= n == textures@.len(),
            map == opt_texts(*textures),
            all == pictures_of(*pictures),
            preferred_picture(0, map, namespace@, all) is None,
            any_picture(0, map, namespace@, all) == any_picture(k as int, map, namespace@, all),
        decreases n - k,
    {
        let value = textures.value_at(k);
        let found = match value {
            Some(s) => find_picture(Some(s.as_str()), textures, namespace, pictures),
            None => find_picture(None, textures, namespace, pictures),
        };
        if found.is_some() {
            return found;
        }
        k += 1;
    }
    None
}

fn is_template_name(parent: &str) -> (r: bool)
    ensures
        r == is_template(parent@),
{
    text::same(parent, "item/generated") || text::same(parent, "minecraft:item/generated")
        || text::same(parent, "item/handheld") || text::same(parent, "minecraft:item/handheld")
}

/// The picture of a model.
pub fn resolve_model_icon(
    model_id: &str,
    models: &TextMap<Model>,
    pictures: &TextMap<Arc<Vec<u8>>>,
) -> (r: Option<Arc<Vec<u8>>>)
    ensures
        picture(r) == picture_of(
            model_id@,
            models_of(*models),
            pictures_of(*pictures),
            Seq::empty(),
        ),
{
    let ghost all = models_of(*models);
    let ghost shown = pictures_of(*pictures);
    let mut seen: Vec<String> = Vec::new();
    let mut current = model_id.to_owned();
    assert(text::texts(seen@) =~= Seq::empty());
    loop
        invariant
            all == models_of(*models),
            shown == pictures_of(*pictures),
            picture_of(model_id@, all, shown, Seq::empty()) == picture_of(
                current@,
                all,
                shown,
                text::texts(seen@),
            ),
        decreases unseen(all, text::texts(seen@)),
    {
        let ghost before = text::texts(seen@);
        let ghost id = current@;
        if compose::holds_text(&seen, current.as_str()) {
            return None;
        }
        proof {
            table::lemma_mapped(models@, |model: Model| model@, id);
            lemma_unseen(all, before, id);
            table::lemma_lookup_some(all, id);
        }
        let model = match models.get(current.as_str()) {
            Some(model) => model,
            None => {
                return None;
            },
        };
        let namespace = match text::split_once(current.as_str(), ":") {
            Some((namespace, _)) => namespace,
            None => {
                return None;
            },
        };
        match &model.textures {
            Some(textures) => {
                let found = find_own_picture(textures, namespace.as_str(), pictures);
                if found.is_some() {
                    return found;
                }
            },
            None => {},
        }
        let parent = match &model.parent {
            Some(parent) => parent,
            None => {
                return None;
            },
        };
        if is_template_name(parent.as_str()) {
            return None;
        }
        let next = normalize_model_reference(parent.as_str(), namespace.as_str());
        let ghost earlier = seen@;
        seen.push(current);
        assert(text::texts(seen@) =~= before.push(id));
        current = next;
    }
}

// ---------------------------------------------------------------------------
// What the files of a mod hold
// ---------------------------------------------------------------------------

/// What the files of a mod hold: languages, models and pictures.
#[derive(Debug, Clone)]
pub struct ModContents {
    pub languages: TextMap<TextMap<String>>,
    pub models: TextMap<Model>,
    pub pictures: TextMap<Arc<Vec<u8>>>,
}

/// The mathematical form of what the files of a mod hold.
#[verifier::ext_equal]
pub ghost struct ContentsModel {
    pub languages: Seq<(Seq<char>, Seq<(Seq<char>, Seq<char>)>)>,
    pub models: Seq<(Seq<char>, ModelModel)>,
    pub pictures: Seq<(Seq<char>, Seq<u8>)>,
}

impl View for ModContents {
    type V = ContentsModel;

    open spec fn view(&self) -> ContentsModel {
        ContentsModel {
            languages: translation::languages_of(self.languages),
            models: models_of(self.models),
            pictures: pictures_of(self.pictures),
        }
    }
}

/// Nothing.
pub open spec fn no_contents() -> ContentsModel {
    ContentsModel { languages: Seq::empty(), models: Seq::empty(), pictures: Seq::empty() }
}

/// The words with more of them, which take the place of those under the same keys.
pub open spec fn extended(
    words: Seq<(Seq<char>, Seq<char>)>,
    more: Seq<(Seq<char>, Seq<char>)>,
) -> Seq<(Seq<char>, Seq<char>)>
    decreases more.len(),
{
    if more.len() == 0 {
        words
    } else {
        table::upsert(extended(words, more.drop_last()), more.last().0, more.last().1)
    }
}

/// The words of a language that may be missing.
pub open spec fn words_or_none(
    languages: Seq<(Seq<char>, Seq<(Seq<char>, Seq<char>)>)>,
    namespace: Seq<char>,
) -> Seq<(Seq<char>, Seq<char>)> {
    match table::lookup(languages, namespace) {
        Some(words) => words,
        None => Seq::empty(),
    }
}

/// A file of an archive.
#[derive(Debug, Clone)]
pub struct ArchiveFile {
    pub name: String,
    pub contents: Arc<Vec<u8>>,
}

impl View for ArchiveFile {
    type V = (Seq<char>, Seq<u8>);

    open spec fn view(&self) -> (Seq<char>, Seq<u8>) {
        (self.name@, (*self.contents)@)
    }
}

/// The contents with those of a language file.
pub open spec fn with_language(
    contents: ContentsModel,
    namespace: Seq<char>,
    bytes: Seq<u8>,
) -> ContentsModel {
    match languages::json_pairs(bytes) {
        Ok(pairs) => ContentsModel {
            languages: table::upsert(
                contents.languages,
                namespace,
                extended(words_or_none(contents.languages, namespace), pairs),
            ),
            ..contents
        },
        Err(_) => contents,
    }
}

/// The contents with a model.
pub open spec fn with_model(contents: ContentsModel, id: Seq<char>, bytes: Seq<u8>) -> ContentsModel {
    match model_in(bytes) {
        Some(model) => ContentsModel {
            models: table::upsert(contents.models, id, model),
            ..contents
        },
        None => contents,
    }
}

/// The contents with a picture.
pub open spec fn with_picture(
    contents: ContentsModel,
    id: Seq<char>,
    bytes: Seq<u8>,
) -> ContentsModel {
    ContentsModel { pictures: table::upsert(contents.pictures, id, bytes), ..contents }
}

/// The contents with those of a file of an archive.
pub open spec fn with_file(contents: ContentsModel, file: (Seq<char>, Seq<u8>)) -> ContentsModel {
    match language_of(file.0) {
        Some(namespace) => with_language(contents, namespace, file.1),
        None => match id_in(file.0, "/models/"@, ".json"@) {
            Some(id) => with_model(contents, id, file.1),
            None => match id_in(file.0, "/textures/"@, ".png"@) {
                Some(id) => with_picture(contents, id, file.1),
                None => contents,
            },
        },
    }
}

/// What the files of an archive hold.
pub open spec fn archive_contents(files: Seq<(Seq<char>, Seq<u8>)>) -> ContentsModel
    decreases files.len(),
{
    if files.len() == 0 {
        no_contents()
    } else {
        with_file(archive_contents(files.drop_last()), files.last())
    }
}

fn extend_words(words: &mut TextMap<String>, more: &Vec<(String, String)>)
    ensures
        translation::words(*final(words)) == extended(
            translation::words(*old(words)),
            languages::pairs_of(more@),
        ),
{
    let ghost start = translation::words(*words);
    let ghost all = languages::pairs_of(more@);
    let mut i: usize = 0;
    assert(all.take(0) =~= Seq::empty());
    while i < more.len()
        invariant
            i <= more@.len(),
            all == languages::pairs_of(more@),
            translation::words(*words) == extended(start, all.take(i as int)),
        decreases more@.len() - i,
    {
        proof {
            assert(all.take(i + 1).drop_last() =~= all.take(i as int));
            assert(all.take(i + 1).last() == all[i as int]);
            table::lemma_mapped(words@, |s: String| s@, more@[i as int].0@);
        }
        words.insert(more[i].0.clone(), more[i].1.clone());
        i += 1;
    }
    assert(all.take(i as int) =~= all);
}

fn copy_words(words: &TextMap<String>) -> (r: TextMap<String>)
    ensures
        translation::words(r) == translation::words(*words),
{
    let list = languages::entries(words);
    proof {
        languages::lemma_gathered_ordered(translation::words(*words));
    }
    gather(list)
}

fn words_in(languages: &TextMap<TextMap<String>>, namespace: &str) -> (r: TextMap<String>)
    ensures
        translation::words(r) == words_or_none(translation::languages_of(*languages), namespace@),
{
    proof {
        table::lemma_mapped(
            languages@,
            |m: TextMap<String>| translation::words(m),
            namespace@,
        );
    }
    match languages.get(namespace) {
        Some(words) => copy_words(words),
        None => {
            let r: TextMap<String> = TextMap::new();
            assert(translation::words(r) =~= Seq::empty());
            r
        },
    }
}

impl ModContents {
    fn none() -> (r: ModContents)
        ensures
            r@ == no_contents(),
    {
        let r = ModContents {
            languages: TextMap::new(),
            models: TextMap::new(),
            pictures: TextMap::new(),
        };
        assert(r@ =~= no_contents());
        r
    }

    fn set_language(&mut self, namespace: String, words: TextMap<String>)
        ensures
            final(self)@ == (ContentsModel {
                languages: table::upsert(
                    old(self)@.languages,
                    namespace@,
                    translation::words(words),
                ),
                ..old(self)@
            }),
    {
        proof {
            table::lemma_mapped(
                self.languages@,
                |m: TextMap<String>| translation::words(m),
                namespace@,
            );
        }
        self.languages.insert(namespace, words);
    }

    fn add_language(&mut self, namespace: String, bytes: &Vec<u8>)
        ensures
            final(self)@ == with_language(old(self)@, namespace@, bytes@),
    {
        match read_json(bytes) {
            Ok(pairs) => {
                let mut words = words_in(&self.languages, namespace.as_str());
                extend_words(&mut words, &pairs);
                self.set_language(namespace, words);
            },
            Err(_) => {},
        }
    }

    fn add_model(&mut self, id: String, bytes: &Vec<u8>)
        ensures
            final(self)@ == with_model(old(self)@, id@, bytes@),
    {
        match read_model(bytes) {
            Some(model) => {
                proof {
                    table::lemma_mapped(self.models@, |m: Model| m@, id@);
                }
                self.models.insert(id, model);
            },
            None => {},
        }
    }

    fn add_picture(&mut self, id: String, bytes: &Arc<Vec<u8>>)
        ensures
            final(self)@ == with_picture(old(self)@, id@, (*bytes)@),
    {
        proof {
            table::lemma_mapped(self.pictures@, |b: Arc<Vec<u8>>| (*b)@, id@);
        }
        self.pictures.insert(id, share(bytes));
    }

    fn add_file(&mut self, file: &ArchiveFile)
        ensures
            final(self)@ == with_file(old(self)@, file@),
    {
        match lang_namespace(file.name.as_str()) {
            Some(namespace) => {
                self.add_language(namespace, &file.contents);
            },
            None => {
                match model_id(file.name.as_str()) {
                    Some(id) => {
                        self.add_model(id, &file.contents);
                    },
                    None => {
                        match texture_id_from_path(file.name.as_str()) {
                            Some(id) => {
                                self.add_picture(id, &file.contents);
                            },
                            None => {},
                        }
                    },
                }
            },
        }
    }

    /// What the files of an archive hold.
    pub fn from_archive(files: &Vec<ArchiveFile>) -> (r: ModContents)
        ensures
            r@ == archive_contents(order::views(files@)),
    {
        let ghost all = order::views(files@);
        let mut r = ModContents::none();
        let mut i: usize = 0;
        assert(all.take(0) =~= Seq::empty());
        while i < files.len()
            invariant
                i <= files@.len(),
                all == order::views(files@),
                r@ == archive_contents(all.take(i as int)),
            decreases files@.len() - i,
        {
            proof {
                assert(all.take(i + 1).drop_last() =~= all.take(i as int));
                assert(all.take(i + 1).last() == files@[i as int]@);
            }
            r.add_file(&files[i]);
            i += 1;
        }
        assert(all.take(i as int) =~= all);
        r
    }
}

/// The folder of a namespace: its name, the language files that could be read, and its models and
/// pictures under their paths.
#[derive(Debug, Clone)]
pub struct NamespaceFolder {
    pub name: String,
    pub languages: Vec<Vec<u8>>,
    pub models: Vec<ArchiveFile>,
    pub pictures: Vec<ArchiveFile>,
}

/// The mathematical form of the folder of a namespace.
pub ghost struct NamespaceModel {
    pub name: Seq<char>,
    pub languages: Seq<Seq<u8>>,
    pub models: Seq<(Seq<char>, Seq<u8>)>,
    pub pictures: Seq<(Seq<char>, Seq<u8>)>,
}

impl View for NamespaceFolder {
    type V = NamespaceModel;

    open spec fn view(&self) -> NamespaceModel {
        NamespaceModel {
            name: self.name@,
            languages: Seq::new(self.languages@.len(), |i: int| self.languages@[i]@),
            models: order::views(self.models@),
            pictures: order::views(self.pictures@),
        }
    }
}

/// The words of the first file, from the `i`th on, that holds a language.
pub open spec fn first_language(files: Seq<Seq<u8>>, i: int) -> Seq<(Seq<char>, Seq<char>)>
    decreases files.len() - i,
{
    if i < 0 || i >= files.len() {
        Seq::empty()
    } else {
        match languages::json_pairs(files[i]) {
            Ok(pairs) => languages::gathered(pairs),
            Err(_) => first_language(files, i + 1),
        }
    }
}

/// The contents with the models of a namespace.
pub open spec fn with_models(
    contents: ContentsModel,
    namespace: Seq<char>,
    files: Seq<(Seq<char>, Seq<u8>)>,
) -> ContentsModel
    decreases files.len(),
{
    if files.len() == 0 {
        contents
    } else {
        with_model(
            with_models(contents, namespace, files.drop_last()),
            id_in_folder(namespace, files.last().0, 5),
            files.last().1,
        )
    }
}

/// The contents with the pictures of a namespace.
pub open spec fn with_pictures(
    contents: ContentsModel,
    namespace: Seq<char>,
    files: Seq<(Seq<char>, Seq<u8>)>,
) -> ContentsModel
    decreases files.len(),
{
    if files.len() == 0 {
        contents
    } else {
        with_picture(
            with_pictures(contents, namespace, files.drop_last()),
            id_in_folder(namespace, files.last().0, 4),
            files.last().1,
        )
    }
}

/// The contents with those of the folder of a namespace.
pub open spec fn with_namespace(contents: ContentsModel, folder: NamespaceModel) -> ContentsModel {
    let named = ContentsModel {
        languages: table::upsert(
            contents.languages,
            folder.name,
            first_language(folder.languages, 0),
        ),
        ..contents
    };
    with_pictures(with_models(named, folder.name, folder.models), folder.name, folder.pictures)
}

/// What the folders of namespaces hold.
pub open spec fn folder_contents(folders: Seq<NamespaceModel>) -> ContentsModel
    decreases folders.len(),
{
    if folders.len() == 0 {
        no_contents()
    } else {
        with_namespace(folder_contents(folders.drop_last()), folders.last())
    }
}

/// The words of the first file that holds a language.
pub fn read_directory_translations(files: &Vec<Vec<u8>>) -> (r: TextMap<String>)
    ensures
        translation::words(r) == first_language(
            Seq::new(files@.len(), |i: int| files@[i]@),
            0,
        ),
{
    let ghost all = Seq::new(files@.len(), |i: int| files@[i]@);
    let mut i: usize = 0;
    while i < files.len()
        invariant
            i <= files@.len(),
            all == Seq::new(files@.len(), |i: int| files@[i]@),
            first_language(all, 0) == first_language(all, i as int),
        decreases files@.len() - i,
    {
        assert(all[i as int] == files@[i as int]@);
        match read_json(&files[i]) {
            Ok(pairs) => {
                return gather(pairs);
            },
            Err(_) => {},
        }
        i += 1;
    }
    let r: TextMap<String> = TextMap::new();
    assert(translation::words(r) =~= Seq::empty());
    r
}

impl ModContents {
    fn add_models(&mut self, namespace: &str, files: &Vec<ArchiveFile>)
        ensures
            final(self)@ == with_models(old(self)@, namespace@, order::views(files@)),
    {
        let ghost all = order::views(files@);
        let mut i: usize = 0;
        assert(all.take(0) =~= Seq::empty());
        while i < files.len()
            invariant
                i <= files@.len(),
                all == order::views(files@),
                self@ == with_models(old(self)@, namespace@, all.take(i as int)),
            decreases files@.len() - i,
        {
            proof {
                assert(all.take(i + 1).drop_last() =~= all.take(i as int));
                assert(all.take(i + 1).last() == files@[i as int]@);
            }
            let id = folder_id(namespace, files[i].name.as_str(), 5);
            self.add_model(id, &files[i].contents);
            i += 1;
        }
        assert(all.take(i as int) =~= all);
    }

    fn add_pictures(&mut self, namespace: &str, files: &Vec<ArchiveFile>)
        ensures
            final(self)@ == with_pictures(old(self)@, namespace@, order::views(files@)),
    {
        let ghost all = order::views(files@);
        let mut i: usize = 0;
        assert(all.take(0) =~= Seq::empty());
        while i < files.len()
            invariant
                i <= files@.len(),
                all == order::views(files@),
                self@ == with_pictures(old(self)@, namespace@, all.take(i as int)),
            decreases files@.len() - i,
        {
            proof {
                assert(all.take(i + 1).drop_last() =~= all.take(i as int));
                assert(all.take(i + 1).last() == files@[i as int]@);
            }
            let id = folder_id(namespace, files[i].name.as_str(), 4);
            self.add_picture(id, &files[i].contents);
            i += 1;
        }
        assert(all.take(i as int) =~= all);
    }

    /// What the folders of namespaces hold.
    pub fn from_folders(folders: &Vec<NamespaceFolder>) -> (r: ModContents)
        ensures
            r@ == folder_contents(order::views(folders@)),
    {
        let ghost all = order::views(folders@);
        let mut r = ModContents::none();
        let mut i: usize = 0;
        assert(all.take(0) =~= Seq::empty());
        while i < folders.len()
            invariant
                i <= folders@.len(),
                all == order::views(folders@),
                r@ == folder_contents(all.take(i as int)),
            decreases folders@.len() - i,
        {
            proof {
                assert(all.take(i + 1).drop_last() =~= all.take(i as int));
                assert(all.take(i + 1).last() == folders@[i as int]@);
            }
            let folder = &folders[i];
            r.set_language(folder.name.clone(), read_directory_translations(&folder.languages));
            r.add_models(folder.name.as_str(), &folder.models);
            r.add_pictures(folder.name.as_str(), &folder.pictures);
            i += 1;
        }
        assert(all.take(i as int) =~= all);
        r
    }
}

// ---------------------------------------------------------------------------
// Entries of a mod
// ---------------------------------------------------------------------------

/// A resource without a picture.
pub open spec fn plain_entry(
    namespace: Seq<char>,
    path: Seq<char>,
    name: Seq<char>,
    kind: ResourceKind,
    source: Seq<char>,
) -> EntryModel {
    EntryModel { id: namespace + ":"@ + path, name, kind, source, icon_png: None }
}

/// What a translation key names in a namespace: what it is, and its path.
pub open spec fn named_by(namespace: Seq<char>, key: Seq<char>) -> Option<(ResourceKind, Seq<char>)> {
    match text::without_prefix(key, "item."@ + namespace + "."@) {
        Some(path) => Some((ResourceKind::Item, path)),
        None => match text::without_prefix(key, "block."@ + namespace + "."@) {
            Some(path) => Some((ResourceKind::Item, path)),
            None => match text::without_prefix(key, "entity."@ + namespace + "."@) {
                Some(path) => Some((ResourceKind::Entity, path)),
                None => None,
            },
        },
    }
}

/// The resource that a translation names.
pub open spec fn translated_entry(
    namespace: Seq<char>,
    word: (Seq<char>, Seq<char>),
    source: Seq<char>,
) -> Option<EntryModel> {
    match named_by(namespace, word.0) {
        Some((kind, path)) => if is_auxiliary(path) {
            None
        } else {
            Some(plain_entry(namespace, registered(namespace, path), word.1, kind, source))
        },
        None => None,
    }
}

/// The resources that translations name.
pub open spec fn translated_entries(
    namespace: Seq<char>,
    words: Seq<(Seq<char>, Seq<char>)>,
    source: Seq<char>,
) -> Seq<EntryModel>
    decreases words.len(),
{
    if words.len() == 0 {
        Seq::empty()
    } else {
        let front = translated_entries(namespace, words.drop_last(), source);
        match translated_entry(namespace, words.last(), source) {
            Some(entry) => front.push(entry),
            None => front,
        }
    }
}

/// The resources that the languages of a mod name.
pub open spec fn language_entries(
    languages: Seq<(Seq<char>, Seq<(Seq<char>, Seq<char>)>)>,
    source: Seq<char>,
) -> Seq<EntryModel>
    decreases languages.len(),
{
    if languages.len() == 0 {
        Seq::empty()
    } else {
        language_entries(languages.drop_last(), source) + translated_entries(
            languages.last().0,
            languages.last().1,
            source,
        )
    }
}

/// The translated name of an item.
pub open spec fn item_name(
    namespace: Seq<char>,
    path: Seq<char>,
    words: Seq<(Seq<char>, Seq<char>)>,
) -> Option<Seq<char>> {
    let dotted = compose::replaced(path, "/"@, "."@);
    match table::lookup(words, "item."@ + namespace + "."@ + dotted) {
        Some(name) => Some(name),
        None => table::lookup(words, "block."@ + namespace + "."@ + dotted),
    }
}

/// The item that a model shows. In the game itself only items with a name count.
pub open spec fn item_entry(
    namespace: Seq<char>,
    path: Seq<char>,
    words: Seq<(Seq<char>, Seq<char>)>,
    source: Seq<char>,
    icon_png: Option<Seq<u8>>,
) -> Option<EntryModel> {
    match item_name(namespace, path, words) {
        Some(name) => Some(
            EntryModel {
                icon_png,
                ..plain_entry(namespace, path, name, ResourceKind::Item, source)
            },
        ),
        None => if namespace == "minecraft"@ {
            None
        } else {
            Some(
                EntryModel {
                    icon_png,
                    ..plain_entry(namespace, path, humanized(path), ResourceKind::Item, source)
                },
            )
        },
    }
}

/// The item whose model has this id.
pub open spec fn shown_item(contents: ContentsModel, id: Seq<char>, source: Seq<char>) -> Option<
    EntryModel,
> {
    match text::cut(id, ":"@) {
        Some((namespace, path)) => match text::without_prefix(path, "item/"@) {
            Some(item) => item_entry(
                namespace,
                item,
                words_or_none(contents.languages, namespace),
                source,
                picture_of(id, contents.models, contents.pictures, Seq::empty()),
            ),
            None => None,
        },
        None => None,
    }
}

/// The items of the first `n` models.
pub open spec fn shown_items(contents: ContentsModel, n: int, source: Seq<char>) -> Seq<EntryModel>
    decreases n,
{
    if n <= 0 {
        Seq::empty()
    } else {
        let front = shown_items(contents, n - 1, source);
        match shown_item(contents, contents.models[n - 1].0, source) {
            Some(entry) => front.push(entry),
            None => front,
        }
    }
}

/// The resources of a mod.
pub open spec fn mod_entries(contents: ContentsModel, source: Seq<char>) -> Seq<EntryModel> {
    language_entries(contents.languages, source) + shown_items(
        contents,
        contents.models.len() as int,
        source,
    )
}

fn key_prefix(start: &str, namespace: &str) -> (r: String)
    ensures
        r@ == start@ + namespace@ + "."@,
{
    let mut r = start.to_owned();
    r.append(namespace);
    r.append(".");
    r
}

fn resource_named_by(namespace: &str, key: &str) -> (r: Option<(ResourceKind, String)>)
    ensures
        match r {
            Some((kind, path)) => named_by(namespace@, key@) == Some((kind, path@)),
            None => named_by(namespace@, key@) is None,
        },
{
    match text::strip_prefix(key, key_prefix("item.", namespace).as_str()) {
        Some(path) => Some((ResourceKind::Item, path)),
        None => {
            match text::strip_prefix(key, key_prefix("block.", namespace).as_str()) {
                Some(path) => Some((ResourceKind::Item, path)),
                None => {
                    match text::strip_prefix(key, key_prefix("entity.", namespace).as_str()) {
                        Some(path) => Some((ResourceKind::Entity, path)),
                        None => None,
                    }
                },
            }
        },
    }
}

fn resource_id(namespace: &str, path: &str) -> (r: String)
    ensures
        r@ == namespace@ + ":"@ + path@,
{
    let mut r = namespace.to_owned();
    r.append(":");
    r.append(path);
    r
}

fn push_entry(entries: &mut Vec<ResourceEntry>, entry: ResourceEntry)
    ensures
        order::views(final(entries)@) == order::views(old(entries)@).push(entry@),
{
    let ghost before = entries@;
    let ghost model = entry@;
    entries.push(entry);
    assert(order::views(entries@) =~= order::views(before).push(model));
}

fn find_name(namespace: &str, path: &str, words: &TextMap<String>) -> (r: Option<String>)
    ensures
        text::opt_text(r) == item_name(namespace@, path@, translation::words(*words)),
{
    proof {
        reveal_strlit("/");
    }
    let dotted = replace(path, "/", ".");
    let mut item = key_prefix("item.", namespace);
    item.append(dotted.as_str());
    let mut block = key_prefix("block.", namespace);
    block.append(dotted.as_str());
    proof {
        table::lemma_mapped(words@, |s: String| s@, item@);
        table::lemma_mapped(words@, |s: String| s@, block@);
    }
    match words.get(item.as_str()) {
        Some(name) => Some(name.clone()),
        None => {
            match words.get(block.as_str()) {
                Some(name) => Some(name.clone()),
                None => None,
            }
        },
    }
}

/// What a scan adds to an index.
pub open spec fn with_entries(index: IndexModel, more: Seq<EntryModel>) -> IndexModel {
    IndexModel { entries: index.entries + more, ..index }
}

impl ResourceIndex {
    /// Adds the resources that translations name.
    pub fn add_translation_entries(
        &mut self,
        namespace: &str,
        translations: &TextMap<String>,
        source: &str,
    )
        ensures
            final(self)@ == with_entries(
                old(self)@,
                translated_entries(namespace@, translation::words(*translations), source@),
            ),
    {
        let ghost start = self@.entries;
        let ghost all = translation::words(*translations);
        let n: usize = translations.len();
        let mut i: usize = 0;
        assert(all.take(0) =~= Seq::empty());
        assert(start + translated_entries(namespace@, all.take(0), source@) =~= start);
        while i < n
            invariant
                i <= n == translations@.len() == all.len(),
                all == translation::words(*translations),
                start == old(self)@.entries,
                self@ == with_entries(
                    old(self)@,
                    translated_entries(namespace@, all.take(i as int), source@),
                ),
            decreases n - i,
        {
            let key = translations.key_at(i);
            let name = translations.value_at(i);
            proof {
                assert(all.take(i + 1).drop_last() =~= all.take(i as int));
                assert(all.take(i + 1).last() == all[i as int]);
                assert(all[i as int] == (key@, name@));
            }
            let ghost front = translated_entries(namespace@, all.take(i as int), source@);
            match resource_named_by(namespace, key) {
                Some((kind, path)) => {
                    if !is_auxiliary_translation(path.as_str()) {
                        let registered_path = registry_path(namespace, path.as_str());
                        let entry = ResourceEntry {
                            id: resource_id(namespace, registered_path.as_str()),
                            name: name.clone(),
                            kind,
                            source: source.to_owned(),
                            icon_png: None,
                        };
                        let ghost model = entry@;
                        push_entry(&mut self.entries, entry);
                        assert((start + front).push(model) =~= start + front.push(model));
                    }
                },
                None => {},
            }
            i += 1;
        }
        assert(all.take(i as int) =~= all);
    }

    /// Adds the item that a model shows.
    pub fn add_item(
        &mut self,
        namespace: &str,
        path: &str,
        translations: &TextMap<String>,
        source: &str,
        icon_png: Option<Arc<Vec<u8>>>,
    )
        ensures
            final(self)@ == match item_entry(
                namespace@,
                path@,
                translation::words(*translations),
                source@,
                picture(icon_png),
            ) {
                Some(entry) => with_entries(old(self)@, seq![entry]),
                None => old(self)@,
            },
    {
        let ghost start = self@.entries;
        let name = match find_name(namespace, path, translations) {
            Some(name) => name,
            None => {
                if text::same(namespace, "minecraft") {
                    return;
                }
                humanize(path)
            },
        };
        let entry = ResourceEntry {
            id: resource_id(namespace, path),
            name,
            kind: ResourceKind::Item,
            source: source.to_owned(),
            icon_png,
        };
        let ghost model = entry@;
        push_entry(&mut self.entries, entry);
        assert(start.push(model) =~= start + seq![model]);
    }

    fn add_model_item(&mut self, contents: &ModContents, id: &str, source: &str)
        ensures
            final(self)@ == match shown_item(contents@, id@, source@) {
                Some(entry) => with_entries(old(self)@, seq![entry]),
                None => old(self)@,
            },
    {
        match text::split_once(id, ":") {
            Some((namespace, path)) => {
                match text::strip_prefix(path.as_str(), "item/") {
                    Some(item) => {
                        let icon = resolve_model_icon(id, &contents.models, &contents.pictures);
                        let words = words_in(&contents.languages, namespace.as_str());
                        self.add_item(namespace.as_str(), item.as_str(), &words, source, icon);
                    },
                    None => {},
                }
            },
            None => {},
        }
    }

    /// Adds the resources of a mod.
    pub fn add_contents(&mut self, contents: &ModContents, source: &str)
        ensures
            final(self)@ == with_entries(old(self)@, mod_entries(contents@, source@)),
    {
        let ghost start = self@.entries;
        let ghost all = contents@.languages;
        let n: usize = contents.languages.len();
        let mut i: usize = 0;
        assert(all.take(0) =~= Seq::empty());
        assert(start + language_entries(all.take(0), source@) =~= start);
        while i < n
            invariant
                i <= n == contents.languages@.len() == all.len(),
                all == contents@.languages,
                start == old(self)@.entries,
                self@ == with_entries(
                    old(self)@,
                    language_entries(all.take(i as int), source@),
                ),
            decreases n - i,
        {
            let namespace = contents.languages.key_at(i);
            let words = contents.languages.value_at(i);
            proof {
                assert(all.take(i + 1).drop_last() =~= all.take(i as int));
                assert(all.take(i + 1).last() == all[i as int]);
                assert(all[i as int] == (namespace@, translation::words(*words)));
                assert((start + language_entries(all.take(i as int), source@))
                    + translated_entries(namespace@, translation::words(*words), source@) =~= start
                    + language_entries(all.take(i + 1), source@));
            }
            self.add_translation_entries(namespace, words, source);
            i += 1;
        }
        assert(all.take(i as int) =~= all);
        let ghost named = language_entries(all, source@);
        let m: usize = contents.models.len();
        let mut k: usize = 0;
        assert(start + named + shown_items(contents@, 0, source@) =~= start + named);
        while k < m
            invariant
                k <= m == contents.models@.len() == contents@.models.len(),
                start == old(self)@.entries,
                self@ == (IndexModel {
                    entries: start + named + shown_items(contents@, k as int, source@),
                    ..old(self)@
                }),
            decreases m - k,
        {
            let id = contents.models.key_at(k);
            assert(contents@.models[k as int].0 == id@);
            self.add_model_item(contents, id, source);
            assert(self@.entries =~= start + named + shown_items(contents@, k + 1, source@));
            k += 1;
        }
        assert(self@.entries =~= start + mod_entries(contents@, source@));
    }

    /// Adds what was found in a folder of a mod.
    pub fn scan_directory(&mut self, path: &str, folders: &Vec<NamespaceFolder>)
        ensures
            final(self)@ == (IndexModel {
                scanned_sources: old(self)@.scanned_sources.push(path@),
                ..with_entries(
                    old(self)@,
                    mod_entries(folder_contents(order::views(folders@)), path@),
                )
            }),
    {
        let ghost before = self.scanned_sources@;
        self.scanned_sources.push(path.to_owned());
        assert(text::texts(self.scanned_sources@) =~= text::texts(before).push(path@));
        let contents = ModContents::from_folders(folders);
        self.add_contents(&contents, path);
    }

    /// Adds what was found in an archive, or why it could not be read.
    pub fn scan_jar(&mut self, path: &str, files: Result<Vec<ArchiveFile>, String>)
        ensures
            final(self)@ == match files {
                Ok(list) => (IndexModel {
                    scanned_sources: old(self)@.scanned_sources.push(path@),
                    ..with_entries(
                        old(self)@,
                        mod_entries(archive_contents(order::views(list@)), path@),
                    )
                }),
                Err(error) => (IndexModel {
                    warnings: old(self)@.warnings.push(path@ + ": "@ + error@),
                    ..old(self)@
                }),
            },
    {
        match files {
            Ok(list) => {
                let contents = ModContents::from_archive(&list);
                self.add_contents(&contents, path);
                let ghost before = self.scanned_sources@;
                self.scanned_sources.push(path.to_owned());
                assert(text::texts(self.scanned_sources@) =~= text::texts(before).push(path@));
            },
            Err(error) => {
                let mut warning = path.to_owned();
                warning.append(": ");
                warning.append(error.as_str());
                let ghost before = self.warnings@;
                let ghost model = warning@;
                self.warnings.push(warning);
                assert(text::texts(self.warnings@) =~= text::texts(before).push(model));
            },
        }
    }
}

// ---------------------------------------------------------------------------
// The whole index
// ---------------------------------------------------------------------------

/// A resource that is known without a mod.
pub open spec fn built_in(id: Seq<char>, name: Seq<char>, kind: ResourceKind) -> EntryModel {
    EntryModel { id, name, kind, source: "Встроенный минимум"@, icon_png: None }
}

/// The resources that are known without a mod.
pub open spec fn built_ins() -> Seq<EntryModel> {
    seq![
        built_in("minecraft:stone"@, "Stone"@, ResourceKind::Item),
        built_in("minecraft:diamond"@, "Diamond"@, ResourceKind::Item),
        built_in("minecraft:carpet"@, "Carpet"@, ResourceKind::Item),
        built_in("minecraft:oak_log"@, "Oak Log"@, ResourceKind::Item),
        built_in("minecraft:iron_ingot"@, "Iron Ingot"@, ResourceKind::Item),
        built_in("minecraft:gold_ingot"@, "Gold Ingot"@, ResourceKind::Item),
        built_in("minecraft:emerald"@, "Emerald"@, ResourceKind::Item),
        built_in("minecraft:zombie"@, "Zombie"@, ResourceKind::Entity),
        built_in("minecraft:skeleton"@, "Skeleton"@, ResourceKind::Entity),
        built_in("minecraft:creeper"@, "Creeper"@, ResourceKind::Entity),
        built_in("minecraft:spider"@, "Spider"@, ResourceKind::Entity),
        built_in("minecraft:ender_dragon"@, "Ender Dragon"@, ResourceKind::Entity),
    ]
}

/// Which of two entries of one resource stays: the earlier one, with the first picture there is.
pub open spec fn joined_entry(old: Option<EntryModel>, entry: EntryModel) -> EntryModel {
    match old {
        Some(first) => if first.icon_png is None && entry.icon_png is Some {
            EntryModel { icon_png: entry.icon_png, ..first }
        } else {
            first
        },
        None => entry,
    }
}

/// The resources of a kind under their ids.
pub open spec fn of_kind(entries: Seq<EntryModel>, kind: ResourceKind) -> Seq<
    (Seq<char>, EntryModel),
>
    decreases entries.len(),
{
    if entries.len() == 0 {
        Seq::empty()
    } else {
        let front = of_kind(entries.drop_last(), kind);
        let last = entries.last();
        if last.kind == kind {
            table::upsert(front, last.id, joined_entry(table::lookup(front, last.id), last))
        } else {
            front
        }
    }
}

/// The values of a table.
pub open spec fn values<V>(s: Seq<(Seq<char>, V)>) -> Seq<V> {
    Seq::new(s.len(), |i: int| s[i].1)
}

/// All resources, each once: the items in the order of their ids, then the entities.
pub open spec fn finished(entries: Seq<EntryModel>) -> Seq<EntryModel> {
    values(of_kind(entries, ResourceKind::Item)) + values(of_kind(entries, ResourceKind::Entity))
}

/// The mathematical form of entries under their ids.
pub open spec fn entries_in(map: TextMap<ResourceEntry>) -> Seq<(Seq<char>, EntryModel)> {
    table::mapped(map@, |e: ResourceEntry| e@)
}

fn share_option(icon: &Option<Arc<Vec<u8>>>) -> (r: Option<Arc<Vec<u8>>>)
    ensures
        picture(r) == picture(*icon),
{
    match icon {
        Some(bytes) => Some(share(bytes)),
        None => None,
    }
}

impl ResourceEntry {
    /// A copy.
    pub fn copy(&self) -> (r: ResourceEntry)
        ensures
            r@ == self@,
    {
        ResourceEntry {
            id: self.id.clone(),
            name: self.name.clone(),
            kind: self.kind,
            source: self.source.clone(),
            icon_png: share_option(&self.icon_png),
        }
    }
}

fn merge(map: &mut TextMap<ResourceEntry>, entry: &ResourceEntry)
    ensures
        entries_in(*final(map)) == table::upsert(
            entries_in(*old(map)),
            entry@.id,
            joined_entry(table::lookup(entries_in(*old(map)), entry@.id), entry@),
        ),
{
    proof {
        table::lemma_mapped(map@, |e: ResourceEntry| e@, entry.id@);
    }
    let joined = match map.get(entry.id.as_str()) {
        Some(first) => {
            let mut kept = first.copy();
            if kept.icon_png.is_none() && entry.icon_png.is_some() {
                kept.icon_png = share_option(&entry.icon_png);
            }
            kept
        },
        None => entry.copy(),
    };
    map.insert(entry.id.clone(), joined);
}

fn collect_kind(entries: &Vec<ResourceEntry>, kind: ResourceKind) -> (r: TextMap<ResourceEntry>)
    ensures
        entries_in(r) == of_kind(order::views(entries@), kind),
{
    let ghost all = order::views(entries@);
    let mut r: TextMap<ResourceEntry> = TextMap::new();
    let mut i: usize = 0;
    assert(all.take(0) =~= Seq::empty());
    assert(entries_in(r) =~= Seq::empty());
    while i < entries.len()
        invariant
            i <= entries@.len(),
            all == order::views(entries@),
            entries_in(r) == of_kind(all.take(i as int), kind),
        decreases entries@.len() - i,
    {
        proof {
            assert(all.take(i + 1).drop_last() =~= all.take(i as int));
            assert(all.take(i + 1).last() == entries@[i as int]@);
        }
        if entries[i].kind == kind {
            merge(&mut r, &entries[i]);
        }
        i += 1;
    }
    assert(all.take(i as int) =~= all);
    r
}

fn append_values(entries: &mut Vec<ResourceEntry>, map: &TextMap<ResourceEntry>)
    ensures
        order::views(final(entries)@) == order::views(old(entries)@) + values(entries_in(*map)),
{
    let ghost start = order::views(entries@);
    let ghost all = values(entries_in(*map));
    let n: usize = map.len();
    let mut i: usize = 0;
    assert(start + all.take(0) =~= start);
    while i < n
        invariant
            i <= n == map@.len() == all.len(),
            all == values(entries_in(*map)),
            order::views(entries@) == start + all.take(i as int),
        decreases n - i,
    {
        let entry = map.value_at(i).copy();
        assert(all[i as int] == entry@);
        push_entry(entries, entry);
        assert(order::views(entries@) =~= start + all.take(i + 1));
        i += 1;
    }
    assert(all.take(i as int) =~= all);
}

impl ResourceIndex {
    /// An index without entries.
    pub fn new() -> (r: ResourceIndex)
        ensures
            r@ == (IndexModel {
                entries: Seq::empty(),
                scanned_sources: Seq::empty(),
                warnings: Seq::empty(),
            }),
    {
        let r = ResourceIndex {
            entries: Vec::new(),
            scanned_sources: Vec::new(),
            warnings: Vec::new(),
        };
        assert(r@.entries =~= Seq::empty());
        assert(r@.scanned_sources =~= Seq::empty());
        assert(r@.warnings =~= Seq::empty());
        r
    }

    fn add_builtin(&mut self, id: &str, name: &str, kind: ResourceKind)
        ensures
            final(self)@ == (IndexModel {
                entries: old(self)@.entries.push(built_in(id@, name@, kind)),
                ..old(self)@
            }),
    {
        push_entry(
            &mut self.entries,
            ResourceEntry {
                id: id.to_owned(),
                name: name.to_owned(),
                kind,
                source: "Встроенный минимум".to_owned(),
                icon_png: None,
            },
        );
    }

    /// Adds the resources that are known without a mod.
    pub fn add_builtin_entries(&mut self)
        ensures
            final(self)@ == with_entries(old(self)@, built_ins()),
    {
        let ghost start = self@.entries;
        self.add_builtin("minecraft:stone", "Stone", ResourceKind::Item);
        self.add_builtin("minecraft:diamond", "Diamond", ResourceKind::Item);
        self.add_builtin("minecraft:carpet", "Carpet", ResourceKind::Item);
        self.add_builtin("minecraft:oak_log", "Oak Log", ResourceKind::Item);
        self.add_builtin("minecraft:iron_ingot", "Iron Ingot", ResourceKind::Item);
        self.add_builtin("minecraft:gold_ingot", "Gold Ingot", ResourceKind::Item);
        self.add_builtin("minecraft:emerald", "Emerald", ResourceKind::Item);
        self.add_builtin("minecraft:zombie", "Zombie", ResourceKind::Entity);
        self.add_builtin("minecraft:skeleton", "Skeleton", ResourceKind::Entity);
        self.add_builtin("minecraft:creeper", "Creeper", ResourceKind::Entity);
        self.add_builtin("minecraft:spider", "Spider", ResourceKind::Entity);
        self.add_builtin("minecraft:ender_dragon", "Ender Dragon", ResourceKind::Entity);
        assert(self@.entries =~= start + built_ins());
    }

    /// Puts the entries in order, each resource once.
    pub fn finish(&mut self)
        ensures
            final(self)@ == (IndexModel {
                entries: finished(old(self)@.entries),
                ..old(self)@
            }),
    {
        let items = collect_kind(&self.entries, ResourceKind::Item);
        let entities = collect_kind(&self.entries, ResourceKind::Entity);
        let mut entries: Vec<ResourceEntry> = Vec::new();
        assert(order::views(entries@) =~= Seq::empty());
        append_values(&mut entries, &items);
        append_values(&mut entries, &entities);
        assert(order::views(entries@) =~= finished(self@.entries));
        self.entries = entries;
    }
}

// ---------------------------------------------------------------------------
// Choosing
// ---------------------------------------------------------------------------

/// The most resources that are shown at once.
pub const MAX_RESOURCES: usize = 500;

/// The resource is of the kind that is looked for, and the query, which is in lower case, is empty
/// or stands in its id or its name.
pub open spec fn is_wanted(
    entry: EntryModel,
    kind: ResourceKind,
    query: Seq<char>,
    id: Seq<char>,
    name: Seq<char>,
) -> bool {
    entry.kind == kind && (query.len() == 0 || text::has_text(id, query) || text::has_text(
        name,
        query,
    ))
}

/// The resources that are looked for, up to the most that are shown.
pub open spec fn wanted(entries: Seq<EntryModel>, kind: ResourceKind, query: Seq<char>) -> Seq<
    EntryModel,
>
    decreases entries.len(),
{
    if entries.len() == 0 {
        Seq::empty()
    } else {
        let front = wanted(entries.drop_last(), kind, query);
        let last = entries.last();
        if front.len() < MAX_RESOURCES && is_wanted(
            last,
            kind,
            query,
            letters::lowercase(last.id),
            letters::lowercase(last.name),
        ) {
            front.push(last)
        } else {
            front
        }
    }
}

/// Whether a resource is looked for, where its id and its name are given in lower case.
pub fn matches_query(
    entry: &ResourceEntry,
    kind: ResourceKind,
    query: &str,
    id: &str,
    name: &str,
) -> (r: bool)
    ensures
        r == is_wanted(entry@, kind, query@, id@, name@),
{
    proof {
        reveal_strlit("");
        assert(query@.len() == 0 ==> query@ =~= ""@);
    }
    entry.kind == kind && (text::same(query, "") || text::contains(id, query) || text::contains(
        name,
        query,
    ))
}

impl ResourceIndex {
    /// The ids and names of the resources that are looked for.
    pub fn find(&self, kind: ResourceKind, query: &str) -> (r: Vec<ResourceEntry>)
        ensures
            order::views(r@) == wanted(
                self@.entries,
                kind,
                letters::lowercase(text::trimmed(query@)),
            ),
    {
        let query = letters::to_lower_case(text::trim(query).as_str());
        let ghost all = self@.entries;
        let mut r: Vec<ResourceEntry> = Vec::new();
        let mut i: usize = 0;
        assert(all.take(0) =~= Seq::empty());
        assert(order::views(r@) =~= Seq::empty());
        while i < self.entries.len()
            invariant
                i <= self.entries@.len(),
                all == order::views(self.entries@),
                order::views(r@) == wanted(all.take(i as int), kind, query@),
            decreases self.entries@.len() - i,
        {
            proof {
                assert(all.take(i + 1).drop_last() =~= all.take(i as int));
                assert(all.take(i + 1).last() == self.entries@[i as int]@);
            }
            let entry = &self.entries[i];
            if r.len() < MAX_RESOURCES {
                let id = letters::to_lower_case(entry.id.as_str());
                let name = letters::to_lower_case(entry.name.as_str());
                if matches_query(entry, kind, query.as_str(), id.as_str(), name.as_str()) {
                    push_entry(&mut r, entry.copy());
                }
            }
            i += 1;
        }
        assert(all.take(i as int) =~= all);
        r
    }
}

// ---------------------------------------------------------------------------
// Laws
// ---------------------------------------------------------------------------

/// The first entry of a resource, from the `i`th on.
pub open spec fn first_entry(
    entries: Seq<EntryModel>,
    kind: ResourceKind,
    id: Seq<char>,
    i: int,
) -> Option<EntryModel>
    decreases entries.len() - i,
{
    if i < 0 || i >= entries.len() {
        None
    } else if entries[i].kind == kind && entries[i].id == id {
        Some(entries[i])
    } else {
        first_entry(entries, kind, id, i + 1)
    }
}

/// The first picture of a resource, from the `i`th entry on.
pub open spec fn first_picture(
    entries: Seq<EntryModel>,
    kind: ResourceKind,
    id: Seq<char>,
    i: int,
) -> Option<Seq<u8>>
    decreases entries.len() - i,
{
    if i < 0 || i >= entries.len() {
        None
    } else if entries[i].kind == kind && entries[i].id == id && entries[i].icon_png is Some {
        entries[i].icon_png
    } else {
        first_picture(entries, kind, id, i + 1)
    }
}

proof fn lemma_first_push(
    entries: Seq<EntryModel>,
    last: EntryModel,
    kind: ResourceKind,
    id: Seq<char>,
    i: int,
)
    requires
        0 <= i <= entries.len(),
    ensures
        first_entry(entries.push(last), kind, id, i) == match first_entry(entries, kind, id, i) {
            Some(entry) => Some(entry),
            None => if last.kind == kind && last.id == id {
                Some(last)
            } else {
                None
            },
        },
        first_picture(entries.push(last), kind, id, i) == match first_picture(
            entries,
            kind,
            id,
            i,
        ) {
            Some(bytes) => Some(bytes),
            None => if last.kind == kind && last.id == id {
                last.icon_png
            } else {
                None
            },
        },
    decreases entries.len() - i,
{
    let more = entries.push(last);
    if i < entries.len() {
        assert(more[i] == entries[i]);
        lemma_first_push(entries, last, kind, id, i + 1);
    } else {
        assert(more[i] == last);
        assert(first_entry(more, kind, id, i + 1) is None);
        assert(first_picture(more, kind, id, i + 1) is None);
    }
}

/// In a finished index each resource stands once, as its first entry says, with the first picture
/// that any of its entries has.
pub proof fn law_finished_index(entries: Seq<EntryModel>, kind: ResourceKind, id: Seq<char>)
    ensures
        table::ordered(of_kind(entries, kind)),
        table::lookup(of_kind(entries, kind), id) == match first_entry(entries, kind, id, 0) {
            Some(entry) => Some(
                EntryModel { icon_png: first_picture(entries, kind, id, 0), ..entry },
            ),
            None => None,
        },
    decreases entries.len(),
{
    if entries.len() > 0 {
        let front = entries.drop_last();
        let last = entries.last();
        law_finished_index(front, kind, id);
        assert(front.push(last) =~= entries);
        lemma_first_push(front, last, kind, id, 0);
        if last.kind == kind {
            law_finished_index(front, kind, last.id);
            let map = of_kind(front, kind);
            table::lemma_upsert(map, last.id, joined_entry(table::lookup(map, last.id), last));
            lemma_picture_needs_entry(front, kind, last.id, 0);
        }
    } else {
        assert(of_kind(entries, kind) =~= Seq::empty());
    }
}

proof fn lemma_picture_needs_entry(
    entries: Seq<EntryModel>,
    kind: ResourceKind,
    id: Seq<char>,
    i: int,
)
    requires
        0 <= i,
    ensures
        first_entry(entries, kind, id, i) is None ==> first_picture(entries, kind, id, i) is None,
    decreases entries.len() - i,
{
    if i < entries.len() {
        lemma_picture_needs_entry(entries, kind, id, i + 1);
    }
}

proof fn lemma_seen_picture(
    id: Seq<char>,
    models: Seq<(Seq<char>, ModelModel)>,
    pictures: Seq<(Seq<char>, Seq<u8>)>,
    seen: Seq<Seq<char>>,
)
    ensures
        picture_of(id, models, pictures, seen) matches Some(bytes) ==> exists|i: int|
            0 <= i < pictures.len() && (#[trigger] pictures[i]).1 == bytes,
    decreases unseen(models, seen),
{
    lemma_unseen(models, seen, id);
    table::lemma_lookup_some(models, id);
    if !seen.contains(id) {
        match (table::lookup(models, id), text::cut(id, ":"@)) {
            (Some(model), Some((namespace, _))) => {
                match model.textures {
                    Some(textures) => {
                        lemma_preferred_picture(0, textures, namespace, pictures);
                        lemma_any_picture(0, textures, namespace, pictures);
                    },
                    None => {},
                }
                match model.parent {
                    Some(parent) => {
                        if !is_template(parent) {
                            lemma_seen_picture(
                                full_name(parent, namespace),
                                models,
                                pictures,
                                seen.push(id),
                            );
                        }
                    },
                    None => {},
                }
            },
            _ => {},
        }
    }
}

proof fn lemma_looked_up(pictures: Seq<(Seq<char>, Seq<u8>)>, id: Seq<char>)
    ensures
        table::lookup(pictures, id) matches Some(bytes) ==> exists|i: int|
            0 <= i < pictures.len() && (#[trigger] pictures[i]).1 == bytes,
    decreases pictures.len(),
{
    if pictures.len() > 0 {
        lemma_looked_up(pictures.drop_first(), id);
        let rest = pictures.drop_first();
        if pictures[0].0 == id {
            assert(pictures[0].1 == pictures[0].1);
        } else if table::lookup(rest, id) is Some {
            let i = choose|i: int|
                0 <= i < rest.len() && (#[trigger] rest[i]).1 == table::lookup(rest, id)->0;
            assert(pictures[i + 1] == rest[i]);
        }
    }
}

proof fn lemma_preferred_picture(
    i: int,
    textures: Seq<(Seq<char>, Option<Seq<char>>)>,
    namespace: Seq<char>,
    pictures: Seq<(Seq<char>, Seq<u8>)>,
)
    ensures
        preferred_picture(i, textures, namespace, pictures) matches Some(bytes) ==> exists|k: int|
            0 <= k < pictures.len() && (#[trigger] pictures[k]).1 == bytes,
    decreases 7 - i,
{
    if i < 7 {
        lemma_preferred_picture(i + 1, textures, namespace, pictures);
        match table::lookup(textures, preferred(i)) {
            Some(Some(s)) => {
                match texture_named(s, textures, namespace) {
                    Some(id) => {
                        lemma_looked_up(pictures, id);
                    },
                    None => {},
                }
            },
            _ => {},
        }
    }
}

proof fn lemma_any_picture(
    i: int,
    textures: Seq<(Seq<char>, Option<Seq<char>>)>,
    namespace: Seq<char>,
    pictures: Seq<(Seq<char>, Seq<u8>)>,
)
    ensures
        any_picture(i, textures, namespace, pictures) matches Some(bytes) ==> exists|k: int|
            0 <= k < pictures.len() && (#[trigger] pictures[k]).1 == bytes,
    decreases textures.len() - i,
{
    if 0 <= i < textures.len() {
        lemma_any_picture(i + 1, textures, namespace, pictures);
        match textures[i].1 {
            Some(s) => {
                match texture_named(s, textures, namespace) {
                    Some(id) => {
                        lemma_looked_up(pictures, id);
                    },
                    None => {},
                }
            },
            None => {},
        }
    }
}

/// A model that has a picture has one of the pictures of its mod.
pub proof fn law_picture_of_a_model(
    id: Seq<char>,
    models: Seq<(Seq<char>, ModelModel)>,
    pictures: Seq<(Seq<char>, Seq<u8>)>,
)
    ensures
        picture_of(id, models, pictures, Seq::empty()) matches Some(bytes) ==> exists|i: int|
            0 <= i < pictures.len() && (#[trigger] pictures[i]).1 == bytes,
{
    lemma_seen_picture(id, models, pictures, Seq::empty());
}

} // verus!
