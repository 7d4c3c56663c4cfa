//! What is found in the files of mods: names, pictures and entries.

use crate::compose;
use crate::languages;
use crate::letters;
use crate::picks;
use crate::pictures;
use crate::resources;
use crate::resources::ContentsModel;
use crate::resources::EntryModel;
use crate::resources::ModelModel;
use crate::resources::ResourceKind;
use crate::table;
use crate::text;
use crate::text_laws;
use vstd::prelude::*;

verus! {

// ---------------------------------------------------------------------------
// Searching
// ---------------------------------------------------------------------------

proof fn lemma_wanted_made(entries: Seq<EntryModel>, kind: ResourceKind, query: Seq<char>)
    ensures
        ({
            let all = picks::made(
                entries,
                |e: EntryModel|
                    if resources::is_wanted(
                        e,
                        kind,
                        query,
                        letters::lowercase(e.id),
                        letters::lowercase(e.name),
                    ) {
                        Some(e)
                    } else {
                        None
                    },
            );
            resources::wanted(entries, kind, query) == (if all.len() <= 500 {
                all
            } else {
                all.take(500)
            })
        }),
    decreases entries.len(),
{
    let f = |e: EntryModel|
        if resources::is_wanted(
            e,
            kind,
            query,
            letters::lowercase(e.id),
            letters::lowercase(e.name),
        ) {
            Some(e)
        } else {
            None
        };
    let all = picks::made(entries, f);
    if entries.len() > 0 {
        lemma_wanted_made(entries.drop_last(), kind, query);
        let before = picks::made(entries.drop_last(), f);
        if all.len() > 500 {
            assert(all.take(500) =~= before.take(500));
            if before.len() == 500 {
                assert(before.take(500) =~= before);
            }
        }
    }
}

/// Of the entries of a kind those are found whose id or name holds the query in small letters, and
/// all of them where nothing is asked; they come in their order, and no more than five hundred.
pub proof fn law_entries_are_found(
    entries: Seq<EntryModel>,
    kind: ResourceKind,
    query: Seq<char>,
) -> (places: Seq<int>)
    ensures
        picks::picks(
            entries,
            |e: EntryModel|
                e.kind == kind && (query.len() == 0 || text::has_text(
                    letters::lowercase(e.id),
                    query,
                ) || text::has_text(letters::lowercase(e.name), query)),
            places,
        ),
        ({
            let r = resources::wanted(entries, kind, query);
            &&& r.len() == if places.len() <= 500 {
                places.len()
            } else {
                500
            }
            &&& forall|j: int| 0 <= j < r.len() ==> r[j] == entries[#[trigger] places[j]]
        }),
{
    let f = |e: EntryModel|
        if resources::is_wanted(
            e,
            kind,
            query,
            letters::lowercase(e.id),
            letters::lowercase(e.name),
        ) {
            Some(e)
        } else {
            None
        };
    lemma_wanted_made(entries, kind, query);
    let places = picks::lemma_made(entries, f);
    picks::lemma_same_wish(
        entries,
        |e: EntryModel| f(e) is Some,
        |e: EntryModel|
            e.kind == kind && (query.len() == 0 || text::has_text(
                letters::lowercase(e.id),
                query,
            ) || text::has_text(letters::lowercase(e.name), query)),
        places,
    );
    let r = resources::wanted(entries, kind, query);
    assert forall|j: int| 0 <= j < r.len() implies r[j] == entries[#[trigger] places[j]] by {
        assert(f(entries[places[j]]) == Some(picks::made(entries, f)[j]));
    }
    places
}

/// The icon of a resource is that of the first entry with its id.
pub proof fn law_icon_of_a_resource(entries: Seq<EntryModel>, i: int, id: Seq<char>)
    ensures
        0 <= i < entries.len() && (forall|k: int|
            0 <= k < i ==> (#[trigger] entries[k]).id != entries[i].id) ==> pictures::icon_of(
            entries,
            entries[i].id,
        ) == entries[i].icon_png,
        (forall|k: int| 0 <= k < entries.len() ==> (#[trigger] entries[k]).id != id)
            ==> pictures::icon_of(entries, id) is None,
    decreases entries.len(),
{
    if entries.len() > 0 {
        let rest = entries.skip(1);
        law_icon_of_a_resource(rest, i - 1, id);
        if 0 < i < entries.len() && (forall|k: int|
            0 <= k < i ==> (#[trigger] entries[k]).id != entries[i].id) {
            assert(entries[0].id != entries[i].id);
            assert forall|k: int| 0 <= k < i - 1 implies (#[trigger] rest[k]).id != rest[i
                - 1].id by {
                assert(entries[k + 1].id != entries[i].id);
            }
        }
        if forall|k: int| 0 <= k < entries.len() ==> (#[trigger] entries[k]).id != id {
            assert(entries[0].id != id);
            assert forall|k: int| 0 <= k < rest.len() implies (#[trigger] rest[k]).id != id by {
                assert(entries[k + 1].id != id);
            }
        }
    }
}

// ---------------------------------------------------------------------------
// Names in archives
// ---------------------------------------------------------------------------

proof fn lemma_no_slash(s: Seq<char>)
    requires
        s == "assets"@ || s == "lang"@ || s == "en_us.json"@ || s == "en_gb.json"@,
    ensures
        !s.contains('/'),
{
    reveal_strlit("assets");
    reveal_strlit("lang");
    reveal_strlit("en_us.json");
    reveal_strlit("en_gb.json");
}

proof fn lemma_four_pieces(a: Seq<char>, b: Seq<char>, c: Seq<char>, d: Seq<char>)
    requires
        !a.contains('/'),
        !b.contains('/'),
        !c.contains('/'),
        !d.contains('/'),
    ensures
        compose::pieces(a + seq!['/'] + b + seq!['/'] + c + seq!['/'] + d, '/') == seq![a, b, c, d],
{
    let none = Seq::<char>::empty();
    text_laws::law_text_is_split(none, '/', a);
    text_laws::law_text_is_split(a, '/', b);
    let two = a.push('/') + b;
    text_laws::law_text_is_split(two, '/', c);
    let three = two.push('/') + c;
    text_laws::law_text_is_split(three, '/', d);
    let four = three.push('/') + d;
    assert(four =~= a + seq!['/'] + b + seq!['/'] + c + seq!['/'] + d);
    assert(compose::pieces(four, '/') =~= seq![a, b, c, d]);
}

/// The English texts of a mod stand in a file of the folder `lang` of its assets, and no other file
/// is one of those.
pub proof fn law_language_files_are_recognised(namespace: Seq<char>, name: Seq<char>)
    ensures
        !namespace.contains('/') ==> resources::language_of(
            "assets"@ + seq!['/'] + namespace + seq!['/'] + "lang"@ + seq!['/'] + "en_us.json"@,
        ) == Some(namespace),
        !namespace.contains('/') ==> resources::language_of(
            "assets"@ + seq!['/'] + namespace + seq!['/'] + "lang"@ + seq!['/'] + "en_gb.json"@,
        ) == Some(namespace),
        resources::language_of(name) matches Some(found) ==> name == "assets"@ + seq!['/'] + found
            + seq!['/'] + "lang"@ + seq!['/'] + "en_us.json"@ || name == "assets"@ + seq!['/']
            + found + seq!['/'] + "lang"@ + seq!['/'] + "en_gb.json"@,
{
    lemma_no_slash("assets"@);
    lemma_no_slash("lang"@);
    lemma_no_slash("en_us.json"@);
    lemma_no_slash("en_gb.json"@);
    if !namespace.contains('/') {
        lemma_four_pieces("assets"@, namespace, "lang"@, "en_us.json"@);
        lemma_four_pieces("assets"@, namespace, "lang"@, "en_gb.json"@);
    }
    if let Some(found) = resources::language_of(name) {
        let parts = compose::pieces(name, '/');
        text_laws::law_pieces_give_the_text_back(name, '/');
        let by = seq!['/'];
        assert(parts =~= seq![parts[0], parts[1], parts[2], parts[3]]);
        let one = seq![parts[0]];
        let two = one.push(parts[1]);
        let three = two.push(parts[2]);
        assert(three.push(parts[3]) =~= parts);
        text_laws::law_parts_are_joined(one, by, parts[0]);
        text_laws::law_parts_are_joined(one, by, parts[1]);
        text_laws::law_parts_are_joined(two, by, parts[2]);
        text_laws::law_parts_are_joined(three, by, parts[3]);
    }
}

/// The id of a model or a picture is made of its name space and its place in the folder: nothing
/// but a file of that folder with that ending has one.
pub proof fn law_ids_of_files(name: Seq<char>, folder: Seq<char>, ending: Seq<char>) -> (r: (
    Seq<char>,
    Seq<char>,
))
    ensures
        resources::id_in(name, folder, ending) matches Some(id) ==> name == "assets/"@ + r.0
            + folder + r.1 + ending && id == r.0 + ":"@ + r.1,
{
    match resources::id_in(name, folder, ending) {
        Some(_) => {
            let rest = text::without_prefix(name, "assets/"@)->0;
            assert(name == "assets/"@ + rest) by {
                text_laws::law_ends_are_taken_away("assets/"@, name);
            }
            let (namespace, file) = text::cut(rest, folder)->0;
            assert(rest == namespace + folder + file) by {
                text_laws::law_text_is_cut(rest, folder);
            }
            let place = text::without_suffix(file, ending)->0;
            assert(file == place + ending) by {
                text_laws::law_ends_are_taken_away(ending, file);
            }
            assert("assets/"@ + (namespace + folder + (place + ending)) =~= "assets/"@ + namespace
                + folder + place + ending);
            (namespace, place)
        },
        None => (name, name),
    }
}

/// A file of the assets of a mod has the id of its place, where its name space does not hold the
/// folder itself.
pub proof fn law_files_have_ids(
    namespace: Seq<char>,
    folder: Seq<char>,
    place: Seq<char>,
    ending: Seq<char>,
)
    requires
        forall|i: int|
            0 <= i < namespace.len() ==> !text::stands_at(
                namespace + folder + (place + ending),
                folder,
                i,
            ),
    ensures
        resources::id_in("assets/"@ + (namespace + folder + (place + ending)), folder, ending)
            == Some(namespace + ":"@ + place),
{
    let file = place + ending;
    let rest = namespace + folder + file;
    text_laws::law_ends_are_taken_away("assets/"@, rest);
    text::lemma_find(rest, folder, 0);
    assert(rest.subrange(namespace.len() as int, (namespace.len() + folder.len()) as int) =~= folder);
    assert(text::stands_at(rest, folder, namespace.len() as int));
    let i = text::find(rest, folder, 0)->0;
    assert(i == namespace.len());
    assert(rest.take(i) =~= namespace);
    assert(rest.skip(i + folder.len()) =~= file);
    text_laws::law_ends_are_taken_away(ending, place);
}

/// In a folder the id of a file is its name space and its place without the ending, with slashes
/// for backslashes.
pub proof fn law_ids_in_folders(namespace: Seq<char>, place: Seq<char>, ending: Seq<char>)
    requires
        !place.contains('\\'),
        !ending.contains('\\'),
    ensures
        resources::id_in_folder(namespace, place + ending, ending.len()) == namespace + ":"@
            + place,
{
    reveal_strlit("\\");
    let s = place + ending;
    if text::has_text(s, "\\"@) {
        let i = choose|i: int| text::stands_at(s, "\\"@, i);
        assert(s.subrange(i, i + 1)[0] == s[i]);
        if i < place.len() {
            assert(place[i] == '\\');
        } else {
            assert(ending[i - place.len()] == '\\');
        }
    }
    text_laws::law_other_text_is_not_replaced(s, "\\"@, "/"@);
    assert(s.take(s.len() - ending.len()) =~= place);
}

// ---------------------------------------------------------------------------
// Names
// ---------------------------------------------------------------------------

/// A name with a colon is complete; a model of the game goes to the game, and any other name to
/// the name space.
pub proof fn law_names_are_completed(value: Seq<char>, namespace: Seq<char>)
    ensures
        value.contains(':') ==> resources::full_name(value, namespace) == value,
        !value.contains(':') && (exists|rest: Seq<char>| value == #[trigger] ("item/"@ + rest))
            ==> resources::full_name(value, namespace) == "minecraft:"@ + value,
        !value.contains(':') && (exists|rest: Seq<char>| value == #[trigger] ("block/"@ + rest))
            ==> resources::full_name(value, namespace) == "minecraft:"@ + value,
        !value.contains(':') && (forall|rest: Seq<char>| value != #[trigger] ("item/"@ + rest)) && (
        forall|rest: Seq<char>| value != #[trigger] ("block/"@ + rest))
            ==> resources::full_name(value, namespace) == namespace + ":"@ + value,
{
    reveal_strlit(":");
    if value.contains(':') {
        let i = choose|i: int| 0 <= i < value.len() && value[i] == ':';
        assert(value.subrange(i, i + 1) =~= ":"@);
        assert(text::stands_at(value, ":"@, i));
    }
    if text::has_text(value, ":"@) {
        let i = choose|i: int| text::stands_at(value, ":"@, i);
        assert(value.subrange(i, i + 1)[0] == value[i]);
    }
    lemma_begins(value, "item/"@);
    lemma_begins(value, "block/"@);
}

proof fn lemma_begins(s: Seq<char>, p: Seq<char>)
    ensures
        text::has_prefix(s, p) <==> exists|rest: Seq<char>| s == #[trigger] (p + rest),
{
    if text::has_prefix(s, p) {
        assert(s =~= s.subrange(0, p.len() as int) + s.skip(p.len() as int));
    }
    if exists|rest: Seq<char>| s == #[trigger] (p + rest) {
        let rest = choose|rest: Seq<char>| s == #[trigger] (p + rest);
        assert(s.subrange(0, p.len() as int) =~= p);
    }
}

/// A texture that begins with a hash stands for another one of the same model; what it stands for
/// may not begin with one again. Every other texture is its own name, completed.
pub proof fn law_textures_are_resolved(
    value: Seq<char>,
    textures: Seq<(Seq<char>, Option<Seq<char>>)>,
    namespace: Seq<char>,
)
    ensures
        value.len() == 0 || value[0] != '#' ==> resources::texture_named(value, textures, namespace)
            == Some(resources::full_name(value, namespace)),
        ({
            let alias = seq!['#'] + value;
            match table::lookup(textures, value) {
                Some(Some(target)) => if target.len() == 0 || target[0] != '#' {
                    resources::texture_named(alias, textures, namespace) == Some(
                        resources::full_name(target, namespace),
                    )
                } else {
                    resources::texture_named(alias, textures, namespace) is None
                },
                _ => resources::texture_named(alias, textures, namespace) is None,
            }
        }),
{
    reveal_strlit("#");
    let hash = "#"@;
    assert(hash =~= seq!['#']);
    lemma_hash(value);
    let alias = seq!['#'] + value;
    text_laws::law_ends_are_taken_away(hash, value);
    assert(hash + value =~= alias);
    if let Some(Some(target)) = table::lookup(textures, value) {
        lemma_hash(target);
    }
}

proof fn lemma_hash(s: Seq<char>)
    ensures
        text::has_prefix(s, "#"@) <==> s.len() > 0 && s[0] == '#',
{
    reveal_strlit("#");
    if s.len() > 0 {
        assert(s.subrange(0, 1) =~= seq![s[0]]);
        assert("#"@ =~= seq!['#']);
        if text::has_prefix(s, "#"@) {
            assert(s.subrange(0, 1)[0] == "#"@[0]);
        }
    }
}

/// In the game the id of an item ends at the first point of its key; in a mod it is the whole key.
pub proof fn law_ids_of_keys(namespace: Seq<char>, a: Seq<char>, b: Seq<char>)
    requires
        !a.contains('.'),
    ensures
        namespace != "minecraft"@ ==> resources::registered(namespace, b) == b,
        resources::registered("minecraft"@, a) == a,
        resources::registered("minecraft"@, a + "."@ + b) == a,
{
    reveal_strlit(".");
    let point = "."@;
    if text::has_text(a, point) {
        let i = choose|i: int| text::stands_at(a, point, i);
        assert(a.subrange(i, i + 1)[0] == a[i]);
    }
    text::lemma_find(a, point, 0);
    if let Some(i) = text::find(a, point, 0) {
        assert(text::stands_at(a, point, i));
    }
    let s = a + point + b;
    text::lemma_find(s, point, 0);
    assert(s.subrange(a.len() as int, a.len() as int + 1) =~= point);
    assert(text::stands_at(s, point, a.len() as int));
    let i = text::find(s, point, 0)->0;
    if i < a.len() {
        assert(s.subrange(i, i + 1)[0] == s[i]);
        assert(a[i] == '.');
    }
    assert(s.take(a.len() as int) =~= a);
}

/// Keys that only explain something else are those in which an explaining word stands last or
/// before another point.
pub proof fn law_explanations_are_left_out(s: Seq<char>)
    ensures
        resources::is_auxiliary(s) <==> exists|word: Seq<char>|
            #![trigger explains(word)]
            explains(word) && ((exists|front: Seq<char>| s == #[trigger] (front + word))
                || text::has_text(s, word + "."@)),
{
    assert(explains(".tooltip"@) && explains(".description"@) && explains(".desc"@) && explains(
        ".summary"@,
    ) && explains(".condition"@) && explains(".behaviour"@) && explains(".behavior"@));
    assert forall|word: Seq<char>| #[trigger] explains(word) implies (resources::is_marked(s, word)
        <==> (exists|front: Seq<char>| s == #[trigger] (front + word)) || text::has_text(
        s,
        word + "."@,
    )) by {
        lemma_ends(s, word);
    }
}

pub open spec fn explains(word: Seq<char>) -> bool {
    word == ".tooltip"@ || word == ".description"@ || word == ".desc"@ || word == ".summary"@
        || word == ".condition"@ || word == ".behaviour"@ || word == ".behavior"@
}

proof fn lemma_ends(s: Seq<char>, p: Seq<char>)
    ensures
        text::has_suffix(s, p) <==> exists|front: Seq<char>| s == #[trigger] (front + p),
{
    if text::has_suffix(s, p) {
        let n = s.len() - p.len();
        assert(s =~= s.take(n) + s.subrange(n, s.len() as int));
    }
    if exists|front: Seq<char>| s == #[trigger] (front + p) {
        let front = choose|front: Seq<char>| s == #[trigger] (front + p);
        assert(s.subrange(s.len() - p.len(), s.len() as int) =~= p);
    }
}

proof fn lemma_nonempty_made(parts: Seq<Seq<char>>)
    ensures
        resources::nonempty(parts) == picks::made(
            parts,
            |p: Seq<char>|
                if p.len() == 0 {
                    None
                } else {
                    Some(p)
                },
        ),
    decreases parts.len(),
{
    if parts.len() > 0 {
        lemma_nonempty_made(parts.drop_last());
    }
}

/// A name is made of the words of an id behind its last slash, each with a capital letter and with
/// spaces between them.
pub proof fn law_names_are_made_of_ids(value: Seq<char>) -> (places: Seq<int>)
    ensures
        ({
            let parts = compose::pieces(compose::pieces(value, '/').last(), '_');
            let words = Seq::new(places.len(), |j: int| parts[places[j]]);
            &&& picks::picks(parts, |p: Seq<char>| p.len() > 0, places)
            &&& resources::humanized(value) == compose::joined(
                Seq::new(
                    words.len(),
                    |j: int| letters::uppercase(words[j][0]) + words[j].skip(1),
                ),
                " "@,
            )
        }),
{
    let parts = compose::pieces(compose::pieces(value, '/').last(), '_');
    let f = |p: Seq<char>|
        if p.len() == 0 {
            None
        } else {
            Some(p)
        };
    lemma_nonempty_made(parts);
    let places = picks::lemma_made(parts, f);
    picks::lemma_same_wish(
        parts,
        |p: Seq<char>| f(p) is Some,
        |p: Seq<char>| p.len() > 0,
        places,
    );
    let words = Seq::new(places.len(), |j: int| parts[places[j]]);
    assert forall|j: int| 0 <= j < places.len() implies words[j] == resources::words_of(
        value,
    )[j] by {
        assert(f(parts[places[j]]) == Some(picks::made(parts, f)[j]));
    }
    assert(words =~= resources::words_of(value));
    assert(resources::with_initials(words, resources::capitals(words)) =~= Seq::new(
        words.len(),
        |j: int| letters::uppercase(words[j][0]) + words[j].skip(1),
    ));
    places
}

// ---------------------------------------------------------------------------
// Entries
// ---------------------------------------------------------------------------

/// A key names a resource where it says that it is an item, a block or an entity of the name space;
/// items and blocks are items.
pub proof fn law_keys_name_resources(namespace: Seq<char>, place: Seq<char>, key: Seq<char>)
    ensures
        resources::named_by(namespace, "item."@ + namespace + "."@ + place) == Some(
            (ResourceKind::Item, place),
        ),
        resources::named_by(namespace, "block."@ + namespace + "."@ + place) == Some(
            (ResourceKind::Item, place),
        ),
        resources::named_by(namespace, "entity."@ + namespace + "."@ + place) == Some(
            (ResourceKind::Entity, place),
        ),
        resources::named_by(namespace, key) matches Some((kind, found)) ==> {
            ||| kind == ResourceKind::Item && key == "item."@ + namespace + "."@ + found
            ||| kind == ResourceKind::Item && key == "block."@ + namespace + "."@ + found
            ||| kind == ResourceKind::Entity && key == "entity."@ + namespace + "."@ + found
        },
{
    reveal_strlit("item.");
    reveal_strlit("block.");
    reveal_strlit("entity.");
    let i = "item."@ + namespace + "."@;
    let b = "block."@ + namespace + "."@;
    let e = "entity."@ + namespace + "."@;
    text_laws::law_ends_are_taken_away(i, place);
    text_laws::law_ends_are_taken_away(b, place);
    text_laws::law_ends_are_taken_away(e, place);
    text_laws::law_ends_are_taken_away(i, key);
    text_laws::law_ends_are_taken_away(b, key);
    text_laws::law_ends_are_taken_away(e, key);
    assert((b + place)[0] == 'b');
    assert((e + place)[0] == 'e');
    if text::has_prefix(b + place, i) {
        assert((b + place).subrange(0, i.len() as int)[0] == i[0]);
        assert(i[0] == 'i');
    }
    if text::has_prefix(e + place, i) {
        assert((e + place).subrange(0, i.len() as int)[0] == i[0]);
        assert(i[0] == 'i');
    }
    if text::has_prefix(e + place, b) {
        assert((e + place).subrange(0, b.len() as int)[0] == b[0]);
        assert(b[0] == 'b');
    }
}

proof fn lemma_translated_made(
    namespace: Seq<char>,
    words: Seq<(Seq<char>, Seq<char>)>,
    source: Seq<char>,
)
    ensures
        resources::translated_entries(namespace, words, source) == picks::made(
            words,
            |w: (Seq<char>, Seq<char>)| resources::translated_entry(namespace, w, source),
        ),
    decreases words.len(),
{
    if words.len() > 0 {
        lemma_translated_made(namespace, words.drop_last(), source);
    }
}

/// Each text of a language whose key names a resource and does not only explain gives an entry:
/// with that name, of that kind, from that source and without a picture.
pub proof fn law_texts_give_entries(
    namespace: Seq<char>,
    words: Seq<(Seq<char>, Seq<char>)>,
    source: Seq<char>,
) -> (places: Seq<int>)
    ensures
        picks::picks(
            words,
            |w: (Seq<char>, Seq<char>)|
                resources::named_by(namespace, w.0) matches Some((_, found))
                    && !resources::is_auxiliary(found),
            places,
        ),
        resources::translated_entries(namespace, words, source).len() == places.len(),
        forall|j: int|
            #![trigger places[j]]
            0 <= j < places.len() ==> {
                let e = resources::translated_entries(namespace, words, source)[j];
                let w = words[places[j]];
                resources::named_by(namespace, w.0) matches Some((kind, found)) && e == (EntryModel {
                    id: namespace + ":"@ + resources::registered(namespace, found),
                    name: w.1,
                    kind,
                    source,
                    icon_png: None,
                })
            },
{
    let f = |w: (Seq<char>, Seq<char>)| resources::translated_entry(namespace, w, source);
    lemma_translated_made(namespace, words, source);
    let places = picks::lemma_made(words, f);
    picks::lemma_same_wish(
        words,
        |w: (Seq<char>, Seq<char>)| f(w) is Some,
        |w: (Seq<char>, Seq<char>)|
            resources::named_by(namespace, w.0) matches Some((_, found))
                && !resources::is_auxiliary(found),
        places,
    );
    assert forall|j: int|
        #![trigger places[j]]
        0 <= j < places.len() implies f(words[places[j]]) == Some(
        resources::translated_entries(namespace, words, source)[j],
    ) by {
        assert(f(words[places[j]]) == Some(picks::made(words, f)[j]));
    }
    places
}

/// An item that a model shows has its name from the language, as an item or else as a block; where
/// it has none, one of the game is left out and one of a mod goes by its id. It has the picture of
/// its model.
pub proof fn law_items_of_models(
    namespace: Seq<char>,
    place: Seq<char>,
    words: Seq<(Seq<char>, Seq<char>)>,
    source: Seq<char>,
    icon: Option<Seq<u8>>,
)
    ensures
        ({
            let dotted = compose::replaced(place, "/"@, "."@);
            let item = table::lookup(words, "item."@ + namespace + "."@ + dotted);
            let block = table::lookup(words, "block."@ + namespace + "."@ + dotted);
            let r = resources::item_entry(namespace, place, words, source, icon);
            &&& r matches Some(e) ==> e.id == namespace + ":"@ + place && e.kind
                == ResourceKind::Item && e.source == source && e.icon_png == icon
            &&& item is Some ==> (r matches Some(e) && Some(e.name) == item)
            &&& item is None && block is Some ==> (r matches Some(e) && Some(e.name) == block)
            &&& item is None && block is None && namespace == "minecraft"@ ==> r is None
            &&& item is None && block is None && namespace != "minecraft"@ ==> (r matches Some(e)
                && e.name == resources::humanized(place))
        }),
{
}

/// The entries of a mod are those of its languages, one language behind the other, and then the
/// items of its models.
pub proof fn law_entries_of_a_mod(
    languages: Seq<(Seq<char>, Seq<(Seq<char>, Seq<char>)>)>,
    language: (Seq<char>, Seq<(Seq<char>, Seq<char>)>),
    contents: ContentsModel,
    n: int,
    source: Seq<char>,
)
    requires
        0 < n,
    ensures
        resources::language_entries(Seq::empty(), source).len() == 0,
        resources::language_entries(languages.push(language), source)
            == resources::language_entries(languages, source) + resources::translated_entries(
            language.0,
            language.1,
            source,
        ),
        resources::shown_items(contents, 0, source).len() == 0,
        resources::shown_item(contents, contents.models[n - 1].0, source) matches Some(e)
            ==> resources::shown_items(contents, n, source) == resources::shown_items(
            contents,
            n - 1,
            source,
        ).push(e),
        resources::shown_item(contents, contents.models[n - 1].0, source) is None
            ==> resources::shown_items(contents, n, source) == resources::shown_items(
            contents,
            n - 1,
            source,
        ),
        resources::mod_entries(contents, source) == resources::language_entries(
            contents.languages,
            source,
        ) + resources::shown_items(contents, contents.models.len() as int, source),
{
    assert(languages.push(language).drop_last() =~= languages);
}

/// A file of an archive adds what it holds under its id and leaves the rest; of two files with one
/// id the later one counts. A file of another kind adds nothing.
pub proof fn law_files_are_added(
    contents: ContentsModel,
    name: Seq<char>,
    bytes: Seq<u8>,
    other: Seq<char>,
)
    requires
        table::ordered(contents.models),
        table::ordered(contents.pictures),
        table::ordered(contents.languages),
        resources::language_of(name) is None,
    ensures
        ({
            let after = resources::with_file(contents, (name, bytes));
            let model = resources::id_in(name, "/models/"@, ".json"@);
            let image = resources::id_in(name, "/textures/"@, ".png"@);
            &&& after.languages == contents.languages
            &&& model matches Some(id) ==> {
                &&& after.pictures == contents.pictures
                &&& resources::model_in(bytes) matches Some(m) ==> table::lookup(after.models, id)
                    == Some(m)
                &&& resources::model_in(bytes) is None ==> after.models == contents.models
                &&& other != id ==> table::lookup(after.models, other) == table::lookup(
                    contents.models,
                    other,
                )
            }
            &&& model is None && image is Some ==> {
                &&& after.models == contents.models
                &&& table::lookup(after.pictures, image->0) == Some(bytes)
                &&& other != image->0 ==> table::lookup(after.pictures, other) == table::lookup(
                    contents.pictures,
                    other,
                )
            }
            &&& model is None && image is None ==> after == contents
        }),
{
    if let Some(id) = resources::id_in(name, "/models/"@, ".json"@) {
        if let Some(m) = resources::model_in(bytes) {
            table::lemma_upsert(contents.models, id, m);
        }
    } else if let Some(id) = resources::id_in(name, "/textures/"@, ".png"@) {
        table::lemma_upsert(contents.pictures, id, bytes);
    }
}

proof fn lemma_extended(
    words: Seq<(Seq<char>, Seq<char>)>,
    more: Seq<(Seq<char>, Seq<char>)>,
    key: Seq<char>,
)
    requires
        table::ordered(words),
    ensures
        table::ordered(resources::extended(words, more)),
        (forall|i: int| 0 <= i < more.len() ==> (#[trigger] more[i]).0 != key) ==> table::lookup(
            resources::extended(words, more),
            key,
        ) == table::lookup(words, key),
    decreases more.len(),
{
    if more.len() > 0 {
        let front = more.drop_last();
        lemma_extended(words, front, key);
        table::lemma_upsert(resources::extended(words, front), more.last().0, more.last().1);
        if forall|i: int| 0 <= i < more.len() ==> (#[trigger] more[i]).0 != key {
            assert(more[more.len() - 1].0 != key);
            assert forall|i: int| 0 <= i < front.len() implies (#[trigger] front[i]).0 != key by {
                assert(more[i].0 != key);
            }
        }
    }
}

/// A language file adds its texts to those of its name space: of texts with one key the last one
/// counts, and texts with other keys stay. A file that is no language adds nothing.
pub proof fn law_language_is_extended(
    contents: ContentsModel,
    namespace: Seq<char>,
    bytes: Seq<u8>,
    i: int,
    key: Seq<char>,
)
    requires
        table::ordered(contents.languages),
        table::lookup(contents.languages, namespace) matches Some(words) ==> table::ordered(words),
    ensures
        languages::json_pairs(bytes) is Err ==> resources::with_language(contents, namespace, bytes)
            == contents,
        languages::json_pairs(bytes) matches Ok(pairs) ==> {
            let after = resources::with_language(contents, namespace, bytes);
            &&& after.models == contents.models
            &&& after.pictures == contents.pictures
            &&& table::lookup(after.languages, namespace) is Some
            &&& 0 <= i < pairs.len() && (forall|j: int|
                i < j < pairs.len() ==> (#[trigger] pairs[j]).0 != pairs[i].0) ==> table::lookup(
                table::lookup(after.languages, namespace)->0,
                pairs[i].0,
            ) == Some(pairs[i].1)
            &&& (forall|j: int| 0 <= j < pairs.len() ==> (#[trigger] pairs[j]).0 != key)
                ==> table::lookup(table::lookup(after.languages, namespace)->0, key) == (
            match table::lookup(contents.languages, namespace) {
                Some(words) => table::lookup(words, key),
                None => None,
            })
        },
{
    if let Ok(pairs) = languages::json_pairs(bytes) {
        let before = resources::words_or_none(contents.languages, namespace);
        let words = resources::extended(before, pairs);
        table::lemma_upsert(contents.languages, namespace, words);
        lemma_extended(before, pairs, key);
        if 0 <= i < pairs.len() && (forall|j: int|
            i < j < pairs.len() ==> (#[trigger] pairs[j]).0 != pairs[i].0) {
            lemma_extended_last(before, pairs, i);
        }
    }
}

proof fn lemma_extended_last(
    words: Seq<(Seq<char>, Seq<char>)>,
    more: Seq<(Seq<char>, Seq<char>)>,
    i: int,
)
    requires
        table::ordered(words),
        0 <= i < more.len(),
        forall|j: int| i < j < more.len() ==> (#[trigger] more[j]).0 != more[i].0,
    ensures
        table::lookup(resources::extended(words, more), more[i].0) == Some(more[i].1),
    decreases more.len(),
{
    let front = more.drop_last();
    lemma_extended(words, front, more[i].0);
    table::lemma_upsert(resources::extended(words, front), more.last().0, more.last().1);
    if i < front.len() {
        assert(more[front.len() as int].0 != more[i].0);
        lemma_extended_last(words, front, i);
    }
}

/// What a model says: its textures where that field is an object, and its parent where that field
/// is a text.
pub proof fn law_model_is_read(
    fields: Seq<(Seq<char>, resources::FieldModel)>,
    i: int,
    j: int,
)
    requires
        0 <= i < fields.len(),
        0 <= j < fields.len(),
        fields[i].0 == "textures"@,
        fields[j].0 == "parent"@,
        forall|k: int| i < k < fields.len() ==> (#[trigger] fields[k]).0 != "textures"@,
        forall|k: int| j < k < fields.len() ==> (#[trigger] fields[k]).0 != "parent"@,
    ensures
        ({
            let m = resources::model_of(fields);
            &&& fields[j].1 matches resources::FieldModel::Text(s) ==> m.parent == Some(s)
            &&& !(fields[j].1 is Text) ==> m.parent is None
            &&& (fields[i].1 is Object) == (m.textures is Some)
        }),
{
    lemma_field_named(fields, i);
    lemma_field_named(fields, j);
}

proof fn lemma_field_named(fields: Seq<(Seq<char>, resources::FieldModel)>, i: int)
    requires
        0 <= i < fields.len(),
        forall|k: int| i < k < fields.len() ==> (#[trigger] fields[k]).0 != fields[i].0,
    ensures
        resources::field_named(fields, fields[i].0) == Some(fields[i].1),
    decreases fields.len(),
{
    if i < fields.len() - 1 {
        assert(fields[fields.len() - 1].0 != fields[i].0);
        lemma_field_named(fields.drop_last(), i);
    }
}

// ---------------------------------------------------------------------------
// Pictures
// ---------------------------------------------------------------------------

/// The picture that a texture of a model names.
pub open spec fn texture_picture(
    textures: Seq<(Seq<char>, Option<Seq<char>>)>,
    value: Option<Seq<char>>,
    namespace: Seq<char>,
    pictures: Seq<(Seq<char>, Seq<u8>)>,
) -> Option<Seq<u8>> {
    match value {
        Some(s) => match resources::texture_named(s, textures, namespace) {
            Some(id) => table::lookup(pictures, id),
            None => None,
        },
        None => None,
    }
}

proof fn lemma_any_found(
    i: int,
    k: int,
    textures: Seq<(Seq<char>, Option<Seq<char>>)>,
    namespace: Seq<char>,
    pictures: Seq<(Seq<char>, Seq<u8>)>,
)
    requires
        0 <= i <= k < textures.len(),
        texture_picture(textures, textures[k].1, namespace, pictures) is Some,
    ensures
        resources::any_picture(i, textures, namespace, pictures) is Some,
    decreases k - i,
{
    if i < k {
        lemma_any_found(i + 1, k, textures, namespace, pictures);
    }
}

/// A model is shown by its first layer where that has a picture; where any of its textures has a
/// picture it is shown by one of them.
pub proof fn law_model_is_shown_by_its_textures(
    id: Seq<char>,
    models: Seq<(Seq<char>, ModelModel)>,
    pictures: Seq<(Seq<char>, Seq<u8>)>,
    model: ModelModel,
    textures: Seq<(Seq<char>, Option<Seq<char>>)>,
    namespace: Seq<char>,
    rest: Seq<char>,
    k: int,
)
    requires
        table::lookup(models, id) == Some(model),
        text::cut(id, ":"@) == Some((namespace, rest)),
        model.textures == Some(textures),
    ensures
        table::lookup(textures, "layer0"@) matches Some(value) ==> (texture_picture(
            textures,
            value,
            namespace,
            pictures,
        ) matches Some(bytes) ==> resources::picture_of(id, models, pictures, Seq::empty())
            == Some(bytes)),
        0 <= k < textures.len() && texture_picture(textures, textures[k].1, namespace, pictures)
            is Some ==> resources::picture_of(id, models, pictures, Seq::empty()) is Some,
{
    assert(!Seq::<Seq<char>>::empty().contains(id));
    if 0 <= k < textures.len() && texture_picture(textures, textures[k].1, namespace, pictures)
        is Some {
        lemma_any_found(0, k, textures, namespace, pictures);
    }
}

/// A model without a picture of its own is shown by its parent, but not by a template of the game;
/// one without a parent is not shown, and neither is one that is not there.
pub proof fn law_model_is_shown_by_its_parent(
    id: Seq<char>,
    models: Seq<(Seq<char>, ModelModel)>,
    pictures: Seq<(Seq<char>, Seq<u8>)>,
    model: ModelModel,
    namespace: Seq<char>,
    rest: Seq<char>,
)
    requires
        text::cut(id, ":"@) == Some((namespace, rest)),
        resources::own_picture(model, namespace, pictures) is None,
    ensures
        table::lookup(models, id) is None ==> resources::picture_of(
            id,
            models,
            pictures,
            Seq::empty(),
        ) is None,
        table::lookup(models, id) == Some(model) ==> match model.parent {
            None => resources::picture_of(id, models, pictures, Seq::empty()) is None,
            Some(parent) => {
                let name = resources::full_name(parent, namespace);
                let shown = resources::picture_of(id, models, pictures, Seq::empty());
                &&& (parent == "item/generated"@ || parent == "minecraft:item/generated"@ || parent
                    == "item/handheld"@ || parent == "minecraft:item/handheld"@) ==> shown is None
                &&& name == id ==> shown is None
                &&& parent != "item/generated"@ && parent != "minecraft:item/generated"@ && parent
                    != "item/handheld"@ && parent != "minecraft:item/handheld"@ && name != id ==> (
                match (table::lookup(models, name), text::cut(name, ":"@)) {
                    (Some(above), Some((space, _))) => resources::own_picture(
                        above,
                        space,
                        pictures,
                    ) matches Some(bytes) ==> shown == Some(bytes),
                    _ => shown is None,
                })
            },
        },
{
    assert(!Seq::<Seq<char>>::empty().contains(id));
    if table::lookup(models, id) == Some(model) {
        if let Some(parent) = model.parent {
            let name = resources::full_name(parent, namespace);
            let seen = Seq::<Seq<char>>::empty().push(id);
            assert(seen[0] == id);
            if name != id {
                assert(!seen.contains(name));
            }
            if !resources::is_template(parent) {
                assert(resources::picture_of(id, models, pictures, Seq::empty())
                    == resources::picture_of(name, models, pictures, seen));
            }
        }
    }
}

/// Textures are tried in this order before any other: the two layers, the one for all sides, the
/// front, the side, the one without a name, and the particles.
pub proof fn law_order_of_textures(
    textures: Seq<(Seq<char>, Option<Seq<char>>)>,
    namespace: Seq<char>,
    pictures: Seq<(Seq<char>, Seq<u8>)>,
    k: int,
)
    requires
        0 <= k < 7,
    ensures
        ({
            let names = seq![
                "layer0"@,
                "layer1"@,
                "all"@,
                "front"@,
                "side"@,
                "0"@,
                "particle"@,
            ];
            let found = |i: int|
                match table::lookup(textures, names[i]) {
                    Some(value) => texture_picture(textures, value, namespace, pictures),
                    None => None,
                };
            &&& found(k) is Some && (forall|i: int| 0 <= i < k ==> #[trigger] found(i) is None)
                ==> resources::own_picture(
                ModelModel { textures: Some(textures), parent: None },
                namespace,
                pictures,
            ) == found(k)
        }),
{
    let names = seq!["layer0"@, "layer1"@, "all"@, "front"@, "side"@, "0"@, "particle"@];
    let found = |i: int|
        match table::lookup(textures, names[i]) {
            Some(value) => texture_picture(textures, value, namespace, pictures),
            None => None,
        };
    if found(k) is Some && (forall|i: int| 0 <= i < k ==> #[trigger] found(i) is None) {
        let same = |i: int|
            match table::lookup(textures, resources::preferred(i)) {
                Some(value) => texture_picture(textures, value, namespace, pictures),
                None => None,
            };
        assert forall|i: int| 0 <= i < 7 implies #[trigger] same(i) == found(i) by {
            assert(names[i] == resources::preferred(i));
        }
        lemma_preferred(textures, namespace, pictures, 0, k);
    }
}

proof fn lemma_preferred(
    textures: Seq<(Seq<char>, Option<Seq<char>>)>,
    namespace: Seq<char>,
    pictures: Seq<(Seq<char>, Seq<u8>)>,
    from: int,
    k: int,
)
    requires
        0 <= from <= k < 7,
        ({
            let found = |i: int|
                match table::lookup(textures, resources::preferred(i)) {
                    Some(value) => texture_picture(textures, value, namespace, pictures),
                    None => None,
                };
            found(k) is Some && forall|i: int| from <= i < k ==> #[trigger] found(i) is None
        }),
    ensures
        resources::preferred_picture(from, textures, namespace, pictures) == (match table::lookup(
            textures,
            resources::preferred(k),
        ) {
            Some(value) => texture_picture(textures, value, namespace, pictures),
            None => None,
        }),
    decreases k - from,
{
    let found = |i: int|
        match table::lookup(textures, resources::preferred(i)) {
            Some(value) => texture_picture(textures, value, namespace, pictures),
            None => None,
        };
    if from < k {
        assert(found(from) is None);
        lemma_preferred(textures, namespace, pictures, from + 1, k);
    } else {
        assert(found(k) is Some);
    }
}

// ---------------------------------------------------------------------------
// Finished
// ---------------------------------------------------------------------------

proof fn lemma_kinds(entries: Seq<EntryModel>, kind: ResourceKind, i: int)
    requires
        0 <= i < resources::of_kind(entries, kind).len(),
    ensures
        resources::of_kind(entries, kind)[i].1.kind == kind,
        resources::of_kind(entries, kind)[i].1.id == resources::of_kind(entries, kind)[i].0,
    decreases entries.len(),
{
    if entries.len() > 0 {
        let front = entries.drop_last();
        let last = entries.last();
        let before = resources::of_kind(front, kind);
        if last.kind == kind {
            resources::law_finished_index(front, kind, last.id);
            let value = resources::joined_entry(table::lookup(before, last.id), last);
            let at = table::lemma_place_exists(before, last.id);
            table::lemma_place_upsert(before, last.id, value, at);
            table::lemma_place_lookup(before, last.id, at);
            if at < before.len() && before[at].0 == last.id {
                lemma_kinds(front, kind, at);
                if i != at {
                    lemma_kinds(front, kind, i);
                }
            } else if i < at {
                lemma_kinds(front, kind, i);
            } else if i > at {
                lemma_kinds(front, kind, i - 1);
            }
        } else {
            lemma_kinds(front, kind, i);
        }
    }
}

/// A finished index holds first the items and then the entities, each in the order of their ids and
/// none twice.
pub proof fn law_finished_index_is_in_order(entries: Seq<EntryModel>) -> (n: nat)
    ensures
        ({
            let all = resources::finished(entries);
            &&& n <= all.len()
            &&& forall|i: int| 0 <= i < n ==> (#[trigger] all[i]).kind == ResourceKind::Item
            &&& forall|i: int|
                n <= i < all.len() ==> (#[trigger] all[i]).kind == ResourceKind::Entity
            &&& forall|i: int, j: int|
                0 <= i < j < all.len() && (j < n || n <= i) ==> text::precedes(
                    (#[trigger] all[i]).id,
                    (#[trigger] all[j]).id,
                )
        }),
{
    let items = resources::of_kind(entries, ResourceKind::Item);
    let entities = resources::of_kind(entries, ResourceKind::Entity);
    let all = resources::finished(entries);
    let n = items.len();
    resources::law_finished_index(entries, ResourceKind::Item, Seq::empty());
    resources::law_finished_index(entries, ResourceKind::Entity, Seq::empty());
    assert forall|i: int| 0 <= i < n implies (#[trigger] all[i]).kind == ResourceKind::Item
        && all[i].id == items[i].0 by {
        lemma_kinds(entries, ResourceKind::Item, i);
    }
    assert forall|i: int| n <= i < all.len() implies (#[trigger] all[i]).kind
        == ResourceKind::Entity && all[i].id == entities[i - n].0 by {
        lemma_kinds(entries, ResourceKind::Entity, i - n);
    }
    assert forall|i: int, j: int|
        0 <= i < j < all.len() && (j < n || n <= i) implies text::precedes(
        (#[trigger] all[i]).id,
        (#[trigger] all[j]).id,
    ) by {
        if j < n {
            assert(text::precedes(items[i].0, items[j].0));
        } else {
            assert(text::precedes(entities[i - n].0, entities[j - n].0));
        }
    }
    n
}

/// The first entry of a kind with an id is the one that a finished index keeps, with the first
/// picture that an entry of that kind with that id has.
pub proof fn law_first_entry_is_kept(
    entries: Seq<EntryModel>,
    kind: ResourceKind,
    i: int,
    k: int,
    other: Seq<char>,
)
    requires
        0 <= i < entries.len(),
        entries[i].kind == kind,
        forall|j: int|
            0 <= j < i ==> !((#[trigger] entries[j]).kind == kind && entries[j].id
                == entries[i].id),
    ensures
        table::lookup(resources::of_kind(entries, kind), entries[i].id) matches Some(kept)
            && kept.id == entries[i].id && kept.name == entries[i].name && kept.kind == kind
            && kept.source == entries[i].source,
        ({
            let shown = |j: int|
                entries[j].kind == kind && entries[j].id == entries[i].id && entries[j].icon_png
                    is Some;
            &&& 0 <= k < entries.len() && shown(k) && (forall|j: int|
                0 <= j < k ==> !#[trigger] shown(j)) ==> table::lookup(
                resources::of_kind(entries, kind),
                entries[i].id,
            )->0.icon_png == entries[k].icon_png
            &&& (forall|j: int| 0 <= j < entries.len() ==> !#[trigger] shown(j)) ==> table::lookup(
                resources::of_kind(entries, kind),
                entries[i].id,
            )->0.icon_png is None
        }),
        (forall|j: int|
            0 <= j < entries.len() ==> !((#[trigger] entries[j]).kind == kind && entries[j].id
                == other)) ==> table::lookup(resources::of_kind(entries, kind), other) is None,
{
    let id = entries[i].id;
    resources::law_finished_index(entries, kind, id);
    resources::law_finished_index(entries, kind, other);
    lemma_first_entry(entries, kind, id, 0, i);
    let shown = |j: int|
        entries[j].kind == kind && entries[j].id == entries[i].id && entries[j].icon_png is Some;
    if 0 <= k < entries.len() && shown(k) && (forall|j: int| 0 <= j < k ==> !#[trigger] shown(j)) {
        assert forall|j: int| 0 <= j < k implies !((#[trigger] entries[j]).kind == kind
            && entries[j].id == id && entries[j].icon_png is Some) by {
            assert(!shown(j));
        }
        lemma_first_picture(entries, kind, id, 0, k);
    }
    if forall|j: int| 0 <= j < entries.len() ==> !#[trigger] shown(j) {
        assert forall|j: int| 0 <= j < entries.len() implies !((#[trigger] entries[j]).kind == kind
            && entries[j].id == id && entries[j].icon_png is Some) by {
            assert(!shown(j));
        }
        lemma_first_picture(entries, kind, id, 0, entries.len() as int);
    }
    if forall|j: int|
        0 <= j < entries.len() ==> !((#[trigger] entries[j]).kind == kind && entries[j].id
            == other) {
        lemma_first_entry(entries, kind, other, 0, entries.len() as int);
    }
}

proof fn lemma_first_entry(
    entries: Seq<EntryModel>,
    kind: ResourceKind,
    id: Seq<char>,
    from: int,
    i: int,
)
    requires
        0 <= from <= i <= entries.len(),
        i < entries.len() ==> entries[i].kind == kind && entries[i].id == id,
        forall|j: int|
            from <= j < i ==> !((#[trigger] entries[j]).kind == kind && entries[j].id == id),
    ensures
        resources::first_entry(entries, kind, id, from) == (if i < entries.len() {
            Some(entries[i])
        } else {
            None
        }),
    decreases i - from,
{
    if from < i {
        assert(!(entries[from].kind == kind && entries[from].id == id));
        lemma_first_entry(entries, kind, id, from + 1, i);
    }
}

proof fn lemma_first_picture(
    entries: Seq<EntryModel>,
    kind: ResourceKind,
    id: Seq<char>,
    from: int,
    i: int,
)
    requires
        0 <= from <= i <= entries.len(),
        i < entries.len() ==> entries[i].kind == kind && entries[i].id == id
            && entries[i].icon_png is Some,
        forall|j: int|
            from <= j < i ==> !((#[trigger] entries[j]).kind == kind && entries[j].id == id
                && entries[j].icon_png is Some),
    ensures
        resources::first_picture(entries, kind, id, from) == (if i < entries.len() {
            entries[i].icon_png
        } else {
            None
        }),
    decreases i - from,
{
    if from < i {
        assert(!(entries[from].kind == kind && entries[from].id == id && entries[from].icon_png
            is Some));
        lemma_first_picture(entries, kind, id, from + 1, i);
    }
}

// ---------------------------------------------------------------------------
// Folders
// ---------------------------------------------------------------------------

proof fn lemma_arranged<V>(pairs: Seq<(Seq<char>, V)>, i: int)
    ensures
        table::ordered(resources::arranged(pairs)),
        0 <= i < pairs.len() && (forall|j: int|
            i < j < pairs.len() ==> (#[trigger] pairs[j]).0 != pairs[i].0) ==> table::lookup(
            resources::arranged(pairs),
            pairs[i].0,
        ) == Some(pairs[i].1),
    decreases pairs.len(),
{
    if pairs.len() > 0 {
        let front = pairs.drop_last();
        lemma_arranged(front, i);
        table::lemma_upsert(resources::arranged(front), pairs.last().0, pairs.last().1);
        if 0 <= i < front.len() && (forall|j: int|
            i < j < pairs.len() ==> (#[trigger] pairs[j]).0 != pairs[i].0) {
            assert(pairs[front.len() as int].0 != pairs[i].0);
            assert forall|j: int| i < j < front.len() implies (#[trigger] front[j]).0
                != front[i].0 by {
                assert(pairs[j].0 != pairs[i].0);
            }
        }
    }
}

/// Each texture that a model gives stands under its name; of two with one name the later one
/// counts. A model that gives no textures and no parent has none.
pub proof fn law_textures_are_read(
    fields: Seq<(Seq<char>, resources::FieldModel)>,
    at: int,
    list: Seq<(Seq<char>, Option<Seq<char>>)>,
    i: int,
)
    ensures
        0 <= at < fields.len() && fields[at] == ("textures"@, resources::FieldModel::Object(list))
            && (forall|k: int| at < k < fields.len() ==> (#[trigger] fields[k]).0 != "textures"@)
            && 0 <= i < list.len() && (forall|j: int|
            i < j < list.len() ==> (#[trigger] list[j]).0 != list[i].0) ==> (
        resources::model_of(fields).textures matches Some(textures) && table::lookup(
            textures,
            list[i].0,
        ) == Some(list[i].1)),
        (forall|k: int| 0 <= k < fields.len() ==> (#[trigger] fields[k]).0 != "textures"@)
            ==> resources::model_of(fields).textures is None,
        (forall|k: int| 0 <= k < fields.len() ==> (#[trigger] fields[k]).0 != "parent"@)
            ==> resources::model_of(fields).parent is None,
{
    if 0 <= at < fields.len() && fields[at] == ("textures"@, resources::FieldModel::Object(list))
        && (forall|k: int| at < k < fields.len() ==> (#[trigger] fields[k]).0 != "textures"@) {
        lemma_field_named(fields, at);
        lemma_arranged(list, i);
    }
    if forall|k: int| 0 <= k < fields.len() ==> (#[trigger] fields[k]).0 != "textures"@ {
        lemma_no_field(fields, "textures"@);
    }
    if forall|k: int| 0 <= k < fields.len() ==> (#[trigger] fields[k]).0 != "parent"@ {
        lemma_no_field(fields, "parent"@);
    }
}

proof fn lemma_no_field(fields: Seq<(Seq<char>, resources::FieldModel)>, key: Seq<char>)
    requires
        forall|k: int| 0 <= k < fields.len() ==> (#[trigger] fields[k]).0 != key,
    ensures
        resources::field_named(fields, key) is None,
    decreases fields.len(),
{
    if fields.len() > 0 {
        assert(fields[fields.len() - 1].0 != key);
        lemma_no_field(fields.drop_last(), key);
    }
}

/// The texts of a folder are those of its first language file that can be read.
pub proof fn law_first_language_is_taken(files: Seq<Seq<u8>>, from: int, i: int)
    requires
        0 <= from <= i <= files.len(),
    ensures
        i < files.len() && languages::json_pairs(files[i]) is Ok && (forall|j: int|
            from <= j < i ==> languages::json_pairs(#[trigger] files[j]) is Err)
            ==> resources::first_language(files, from) == languages::gathered(
            languages::json_pairs(files[i])->Ok_0,
        ),
        (forall|j: int| from <= j < files.len() ==> languages::json_pairs(#[trigger] files[j]) is Err)
            ==> resources::first_language(files, from).len() == 0,
    decreases files.len() - from,
{
    if from < files.len() {
        if from < i {
            law_first_language_is_taken(files, from + 1, i);
        } else {
            law_first_language_is_taken(files, from + 1, i + 1);
        }
        if forall|j: int|
            from <= j < files.len() ==> languages::json_pairs(#[trigger] files[j]) is Err {
            assert(languages::json_pairs(files[from]) is Err);
        }
        if i < files.len() && languages::json_pairs(files[i]) is Ok && from < i && (forall|j: int|
            from <= j < i ==> languages::json_pairs(#[trigger] files[j]) is Err) {
            assert(languages::json_pairs(files[from]) is Err);
        }
    }
}

proof fn lemma_with_models(
    contents: ContentsModel,
    namespace: Seq<char>,
    files: Seq<(Seq<char>, Seq<u8>)>,
    i: int,
)
    requires
        table::ordered(contents.models),
    ensures
        ({
            let after = resources::with_models(contents, namespace, files);
            &&& table::ordered(after.models)
            &&& after.languages == contents.languages
            &&& after.pictures == contents.pictures
            &&& 0 <= i < files.len() && (forall|j: int|
                i < j < files.len() ==> resources::id_in_folder(
                    namespace,
                    (#[trigger] files[j]).0,
                    5,
                ) != resources::id_in_folder(namespace, files[i].0, 5)) ==> (
            resources::model_in(files[i].1) matches Some(model) ==> table::lookup(
                after.models,
                resources::id_in_folder(namespace, files[i].0, 5),
            ) == Some(model))
        }),
    decreases files.len(),
{
    if files.len() > 0 {
        let front = files.drop_last();
        lemma_with_models(contents, namespace, front, i);
        let before = resources::with_models(contents, namespace, front);
        let id = resources::id_in_folder(namespace, files.last().0, 5);
        if let Some(model) = resources::model_in(files.last().1) {
            table::lemma_upsert(before.models, id, model);
        }
        if 0 <= i < front.len() && (forall|j: int|
            i < j < files.len() ==> resources::id_in_folder(
                namespace,
                (#[trigger] files[j]).0,
                5,
            ) != resources::id_in_folder(namespace, files[i].0, 5)) {
            assert(files[front.len() as int] == files.last());
            assert forall|j: int| i < j < front.len() implies resources::id_in_folder(
                namespace,
                (#[trigger] front[j]).0,
                5,
            ) != resources::id_in_folder(namespace, front[i].0, 5) by {
                assert(files[j] == front[j]);
            }
        }
    }
}

proof fn lemma_with_pictures(
    contents: ContentsModel,
    namespace: Seq<char>,
    files: Seq<(Seq<char>, Seq<u8>)>,
    i: int,
)
    requires
        table::ordered(contents.pictures),
    ensures
        ({
            let after = resources::with_pictures(contents, namespace, files);
            &&& table::ordered(after.pictures)
            &&& after.languages == contents.languages
            &&& after.models == contents.models
            &&& 0 <= i < files.len() && (forall|j: int|
                i < j < files.len() ==> resources::id_in_folder(
                    namespace,
                    (#[trigger] files[j]).0,
                    4,
                ) != resources::id_in_folder(namespace, files[i].0, 4)) ==> table::lookup(
                after.pictures,
                resources::id_in_folder(namespace, files[i].0, 4),
            ) == Some(files[i].1)
        }),
    decreases files.len(),
{
    if files.len() > 0 {
        let front = files.drop_last();
        lemma_with_pictures(contents, namespace, front, i);
        let before = resources::with_pictures(contents, namespace, front);
        let id = resources::id_in_folder(namespace, files.last().0, 4);
        table::lemma_upsert(before.pictures, id, files.last().1);
        if 0 <= i < front.len() && (forall|j: int|
            i < j < files.len() ==> resources::id_in_folder(
                namespace,
                (#[trigger] files[j]).0,
                4,
            ) != resources::id_in_folder(namespace, files[i].0, 4)) {
            assert(files[front.len() as int] == files.last());
            assert forall|j: int| i < j < front.len() implies resources::id_in_folder(
                namespace,
                (#[trigger] front[j]).0,
                4,
            ) != resources::id_in_folder(namespace, front[i].0, 4) by {
                assert(files[j] == front[j]);
            }
        }
    }
}

/// A folder of assets adds its texts, its models and its pictures under its name: each model and
/// each picture is found by its place without the ending.
pub proof fn law_folders_are_added(
    contents: ContentsModel,
    folder: resources::NamespaceModel,
    i: int,
    k: int,
)
    requires
        table::ordered(contents.languages),
        table::ordered(contents.models),
        table::ordered(contents.pictures),
    ensures
        ({
            let after = resources::with_namespace(contents, folder);
            &&& table::lookup(after.languages, folder.name) == Some(
                resources::first_language(folder.languages, 0),
            )
            &&& 0 <= i < folder.models.len() && (forall|j: int|
                i < j < folder.models.len() ==> resources::id_in_folder(
                    folder.name,
                    (#[trigger] folder.models[j]).0,
                    5,
                ) != resources::id_in_folder(folder.name, folder.models[i].0, 5)) ==> (
            resources::model_in(folder.models[i].1) matches Some(model) ==> table::lookup(
                after.models,
                resources::id_in_folder(folder.name, folder.models[i].0, 5),
            ) == Some(model))
            &&& 0 <= k < folder.pictures.len() && (forall|j: int|
                k < j < folder.pictures.len() ==> resources::id_in_folder(
                    folder.name,
                    (#[trigger] folder.pictures[j]).0,
                    4,
                ) != resources::id_in_folder(folder.name, folder.pictures[k].0, 4))
                ==> table::lookup(
                after.pictures,
                resources::id_in_folder(folder.name, folder.pictures[k].0, 4),
            ) == Some(folder.pictures[k].1)
        }),
{
    let words = resources::first_language(folder.languages, 0);
    table::lemma_upsert(contents.languages, folder.name, words);
    let named = ContentsModel {
        languages: table::upsert(contents.languages, folder.name, words),
        ..contents
    };
    lemma_with_models(named, folder.name, folder.models, i);
    let modelled = resources::with_models(named, folder.name, folder.models);
    lemma_with_pictures(modelled, folder.name, folder.pictures, k);
}

/// The files of an archive and the folders of assets are added one after the other to nothing.
pub proof fn law_contents_are_gathered(
    files: Seq<(Seq<char>, Seq<u8>)>,
    file: (Seq<char>, Seq<u8>),
    folders: Seq<resources::NamespaceModel>,
    folder: resources::NamespaceModel,
)
    ensures
        resources::archive_contents(Seq::empty()).languages.len() == 0,
        resources::archive_contents(Seq::empty()).models.len() == 0,
        resources::archive_contents(Seq::empty()).pictures.len() == 0,
        resources::archive_contents(files.push(file)) == resources::with_file(
            resources::archive_contents(files),
            file,
        ),
        resources::folder_contents(Seq::empty()).languages.len() == 0,
        resources::folder_contents(Seq::empty()).models.len() == 0,
        resources::folder_contents(Seq::empty()).pictures.len() == 0,
        resources::folder_contents(folders.push(folder)) == resources::with_namespace(
            resources::folder_contents(folders),
            folder,
        ),
{
    assert(files.push(file).drop_last() =~= files);
    assert(folders.push(folder).drop_last() =~= folders);
}

} // verus!
