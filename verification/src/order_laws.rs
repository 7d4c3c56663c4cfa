//! In which order files and warnings stand, what is selected next, and how ids are written.

use crate::autosave;
use crate::book;
use crate::book::BrokenModel;
use crate::book_laws;
use crate::captions;
use crate::compose;
use crate::editor;
use crate::localize;
use crate::naming;
use crate::order;
use crate::path;
use crate::path::PartModel;
use crate::path::ProjectPath;
use crate::search;
use crate::session;
use crate::session::SessionModel;
use crate::table;
use crate::text;
use crate::text_laws;
use crate::translation;
use vstd::prelude::*;

verus! {

// ---------------------------------------------------------------------------
// Broken dependencies
// ---------------------------------------------------------------------------

/// The broken dependencies of a report stand in the order of their chapters, in a chapter in the
/// order of the quests, and at a quest in the order of what it lacks; none is lost or added.
pub proof fn law_report_is_in_order(s: Seq<BrokenModel>)
    ensures
        ({
            let all = order::sorted_by(s, order::ranking::<book::BrokenDependency>());
            &&& all.to_multiset() == s.to_multiset()
            &&& forall|i: int, j: int|
                0 <= i < j < all.len() ==> !text::precedes(
                    (#[trigger] all[j]).chapter,
                    (#[trigger] all[i]).chapter,
                )
            &&& forall|i: int, j: int|
                0 <= i < j < all.len() && (#[trigger] all[i]).chapter == (
                #[trigger] all[j]).chapter ==> !text::precedes(all[j].quest_id, all[i].quest_id)
            &&& forall|i: int, j: int|
                0 <= i < j < all.len() && (#[trigger] all[i]).chapter == (
                #[trigger] all[j]).chapter && all[i].quest_id == all[j].quest_id
                    ==> !text::precedes(all[j].missing_quest_id, all[i].missing_quest_id)
        }),
{
    let before = order::ranking::<book::BrokenDependency>();
    let all = order::sorted_by(s, before);
    order::lemma_sorted_keeps(s, before);
    assert(order::is_ranking(before)) by {
        assert forall|a: BrokenModel, b: BrokenModel| #[trigger] before(a, b) implies !before(
            b,
            a,
        ) by {
            book_laws::lemma_two_texts(a.chapter, b.chapter);
            book_laws::lemma_two_texts(a.quest_id, b.quest_id);
            book_laws::lemma_two_texts(a.missing_quest_id, b.missing_quest_id);
        }
        assert forall|a: BrokenModel, b: BrokenModel, c: BrokenModel|
            !(#[trigger] before(b, a)) && !(#[trigger] before(c, b)) implies !before(c, a) by {
            book_laws::lemma_three_texts(a.chapter, b.chapter, c.chapter);
            book_laws::lemma_three_texts(a.quest_id, b.quest_id, c.quest_id);
            book_laws::lemma_three_texts(
                a.missing_quest_id,
                b.missing_quest_id,
                c.missing_quest_id,
            );
        }
    }
    order::lemma_sorted_in_order(s, before);
    assert forall|i: int, j: int| 0 <= i < j < all.len() implies !before(
        #[trigger] all[j],
        #[trigger] all[i],
    ) by {}
    assert forall|i: int, j: int| 0 <= i < j < all.len() implies !text::precedes(
        (#[trigger] all[j]).chapter,
        (#[trigger] all[i]).chapter,
    ) by {
        assert(!before(all[j], all[i]));
        book_laws::lemma_two_texts(all[j].chapter, all[i].chapter);
    }
    assert forall|i: int, j: int|
        0 <= i < j < all.len() && (#[trigger] all[i]).chapter == (
        #[trigger] all[j]).chapter implies !text::precedes(all[j].quest_id, all[i].quest_id) by {
        assert(!before(all[j], all[i]));
        book_laws::lemma_two_texts(all[j].quest_id, all[i].quest_id);
    }
    assert forall|i: int, j: int|
        0 <= i < j < all.len() && (#[trigger] all[i]).chapter == (#[trigger] all[j]).chapter
            && all[i].quest_id == all[j].quest_id implies !text::precedes(
        all[j].missing_quest_id,
        all[i].missing_quest_id,
    ) by {
        assert(!before(all[j], all[i]));
    }
}

// ---------------------------------------------------------------------------
// Files
// ---------------------------------------------------------------------------

proof fn lemma_three_paths(a: Seq<PartModel>, b: Seq<PartModel>, c: Seq<PartModel>)
    ensures
        path::path_precedes(a, b) ==> !path::path_precedes(b, a),
        !path::path_precedes(b, a) && !path::path_precedes(c, b) ==> !path::path_precedes(c, a),
    decreases a.len(),
{
    if a.len() > 0 && b.len() > 0 {
        book_laws::lemma_two_texts(path::part_text(a[0]), path::part_text(b[0]));
        if c.len() > 0 {
            book_laws::lemma_three_texts(
                path::part_text(a[0]),
                path::part_text(b[0]),
                path::part_text(c[0]),
            );
            lemma_three_paths(a.skip(1), b.skip(1), c.skip(1));
        } else {
            lemma_three_paths(a.skip(1), b.skip(1), c);
        }
    }
}

proof fn lemma_first_part(a: Seq<PartModel>, b: Seq<PartModel>, k: int)
    requires
        0 <= k <= a.len(),
        k < b.len(),
        forall|m: int| 0 <= m < k ==> #[trigger] a[m] == b[m],
        k == a.len() || (a[k] matches PartModel::Name(x) && b[k] matches PartModel::Name(y)
            && text::precedes(x, y)),
    ensures
        path::path_precedes(a, b),
    decreases k,
{
    if k > 0 {
        assert(a[0] == b[0]);
        assert forall|m: int| 0 <= m < k - 1 implies #[trigger] a.skip(1)[m] == b.skip(1)[m] by {
            assert(a[m + 1] == b[m + 1]);
        }
        lemma_first_part(a.skip(1), b.skip(1), k - 1);
    } else if a.len() > 0 {
        book_laws::lemma_two_texts(path::part_text(a[0]), path::part_text(b[0]));
    }
}

/// Files stand in the order of the first names in which their places differ, and a folder stands
/// before what is in it; none is lost or added.
pub proof fn law_files_are_in_order(s: Seq<Seq<PartModel>>, i: int, j: int, k: int)
    requires
        0 <= i < j < s.len(),
    ensures
        ({
            let all = order::sorted_by(s, order::ranking::<ProjectPath>());
            &&& all.len() == s.len()
            &&& all.to_multiset() == s.to_multiset()
            &&& 0 <= k <= all[j].len() && k < all[i].len() && (forall|m: int|
                0 <= m < k ==> #[trigger] all[j][m] == all[i][m]) ==> {
                &&& k < all[j].len()
                &&& !(all[j][k] matches PartModel::Name(x) && all[i][k] matches PartModel::Name(y)
                    && text::precedes(x, y))
            }
        }),
{
    let before = order::ranking::<ProjectPath>();
    let all = order::sorted_by(s, before);
    order::lemma_sorted_keeps(s, before);
    assert(all.len() == s.len()) by {
        broadcast use vstd::seq_lib::group_to_multiset_ensures;

        assert(all.to_multiset().len() == s.to_multiset().len());
    }
    assert(order::is_ranking(before)) by {
        assert forall|a: Seq<PartModel>, b: Seq<PartModel>| #[trigger] before(
            a,
            b,
        ) implies !before(b, a) by {
            lemma_three_paths(a, b, a);
        }
        assert forall|a: Seq<PartModel>, b: Seq<PartModel>, c: Seq<PartModel>|
            !(#[trigger] before(b, a)) && !(#[trigger] before(c, b)) implies !before(c, a) by {
            lemma_three_paths(a, b, c);
        }
    }
    order::lemma_sorted_in_order(s, before);
    assert(!before(all[j], all[i]));
    if 0 <= k <= all[j].len() && k < all[i].len() && (forall|m: int|
        0 <= m < k ==> #[trigger] all[j][m] == all[i][m]) {
        if k == all[j].len() || (all[j][k] matches PartModel::Name(x)
            && all[i][k] matches PartModel::Name(y) && text::precedes(x, y)) {
            lemma_first_part(all[j], all[i], k);
        }
    }
}

/// The files that are kept beside a book stand in the same order of their places.
pub proof fn law_kept_files_are_in_order(a: editor::FileModel, b: editor::FileModel)
    ensures
        order::ranking::<editor::PreservedFile>()(a, b) == order::ranking::<ProjectPath>()(
            a.relative_path,
            b.relative_path,
        ),
{
}

// ---------------------------------------------------------------------------
// What is next
// ---------------------------------------------------------------------------

/// Where the quest that is shown is no longer selected, the first of those that still are is shown,
/// and none where none is.
pub proof fn law_next_quest_is_shown(s: SessionModel, id: Seq<char>)
    requires
        table::has_key(s.selected, id),
        s.selected_quest == Some(id),
    ensures
        ({
            let after = session::toggled(s, id);
            &&& after.selected.len() == 0 ==> after.selected_quest is None
            &&& after.selected.len() > 0 ==> after.selected_quest == Some(after.selected[0].0)
        }),
{
}

/// A text is moved into a language where it says something and is not a key already: a blank text
/// and a key in braces, with white space round it or not, stay as they are.
pub proof fn law_keys_and_blanks_stay(
    k: localize::Keying,
    keys: Seq<Seq<char>>,
    s: Seq<char>,
    key: Seq<char>,
)
    ensures
        text::trimmed(s).len() == 0 ==> localize::keyed(k, keys, s) == (k, s)
            && localize::keys_for(s) == 0,
        key.len() > 0 && !key.contains('{') && !key.contains('}') && text::trimmed(s) == seq!['{']
            + key + seq!['}'] ==> localize::keyed(k, keys, s) == (k, s) && localize::keys_for(s)
            == 0,
        text::trimmed(s).len() > 0 && text::trimmed(s)[0] != '{' ==> localize::keys_for(s) == 1
            && localize::keyed(k, keys, s).0.used == k.used + 1 && localize::keyed(k, keys, s).1
            == translation::in_braces(keys[k.used]),
{
    let t = text::trimmed(s);
    if t == seq!['{'] + key + seq!['}'] {
        assert(t.subrange(1, t.len() - 1) =~= key);
    }
}

// ---------------------------------------------------------------------------
// Ids
// ---------------------------------------------------------------------------

/// A number is written in sixteens: its last digit is what is left over, and what stands before it
/// is the rest; a digit from ten on is a capital letter.
pub proof fn law_digits_are_counted_in_sixteens(n: nat, d: nat, width: nat)
    requires
        d < 16,
    ensures
        compose::hexadecimal(n, 0).len() == 0,
        compose::hexadecimal(n, width).len() == width,
        compose::hexadecimal(n * 16 + d, width + 1) == compose::hexadecimal(n, width).push(
            if d < 10 {
                ('0' as u32 + d) as char
            } else {
                ('A' as u32 + (d - 10)) as char
            },
        ),
    decreases width,
{
    assert((n * 16 + d) / 16 == n && (n * 16 + d) % 16 == d);
    if width > 0 {
        law_digits_are_counted_in_sixteens(n / 16, 0, (width - 1) as nat);
    }
}

/// An id has sixteen digits, and a state that is not nought does not become it.
pub proof fn law_ids_have_sixteen_digits(s: u64)
    ensures
        naming::id_of(s).len() == 16,
        s != 0 ==> naming::next_state(s) != 0,
{
    law_digits_are_counted_in_sixteens(s as nat, 0, 16);
    if s != 0 {
        naming::law_different_states_give_different_ids(s, 0);
        assert(0u64 ^ (0u64 << 13) == 0u64) by (bit_vector);
        assert(0u64 ^ (0u64 >> 7) == 0u64) by (bit_vector);
        assert(0u64 ^ (0u64 << 17) == 0u64) by (bit_vector);
    }
}

// ---------------------------------------------------------------------------
// Places
// ---------------------------------------------------------------------------

/// A quest that is found is told with the place that was written for it.
pub proof fn law_hit_tells_its_place(
    b: editor::BookModel,
    c: int,
    i: int,
    query: Seq<char>,
    places: Seq<Vec<String>>,
)
    requires
        0 <= c < places.len(),
        0 <= i < places[c]@.len(),
    ensures
        search::quest_hit(b, c, i, query, places) matches Some(hit) ==> text::has_text(
            hit.subtitle,
            " · ["@ + places[c]@[i]@ + "]"@,
        ),
{
    if let Some(hit) = search::quest_hit(b, c, i, query, places) {
        let told = " · ["@ + places[c]@[i]@ + "]"@;
        let all = hit.subtitle;
        assert(all.subrange(all.len() - told.len(), all.len() as int) =~= told);
        assert(text::stands_at(all, told, all.len() - told.len()));
    }
}

/// White space round a query does not count.
pub proof fn law_query_is_trimmed(query: Seq<char>)
    ensures
        search::query_key(query) == search::query_key(text::trimmed(query)),
{
    let sides = text_laws::law_trimmed_text_stands_inside(query);
    text_laws::law_white_space_is_trimmed(sides.0, text::trimmed(query), sides.1);
}

/// A language that can be added is shown from then on and named in the status; one that cannot
/// changes nothing but the status.
pub proof fn law_added_language_is_told(s: SessionModel, locale: Seq<char>)
    ensures
        ({
            let after = captions::with_language(s, locale);
            &&& after == (SessionModel { book: after.book, status: after.status, ..s })
            &&& after.book == (editor::BookModel {
                translations: after.book.translations,
                ..s.book
            })
            &&& translation::can_add(s.book.translations, locale)
                ==> after.book.translations.active_locale == translation::normal_locale(locale)
                && after.status == "Добавлен язык "@ + translation::normal_locale(locale) + "."@
            &&& !translation::can_add(s.book.translations, locale) ==> after.book == s.book
                && after.status == "Язык уже существует или код локали некорректен."@
        }),
{
}

/// The folders of a snapshot stand beside each other and differ in the ends of their names.
pub proof fn law_snapshots_stand_side_by_side(
    place: Seq<PartModel>,
    name: Seq<char>,
    ending: Seq<char>,
)
    requires
        name.len() > 0,
        name != "quests"@,
    ensures
        autosave::beside(path::inside(place, name), ending) == path::inside(place, name + ending),
{
    book_laws::law_names_stand_inside_folders(place, name);
    book_laws::law_edited_book_lies_beside_the_project(place, name, 2);
}

} // verus!
