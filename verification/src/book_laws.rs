//! What the figures of a book count, and what its report says.

use crate::autosave;
use crate::autosave::SnapshotModel;
use crate::book;
use crate::captions;
use crate::choices;
use crate::compose;
use crate::diagnostics;
use crate::editor;
use crate::import;
use crate::import_laws;
use crate::labels;
use crate::notation;
use crate::opening;
use crate::order;
use crate::path;
use crate::picks;
use crate::quest;
use crate::saving;
use crate::session;
use crate::snbt;
use crate::table;
use crate::text;
use crate::translation;
use vstd::prelude::*;

verus! {

// ---------------------------------------------------------------------------
// Chapters
// ---------------------------------------------------------------------------

/// The figures of chapters add up: each chapter adds its quests and its links, and counts as
/// grouped where it names a group and as empty where it lists no quests.
pub proof fn law_chapter_figures_add_up(
    a: Seq<(Option<Seq<char>>, notation::Node)>,
    chapter: (Option<Seq<char>>, notation::Node),
    b: Seq<(Option<Seq<char>>, notation::Node)>,
)
    ensures
        ({
            let all = book::chapter_counts(a + seq![chapter] + b);
            let x = book::chapter_counts(a);
            let y = book::chapter_counts(b);
            let n = chapter.1;
            &&& all.quests == x.quests + import_laws::listed(n, "quests"@).len() + y.quests
            &&& all.links == x.links + import_laws::listed(n, "quest_links"@).len() + y.links
            &&& all.empty == x.empty + y.empty + (if import_laws::listed(n, "quests"@).len() == 0 {
                1nat
            } else {
                0
            })
            &&& all.grouped == x.grouped + y.grouped + (match snbt::field(n, "group"@) {
                Some(notation::Node::Scalar(group)) => if group.len() > 0 {
                    1nat
                } else {
                    0
                },
                _ => 0,
            })
        }),
        ({
            let none = book::chapter_counts(Seq::empty());
            none.quests == 0 && none.links == 0 && none.empty == 0 && none.grouped == 0
        }),
    decreases b.len(),
{
    let all = a + seq![chapter] + b;
    if b.len() == 0 {
        assert(all.drop_last() =~= a);
        assert(b =~= Seq::empty());
    } else {
        law_chapter_figures_add_up(a, chapter, b.drop_last());
        assert(all.drop_last() =~= a + seq![chapter] + b.drop_last());
    }
}

/// A chapter is summed up by its title, its file and the number of its quests; a chapter without a
/// title goes by the name of its file.
pub proof fn law_chapter_is_summed_up(stem: Option<Seq<char>>, n: notation::Node)
    ensures
        ({
            let r = book::summary((stem, n));
            &&& stem matches Some(name) ==> import_laws::is_text(n, "filename"@, name, r.filename)
            &&& stem is None ==> import_laws::is_text(n, "filename"@, "?"@, r.filename)
            &&& import_laws::is_text(n, "title"@, r.filename, r.title)
            &&& r.quests == import_laws::listed(n, "quests"@).len()
        }),
{
}

/// The largest chapters are at most five, the one with the most quests first, and none that is left
/// out has more quests than one of them.
pub proof fn law_largest_chapters(chapters: Seq<(Option<Seq<char>>, notation::Node)>)
    ensures
        ({
            let all = order::sorted_by(
                book::summaries(chapters),
                order::ranking::<book::ChapterSummary>(),
            );
            let r = book::largest(chapters);
            &&& all.to_multiset() == book::summaries(chapters).to_multiset()
            &&& chapters.len() <= 5 ==> r == all
            &&& chapters.len() > 5 ==> r == all.take(5)
            &&& forall|i: int, j: int|
                0 <= i < j < all.len() ==> (#[trigger] all[i]).quests >= (#[trigger] all[j]).quests
            &&& book::summaries(chapters).len() == chapters.len()
            &&& forall|i: int|
                0 <= i < chapters.len() ==> #[trigger] book::summaries(chapters)[i]
                    == book::summary(chapters[i])
        }),
{
    let s = book::summaries(chapters);
    let before = order::ranking::<book::ChapterSummary>();
    let all = order::sorted_by(s, before);
    order::lemma_sorted_keeps(s, before);
    all.to_multiset_ensures();
    s.to_multiset_ensures();
    order::lemma_sorted_in_order(s, before);
    assert forall|i: int, j: int| 0 <= i < j < all.len() implies (#[trigger] all[i]).quests >= (
    #[trigger] all[j]).quests by {
        assert(!before(all[j], all[i]));
    }
}

// ---------------------------------------------------------------------------
// Quests
// ---------------------------------------------------------------------------

proof fn lemma_named_made(quests: Seq<notation::Node>, filename: Seq<char>)
    ensures
        book::named_in(quests, filename) == picks::made(
            quests,
            |q: notation::Node|
                match import::scalar_at(q, "id"@) {
                    Some(id) => Some(book::NamedModel { id, filename, quest: q }),
                    None => None,
                },
        ),
    decreases quests.len(),
{
    if quests.len() > 0 {
        lemma_named_made(quests.drop_last(), filename);
    }
}

/// Of the quests of a chapter those with an id are looked at, in their order.
pub proof fn law_quests_with_ids_are_looked_at(quests: Seq<notation::Node>, filename: Seq<char>) -> (
places: Seq<int>)
    ensures
        picks::picks(quests, |q: notation::Node| import_laws::has_id(q), places),
        book::named_in(quests, filename).len() == places.len(),
        forall|j: int|
            #![trigger places[j]]
            0 <= j < places.len() ==> {
                let r = book::named_in(quests, filename)[j];
                &&& r.quest == quests[places[j]]
                &&& r.filename == filename
                &&& snbt::field(quests[places[j]], "id"@) == Some(notation::Node::Scalar(r.id))
            },
{
    let f = |q: notation::Node|
        match import::scalar_at(q, "id"@) {
            Some(id) => Some(book::NamedModel { id, filename, quest: q }),
            None => None,
        };
    lemma_named_made(quests, filename);
    let places = picks::lemma_made(quests, f);
    picks::lemma_same_wish(
        quests,
        |q: notation::Node| f(q) is Some,
        |q: notation::Node| import_laws::has_id(q),
        places,
    );
    assert forall|j: int|
        #![trigger places[j]]
        0 <= j < places.len() implies f(quests[places[j]]) == Some(
        book::named_in(quests, filename)[j],
    ) by {
        assert(f(quests[places[j]]) == Some(picks::made(quests, f)[j]));
    }
    places
}

/// The quests that are looked at, their entries and their dependencies are those of all chapters
/// and quests, one behind the other.
pub proof fn law_quests_of_all_chapters(
    a: Seq<(Option<Seq<char>>, notation::Node)>,
    chapter: (Option<Seq<char>>, notation::Node),
)
    ensures
        book::named(Seq::empty()).len() == 0,
        book::named(a.push(chapter)) == book::named(a) + book::named_in(
            import_laws::listed(chapter.1, "quests"@),
            book::summary(chapter).filename,
        ),
{
    assert(a.push(chapter).drop_last() =~= a);
}

/// The entries of quests are those in their lists, and their dependencies are the texts in theirs,
/// each from the quest itself.
pub proof fn law_entries_and_links_of_all_quests(
    a: Seq<book::NamedModel>,
    q: book::NamedModel,
    key: Seq<char>,
)
    ensures
        book::items_of(Seq::empty(), key).len() == 0,
        book::items_of(a.push(q), key) == book::items_of(a, key) + import_laws::listed(
            q.quest,
            key,
        ),
        book::links(Seq::empty()).len() == 0,
        book::links(a.push(q)).len() >= book::links(a).len(),
        book::links(a.push(q)).take(book::links(a).len() as int) == book::links(a),
        import_laws::is_list_of_texts(
            q.quest,
            "dependencies"@,
            Seq::new(
                (book::links(a.push(q)).len() - book::links(a).len()) as nat,
                |i: int| book::links(a.push(q))[book::links(a).len() + i].1,
            ),
        ),
        forall|i: int|
            book::links(a).len() <= i < book::links(a.push(q)).len() ==> (#[trigger] book::links(
                a.push(q),
            )[i]).0 == q.id,
{
    let all = a.push(q);
    assert(all.drop_last() =~= a);
    let others = import::scalars_at(q.quest, "dependencies"@);
    let before = book::links(a);
    let after = book::links(all);
    assert(after == before + book::links_to(q.id, others));
    assert(after.take(before.len() as int) =~= before);
    let seconds = Seq::new(
        (after.len() - before.len()) as nat,
        |i: int| after[before.len() + i].1,
    );
    assert(seconds =~= others);
    import_laws::lemma_texts(q.quest, "dependencies"@);
}

/// A quest lives in the file of the last chapter that has its id, and an id that no quest has lives
/// nowhere.
pub proof fn law_quest_lives_in_its_file(quests: Seq<book::NamedModel>, i: int)
    requires
        0 <= i < quests.len(),
        forall|j: int| i < j < quests.len() ==> (#[trigger] quests[j]).id != quests[i].id,
    ensures
        table::lookup(book::homes(quests), quests[i].id) == Some(quests[i].filename),
    decreases quests.len(),
{
    let front = quests.drop_last();
    lemma_homes_ordered(front);
    table::lemma_upsert(book::homes(front), quests.last().id, quests.last().filename);
    if i < front.len() {
        assert(quests[front.len() as int].id != quests[i].id);
        law_quest_lives_in_its_file(front, i);
    }
}

/// An id that no quest has lives in no file.
pub proof fn law_unknown_quest_lives_nowhere(quests: Seq<book::NamedModel>, id: Seq<char>)
    requires
        forall|i: int| 0 <= i < quests.len() ==> (#[trigger] quests[i]).id != id,
    ensures
        table::lookup(book::homes(quests), id) is None,
    decreases quests.len(),
{
    if quests.len() > 0 {
        let front = quests.drop_last();
        lemma_homes_ordered(front);
        table::lemma_upsert(book::homes(front), quests.last().id, quests.last().filename);
        assert(quests[front.len() as int].id != id);
        law_unknown_quest_lives_nowhere(front, id);
    }
}

proof fn lemma_homes_ordered(quests: Seq<book::NamedModel>)
    ensures
        table::ordered(book::homes(quests)),
    decreases quests.len(),
{
    if quests.len() > 0 {
        lemma_homes_ordered(quests.drop_last());
        table::lemma_upsert(
            book::homes(quests.drop_last()),
            quests.last().id,
            quests.last().filename,
        );
    }
}

/// The type of an entry is what it says, and one that says none has none.
pub proof fn law_type_of_an_entry(n: notation::Node)
    ensures
        import_laws::is_text(n, "type"@, "(не указан)"@, book::entry_kind(n)),
{
}

/// The different elements of a list are as many as its set has.
pub proof fn law_different_elements_are_counted<A>(s: Seq<A>)
    ensures
        book::different(s) == s.to_set().len(),
        s.to_set().finite(),
    decreases s.len(),
{
    if s.len() == 0 {
        assert(s.to_set() =~= Set::empty());
    } else {
        let front = s.drop_last();
        let last = s.last();
        law_different_elements_are_counted(front);
        assert(s.to_set() =~= front.to_set().insert(last)) by {
            assert forall|x: A| s.to_set().contains(x) <==> front.to_set().insert(last).contains(
                x,
            ) by {
                if s.contains(x) {
                    let i = choose|i: int| 0 <= i < s.len() && s[i] == x;
                    if i < front.len() {
                        assert(front[i] == x);
                    }
                }
                if front.contains(x) {
                    let i = choose|i: int| 0 <= i < front.len() && front[i] == x;
                    assert(s[i] == x);
                }
                if x == last {
                    assert(s[s.len() - 1] == x);
                }
            }
        }
        assert(front.contains(last) == front.to_set().contains(last));
    }
}

proof fn lemma_broken_made(
    list: Seq<(Seq<char>, Seq<char>)>,
    homes: Seq<(Seq<char>, Seq<char>)>,
)
    ensures
        book::broken_links(list, homes) == picks::made(
            list,
            |link: (Seq<char>, Seq<char>)|
                if table::lookup(homes, link.1) is None {
                    Some(
                        book::BrokenModel {
                            chapter: match table::lookup(homes, link.0) {
                                Some(chapter) => chapter,
                                None => "?"@,
                            },
                            quest_id: link.0,
                            missing_quest_id: link.1,
                        },
                    )
                } else {
                    None
                },
        ),
        book::crossing_links(list, homes) == picks::made(
            list,
            |link: (Seq<char>, Seq<char>)|
                if book::is_crossing(link, homes) {
                    Some(link)
                } else {
                    None
                },
        ).len(),
    decreases list.len(),
{
    if list.len() > 0 {
        lemma_broken_made(list.drop_last(), homes);
    }
}

/// A dependency is broken where what it names lives nowhere; it is told with the file of the quest
/// that has it. Each one is told, in their order.
pub proof fn law_broken_dependencies_are_told(
    list: Seq<(Seq<char>, Seq<char>)>,
    homes: Seq<(Seq<char>, Seq<char>)>,
) -> (places: Seq<int>)
    ensures
        picks::picks(
            list,
            |link: (Seq<char>, Seq<char>)| table::lookup(homes, link.1) is None,
            places,
        ),
        book::broken_links(list, homes).len() == places.len(),
        forall|j: int|
            #![trigger places[j]]
            0 <= j < places.len() ==> {
                let r = book::broken_links(list, homes)[j];
                &&& r.quest_id == list[places[j]].0
                &&& r.missing_quest_id == list[places[j]].1
                &&& table::lookup(homes, r.quest_id) matches Some(chapter) ==> r.chapter == chapter
                &&& table::lookup(homes, r.quest_id) is None ==> r.chapter == "?"@
            },
{
    let f = |link: (Seq<char>, Seq<char>)|
        if table::lookup(homes, link.1) is None {
            Some(
                book::BrokenModel {
                    chapter: match table::lookup(homes, link.0) {
                        Some(chapter) => chapter,
                        None => "?"@,
                    },
                    quest_id: link.0,
                    missing_quest_id: link.1,
                },
            )
        } else {
            None
        };
    lemma_broken_made(list, homes);
    let places = picks::lemma_made(list, f);
    picks::lemma_same_wish(
        list,
        |link: (Seq<char>, Seq<char>)| f(link) is Some,
        |link: (Seq<char>, Seq<char>)| table::lookup(homes, link.1) is None,
        places,
    );
    assert forall|j: int|
        #![trigger places[j]]
        0 <= j < places.len() implies f(list[places[j]]) == Some(
        book::broken_links(list, homes)[j],
    ) by {
        assert(f(list[places[j]]) == Some(picks::made(list, f)[j]));
    }
    places
}

/// A dependency goes from one chapter to another where both of its quests live in files, and in
/// different ones; each one counts.
pub proof fn law_crossing_dependencies_are_counted(
    list: Seq<(Seq<char>, Seq<char>)>,
    homes: Seq<(Seq<char>, Seq<char>)>,
) -> (places: Seq<int>)
    ensures
        picks::picks(
            list,
            |link: (Seq<char>, Seq<char>)|
                table::lookup(homes, link.0) is Some && table::lookup(homes, link.1) is Some
                    && table::lookup(homes, link.0) != table::lookup(homes, link.1),
            places,
        ),
        book::crossing_links(list, homes) == places.len(),
{
    let f = |link: (Seq<char>, Seq<char>)|
        if book::is_crossing(link, homes) {
            Some(link)
        } else {
            None
        };
    lemma_broken_made(list, homes);
    let places = picks::lemma_made(list, f);
    picks::lemma_same_wish(
        list,
        |link: (Seq<char>, Seq<char>)| f(link) is Some,
        |link: (Seq<char>, Seq<char>)|
            table::lookup(homes, link.0) is Some && table::lookup(homes, link.1) is Some
                && table::lookup(homes, link.0) != table::lookup(homes, link.1),
        places,
    );
    places
}

/// The entries of reward tables add up, and so do the bytes of files and of texts: a character
/// takes as many bytes as its number needs.
pub proof fn law_tables_and_bytes_add_up(
    tables: Seq<(Option<Seq<char>>, notation::Node)>,
    one: (Option<Seq<char>>, notation::Node),
    files: Seq<book::SourceModel>,
    file: book::SourceModel,
    s: Seq<char>,
    c: char,
)
    ensures
        book::table_entries(Seq::empty()) == 0,
        book::table_entries(tables.push(one)) == book::table_entries(tables) + import_laws::listed(
            one.1,
            "rewards"@,
        ).len(),
        book::files_bytes(Seq::empty()) == 0,
        file.contents matches Ok(contents) ==> book::files_bytes(files.push(file))
            == book::files_bytes(files) + book::text_bytes(contents),
        book::text_bytes(Seq::empty()) == 0,
        c as int <= 0x7f ==> book::text_bytes(s.push(c)) == book::text_bytes(s) + 1,
        0x80 <= c as int <= 0x7ff ==> book::text_bytes(s.push(c)) == book::text_bytes(s) + 2,
        0x800 <= c as int <= 0xffff ==> book::text_bytes(s.push(c)) == book::text_bytes(s) + 3,
        0x10000 <= c as int ==> book::text_bytes(s.push(c)) == book::text_bytes(s) + 4,
{
    assert(tables.push(one).drop_last() =~= tables);
    assert(files.push(file).drop_last() =~= files);
    assert(s.push(c).drop_last() =~= s);
}

// ---------------------------------------------------------------------------
// Files that cannot be read
// ---------------------------------------------------------------------------

/// A file is in order where it can be read, holds a document, and that is a compound; the flaw says
/// which of these fails.
pub proof fn law_flaw_of_a_file(file: book::SourceModel)
    ensures
        match book::flaw(file) {
            None => file.contents matches Ok(s) && (notation::document(s) matches Ok(n) && n
                is Compound),
            Some(book::Flaw::Io(place, message)) => place == file.path && file.contents == Err::<
                Seq<char>,
                Seq<char>,
            >(message),
            Some(book::Flaw::Parse(place, s, fault)) => place == file.path && file.contents == Ok::<
                Seq<char>,
                Seq<char>,
            >(s) && notation::document(s) == Err::<notation::Node, notation::Fault>(fault),
            Some(book::Flaw::InvalidRoot(place)) => place == file.path && (
            file.contents matches Ok(s) && (notation::document(s) matches Ok(n) && !(n
                is Compound))),
        },
{
}

/// Of several files the first one that is not in order is told, and none where all are.
pub proof fn law_first_flaw_is_told(files: Seq<book::SourceModel>)
    ensures
        match book::first_flaw(files) {
            None => forall|i: int|
                0 <= i < files.len() ==> book::flaw(#[trigger] files[i]) is None,
            Some(what) => exists|i: int|
                #![trigger files[i]]
                0 <= i < files.len() && book::flaw(files[i]) == Some(what) && forall|j: int|
                    0 <= j < i ==> book::flaw(#[trigger] files[j]) is None,
        },
    decreases files.len(),
{
    if files.len() > 0 {
        let front = files.drop_last();
        law_first_flaw_is_told(front);
        let n = files.len() - 1;
        assert(files[n] == files.last());
        match book::first_flaw(front) {
            Some(what) => {
                let i = choose|i: int|
                    #![trigger front[i]]
                    0 <= i < front.len() && book::flaw(front[i]) == Some(what) && forall|j: int|
                        0 <= j < i ==> book::flaw(#[trigger] front[j]) is None;
                assert(files[i] == front[i]);
                assert forall|j: int| 0 <= j < i implies book::flaw(#[trigger] files[j]) is None by {
                    assert(files[j] == front[j]);
                }
            },
            None => {
                assert forall|j: int| 0 <= j < n implies book::flaw(#[trigger] files[j]) is None by {
                    assert(files[j] == front[j]);
                }
            },
        }
    }
}

/// Of the chapters of a book the first one that cannot be read is told, and none where all can.
pub proof fn law_first_unread_chapter_is_told(files: Seq<book::SourceModel>)
    ensures
        match opening::files_fault(files) {
            None => forall|i: int|
                #![trigger files[i]]
                0 <= i < files.len() ==> (files[i].contents matches Ok(s) && notation::document(s)
                    is Ok),
            Some(fault) => exists|i: int|
                #![trigger files[i]]
                0 <= i < files.len() && opening::file_fault(files[i]) == Some(fault) && forall|
                    j: int,
                |
                    #![trigger files[j]]
                    0 <= j < i ==> (files[j].contents matches Ok(s) && notation::document(s) is Ok),
        },
    decreases files.len(),
{
    if files.len() > 0 {
        let front = files.drop_last();
        law_first_unread_chapter_is_told(front);
        let n = files.len() - 1;
        assert(files[n] == files.last());
        assert forall|j: int| 0 <= j < n implies #[trigger] files[j] == front[j] by {}
        match opening::files_fault(front) {
            Some(fault) => {
                let i = choose|i: int|
                    #![trigger front[i]]
                    0 <= i < front.len() && opening::file_fault(front[i]) == Some(fault) && forall|
                        j: int,
                    |
                        #![trigger front[j]]
                        0 <= j < i ==> (front[j].contents matches Ok(s) && notation::document(s)
                            is Ok);
                assert(files[i] == front[i]);
            },
            None => {},
        }
    }
}

/// A fault of a file says what is wrong with it: that it cannot be read, or where its text is not
/// as it should be.
pub proof fn law_fault_of_a_file(file: book::SourceModel)
    ensures
        match opening::file_fault(file) {
            None => file.contents matches Ok(s) && notation::document(s) is Ok,
            Some(opening::FaultModel::Io(message)) => file.contents == Err::<Seq<char>, Seq<char>>(
                message,
            ),
            Some(opening::FaultModel::Parse(place, s, fault)) => place == file.path
                && file.contents == Ok::<Seq<char>, Seq<char>>(s) && notation::document(s) == Err::<
                notation::Node,
                notation::Fault,
            >(fault),
        },
{
}

/// A book can be opened where its data, its groups if it has any, its kept files, its languages and
/// its chapters can all be read, and only there.
pub proof fn law_book_can_be_opened(files: opening::FilesModel)
    ensures
        opening::first_fault(files) is None <==> {
            &&& opening::file_fault(files.data) is None
            &&& files.groups matches Some(groups) ==> opening::file_fault(groups) is None
            &&& files.preserved_files is Ok
            &&& crate::languages::language_fault(files.languages) is None
            &&& files.language_failure is None
            &&& files.chapters matches Ok(chapters) && opening::files_fault(chapters) is None
        },
        opening::first_fault(files) is None ==> {
            let parts = opening::parts_in(files);
            &&& parts.source_name == files.source_name
            &&& parts.root == files.root
            &&& notation::document(files.data.contents->Ok_0) == Ok::<
                notation::Node,
                notation::Fault,
            >(parts.data)
            &&& (files.groups is Some) == (parts.groups is Some)
            &&& files.groups matches Some(groups) ==> notation::document(groups.contents->Ok_0)
                == Ok::<notation::Node, notation::Fault>(parts.groups->0)
            &&& files.preserved_files == Ok::<Seq<editor::FileModel>, Seq<char>>(
                parts.preserved_files,
            )
            &&& parts.chapters.len() == files.chapters->Ok_0.len()
        },
{
    if opening::first_fault(files) is None {
        law_fault_of_a_file(files.data);
        if let Some(groups) = files.groups {
            law_fault_of_a_file(groups);
        }
    }
}

proof fn lemma_ending_made(places: Seq<Seq<path::PartModel>>, ending: Seq<char>)
    ensures
        opening::with_ending(places, ending) == picks::made(
            places,
            |p: Seq<path::PartModel>|
                if opening::has_ending(p, ending) {
                    Some(p)
                } else {
                    None
                },
        ),
    decreases places.len(),
{
    if places.len() > 0 {
        lemma_ending_made(places.drop_last(), ending);
    }
}

/// Of the files in a folder those are taken whose names are more than the ending and end in it, all
/// of them and each as often as it is there.
pub proof fn law_files_with_an_ending(all: Seq<Seq<path::PartModel>>, ending: Seq<char>) -> (places:
    Seq<int>)
    ensures
        picks::picks(
            all,
            |p: Seq<path::PartModel>|
                p.len() > 0 && (p.last() matches path::PartModel::Name(name) && exists|
                    stem: Seq<char>,
                |
                    stem.len() > 0 && name == #[trigger] (stem + ending)),
            places,
        ),
        opening::with_ending(all, ending) == Seq::new(places.len(), |j: int| all[places[j]]),
{
    let f = |p: Seq<path::PartModel>|
        if opening::has_ending(p, ending) {
            Some(p)
        } else {
            None
        };
    let wish = |p: Seq<path::PartModel>|
        p.len() > 0 && (p.last() matches path::PartModel::Name(name) && exists|stem: Seq<char>|
            stem.len() > 0 && name == #[trigger] (stem + ending));
    lemma_ending_made(all, ending);
    let places = picks::lemma_made(all, f);
    assert forall|i: int| 0 <= i < all.len() implies (f(#[trigger] all[i]) is Some) == wish(
        all[i],
    ) by {
        let p = all[i];
        if opening::has_ending(p, ending) {
            let name = path::last_name(p)->0;
            let stem = name.take(name.len() - ending.len());
            assert(name =~= stem + name.subrange(name.len() - ending.len(), name.len() as int));
            assert(name == stem + ending);
        }
        if wish(p) {
            let name = path::last_name(p)->0;
            let stem = choose|stem: Seq<char>|
                stem.len() > 0 && name == #[trigger] (stem + ending);
            assert(name.subrange(name.len() - ending.len(), name.len() as int) =~= ending);
        }
    }
    picks::lemma_same_wish(all, |p: Seq<path::PartModel>| f(p) is Some, wish, places);
    assert forall|j: int| 0 <= j < places.len() implies all[#[trigger] places[j]]
        == opening::with_ending(all, ending)[j] by {
        assert(f(all[places[j]]) == Some(picks::made(all, f)[j]));
    }
    assert(opening::with_ending(all, ending) =~= Seq::new(
        places.len(),
        |j: int| all[places[j]],
    ));
    places
}

// ---------------------------------------------------------------------------
// Dependencies
// ---------------------------------------------------------------------------

/// The quests of a book are those of its chapters, one behind the other.
pub proof fn law_quests_of_a_book(
    a: Seq<quest::ChapterModel>,
    chapter: quest::ChapterModel,
)
    ensures
        diagnostics::quests_of(Seq::empty()).len() == 0,
        diagnostics::quests_of(a.push(chapter)) == diagnostics::quests_of(a) + chapter.quests,
{
    assert(a.push(chapter).drop_last() =~= a);
}

proof fn lemma_table_ordered(quests: Seq<quest::QuestModel>)
    ensures
        table::ordered(diagnostics::dependency_table(quests)),
    decreases quests.len(),
{
    if quests.len() > 0 {
        lemma_table_ordered(quests.drop_last());
        table::lemma_upsert(
            diagnostics::dependency_table(quests.drop_last()),
            quests.last().id,
            quests.last().dependencies,
        );
    }
}

/// A quest depends on all that it says it depends on; of quests with one id the last one counts.
pub proof fn law_quest_depends_on_what_it_says(quests: Seq<quest::QuestModel>, i: int)
    requires
        0 <= i < quests.len(),
        forall|j: int| i < j < quests.len() ==> (#[trigger] quests[j]).id != quests[i].id,
    ensures
        table::lookup(diagnostics::dependency_table(quests), quests[i].id) == Some(
            quests[i].dependencies,
        ),
    decreases quests.len(),
{
    let front = quests.drop_last();
    lemma_table_ordered(front);
    table::lemma_upsert(
        diagnostics::dependency_table(front),
        quests.last().id,
        quests.last().dependencies,
    );
    if i < front.len() {
        assert(quests[front.len() as int].id != quests[i].id);
        law_quest_depends_on_what_it_says(front, i);
    }
}

/// What is no quest depends on nothing and nothing leads to it.
pub proof fn law_unknown_quest_is_in_no_chain(quests: Seq<quest::QuestModel>, id: Seq<char>)
    requires
        forall|i: int| 0 <= i < quests.len() ==> (#[trigger] quests[i]).id != id,
    ensures
        !table::has_key(diagnostics::dependency_table(quests), id),
    decreases quests.len(),
{
    table::lemma_lookup_some(diagnostics::dependency_table(quests), id);
    if quests.len() > 0 {
        let front = quests.drop_last();
        lemma_table_ordered(front);
        table::lemma_upsert(
            diagnostics::dependency_table(front),
            quests.last().id,
            quests.last().dependencies,
        );
        assert(quests[front.len() as int].id != id);
        law_unknown_quest_is_in_no_chain(front, id);
        table::lemma_lookup_some(diagnostics::dependency_table(front), id);
    }
}

proof fn lemma_missing_made(
    quests: Seq<quest::QuestModel>,
    id: Seq<char>,
    dependencies: Seq<Seq<char>>,
)
    ensures
        diagnostics::missing_of(quests, id, dependencies) == picks::made(
            dependencies,
            |d: Seq<char>|
                if diagnostics::is_known(quests, d) {
                    None
                } else {
                    Some((id, d))
                },
        ),
    decreases dependencies.len(),
{
    if dependencies.len() > 0 {
        lemma_missing_made(quests, id, dependencies.drop_last());
    }
}

/// Each dependency of a quest that names no quest is told, as often as it is there.
pub proof fn law_each_broken_dependency_is_told(
    quests: Seq<quest::QuestModel>,
    id: Seq<char>,
    dependencies: Seq<Seq<char>>,
) -> (places: Seq<int>)
    ensures
        picks::picks(
            dependencies,
            |d: Seq<char>|
                forall|i: int| 0 <= i < quests.len() ==> (#[trigger] quests[i]).id != d,
            places,
        ),
        diagnostics::missing_of(quests, id, dependencies) == Seq::new(
            places.len(),
            |j: int| (id, dependencies[places[j]]),
        ),
{
    let f = |d: Seq<char>|
        if diagnostics::is_known(quests, d) {
            None
        } else {
            Some((id, d))
        };
    lemma_missing_made(quests, id, dependencies);
    let places = picks::lemma_made(dependencies, f);
    picks::lemma_same_wish(
        dependencies,
        |d: Seq<char>| f(d) is Some,
        |d: Seq<char>| forall|i: int| 0 <= i < quests.len() ==> (#[trigger] quests[i]).id != d,
        places,
    );
    let all = diagnostics::missing_of(quests, id, dependencies);
    assert forall|j: int| 0 <= j < places.len() implies all[j] == (
        id,
        dependencies[#[trigger] places[j]],
    ) by {
        assert(f(dependencies[places[j]]) == Some(picks::made(dependencies, f)[j]));
    }
    assert(all =~= Seq::new(places.len(), |j: int| (id, dependencies[places[j]])));
    places
}

/// Of two different texts one goes before the other.
pub proof fn lemma_two_texts(a: Seq<char>, b: Seq<char>)
    ensures
        text::precedes(a, b) ==> !text::precedes(b, a) && a != b,
        !text::precedes(a, b) && !text::precedes(b, a) ==> a == b,
{
    text::lemma_precedes_total(a, b);
    text::lemma_precedes_irreflexive(a);
    if text::precedes(a, b) {
        text::lemma_precedes_asymmetric(a, b);
    }
}

/// The order of texts leads from the first to the last of three.
pub proof fn lemma_three_texts(a: Seq<char>, b: Seq<char>, c: Seq<char>)
    ensures
        text::precedes(a, b) ==> !text::precedes(b, a) && a != b,
        text::precedes(b, c) ==> !text::precedes(c, b) && b != c,
        text::precedes(a, c) ==> !text::precedes(c, a) && a != c,
        !text::precedes(a, b) && !text::precedes(b, a) ==> a == b,
        !text::precedes(b, c) && !text::precedes(c, b) ==> b == c,
        text::precedes(a, b) && text::precedes(b, c) ==> text::precedes(a, c),
{
    lemma_two_texts(a, b);
    lemma_two_texts(b, c);
    lemma_two_texts(a, c);
    if text::precedes(a, b) && text::precedes(b, c) {
        text::lemma_precedes_transitive(a, b, c);
    }
}

/// Broken dependencies are told in the order of the quests' ids, and those of one quest in the
/// order of the ids that they name; none is lost and none is added.
pub proof fn law_broken_dependencies_are_in_order(
    quests: Seq<quest::QuestModel>,
    first: Seq<quest::QuestModel>,
    q: quest::QuestModel,
)
    ensures
        ({
            let all = diagnostics::sorted_missing(quests);
            &&& all.to_multiset() == diagnostics::missing(quests, quests).to_multiset()
            &&& forall|i: int, j: int|
                0 <= i < j < all.len() ==> !text::precedes(
                    (#[trigger] all[j]).0,
                    (#[trigger] all[i]).0,
                )
            &&& forall|i: int, j: int|
                0 <= i < j < all.len() && (#[trigger] all[i]).0 == (#[trigger] all[j]).0
                    ==> !text::precedes(all[j].1, all[i].1)
        }),
        diagnostics::missing(quests, Seq::empty()).len() == 0,
        diagnostics::missing(quests, first.push(q)) == diagnostics::missing(quests, first)
            + diagnostics::missing_of(quests, q.id, q.dependencies),
{
    assert(first.push(q).drop_last() =~= first);
    let s = diagnostics::missing(quests, quests);
    let before = order::ranking::<diagnostics::BrokenDependency>();
    let all = diagnostics::sorted_missing(quests);
    order::lemma_sorted_keeps(s, before);
    assert(order::is_ranking(before)) by {
        assert forall|a: (Seq<char>, Seq<char>), b: (Seq<char>, Seq<char>)| #[trigger]
            before(a, b) implies !before(b, a) by {
            lemma_two_texts(a.0, b.0);
            lemma_two_texts(a.1, b.1);
        }
        assert forall|
            a: (Seq<char>, Seq<char>),
            b: (Seq<char>, Seq<char>),
            c: (Seq<char>, Seq<char>),
        |
            !(#[trigger] before(b, a)) && !(#[trigger] before(c, b)) implies !before(c, a) by {
            lemma_three_texts(a.0, b.0, c.0);
            lemma_three_texts(a.1, b.1, c.1);
        }
    }
    order::lemma_sorted_in_order(s, before);
    assert forall|i: int, j: int| 0 <= i < j < all.len() implies !text::precedes(
        (#[trigger] all[j]).0,
        (#[trigger] all[i]).0,
    ) by {
        assert(!before(all[j], all[i]));
    }
    assert forall|i: int, j: int|
        0 <= i < j < all.len() && (#[trigger] all[i]).0 == (#[trigger] all[j]).0 implies !text::precedes(
        all[j].1,
        all[i].1,
    ) by {
        assert(!before(all[j], all[i]));
    }
}

// ---------------------------------------------------------------------------
// Labels, choices and captions
// ---------------------------------------------------------------------------

/// A quest is named by its title as it is shown and its id; one that is not there by its id.
pub proof fn law_quest_is_labelled(bk: editor::BookModel, id: Seq<char>)
    ensures
        match labels::quest_place(bk.chapters, id, 0) {
            Some((c, i)) => labels::label_of(bk, id) == translation::shown(
                bk.translations,
                bk.chapters[c].quests[i].title,
            ) + " ["@ + id + "]"@,
            None => labels::label_of(bk, id) == "["@ + id + "]"@,
        },
{
}

/// A short route is shown in full; of a long one the first five and the last five points are, with
/// a mark between them.
pub proof fn law_long_routes_are_shortened(route: Seq<Seq<char>>)
    ensures
        route.len() <= 10 ==> labels::route_text(route) == compose::joined(route, " → "@),
        route.len() > 10 ==> labels::route_text(route) == compose::joined(
            route.take(5) + seq!["…"@] + route.skip(route.len() - 5),
            " → "@,
        ),
{
    if route.len() > 10 {
        assert(route.take(5).push("…"@) =~= route.take(5) + seq!["…"@]);
    }
}

proof fn lemma_candidates_made(
    catalog: translation::CatalogModel,
    quests: Seq<quest::QuestModel>,
    q: quest::QuestModel,
)
    ensures
        choices::candidates_of(catalog, quests, q) == picks::made(
            quests,
            |other: quest::QuestModel|
                if other.id == q.id {
                    None
                } else {
                    Some(
                        choices::CandidateModel {
                            id: other.id,
                            label: labels::candidate_label(catalog, other),
                            title: other.title,
                            required: q.dependencies.contains(other.id),
                        },
                    )
                },
        ),
    decreases quests.len(),
{
    if quests.len() > 0 {
        lemma_candidates_made(catalog, quests.drop_last(), q);
    }
}

/// A quest may depend on every other quest of its chapter: each is offered, in their order, and
/// marked where the quest depends on it already.
pub proof fn law_other_quests_are_offered(
    catalog: translation::CatalogModel,
    quests: Seq<quest::QuestModel>,
    q: quest::QuestModel,
) -> (places: Seq<int>)
    ensures
        picks::picks(quests, |other: quest::QuestModel| other.id != q.id, places),
        choices::candidates_of(catalog, quests, q).len() == places.len(),
        forall|j: int|
            #![trigger places[j]]
            0 <= j < places.len() ==> {
                let r = choices::candidates_of(catalog, quests, q)[j];
                &&& r.id == quests[places[j]].id
                &&& r.title == quests[places[j]].title
                &&& r.required == q.dependencies.contains(quests[places[j]].id)
                &&& r.label == labels::candidate_label(catalog, quests[places[j]])
            },
{
    let f = |other: quest::QuestModel|
        if other.id == q.id {
            None
        } else {
            Some(
                choices::CandidateModel {
                    id: other.id,
                    label: labels::candidate_label(catalog, other),
                    title: other.title,
                    required: q.dependencies.contains(other.id),
                },
            )
        };
    lemma_candidates_made(catalog, quests, q);
    let places = picks::lemma_made(quests, f);
    picks::lemma_same_wish(
        quests,
        |other: quest::QuestModel| f(other) is Some,
        |other: quest::QuestModel| other.id != q.id,
        places,
    );
    assert forall|j: int|
        #![trigger places[j]]
        0 <= j < places.len() implies f(quests[places[j]]) == Some(
        choices::candidates_of(catalog, quests, q)[j],
    ) by {
        assert(f(quests[places[j]]) == Some(picks::made(quests, f)[j]));
    }
    places
}

/// A candidate goes by its title as it is shown; where its title is a key without a text its id is
/// added.
pub proof fn law_candidates_are_labelled(
    catalog: translation::CatalogModel,
    q: quest::QuestModel,
)
    ensures
        ({
            let shown = translation::shown(catalog, q.title);
            let label = labels::candidate_label(catalog, q);
            &&& shown != q.title || translation::key_of(q.title) is None ==> label == shown
            &&& shown == q.title && translation::key_of(q.title) is Some ==> label == shown + " ["@
                + q.id + "]"@
        }),
{
}

/// The chapters of a group are those that belong to it, all of them, in their order.
pub proof fn law_chapters_of_a_group(
    chapters: Seq<quest::ChapterModel>,
    group: Option<Seq<char>>,
)
    ensures
        picks::picks(
            chapters,
            |c: quest::ChapterModel| c.group == group,
            choices::members_of(chapters, group),
        ),
    decreases chapters.len(),
{
    let wish = |c: quest::ChapterModel| c.group == group;
    let all = choices::members_of(chapters, group);
    if chapters.len() > 0 {
        let front = chapters.drop_last();
        law_chapters_of_a_group(front, group);
        let before = choices::members_of(front, group);
        let n = chapters.len() - 1;
        assert(picks::picks(front, wish, before));
        assert(chapters[n] == chapters.last());
        assert forall|j: int| 0 <= j < all.len() implies 0 <= (#[trigger] all[j]) < chapters.len()
            && wish(chapters[all[j]]) by {
            if j < before.len() {
                assert(all[j] == before[j]);
                assert(wish(front[before[j]]));
            }
        }
        assert forall|j: int, k: int| 0 <= j < k < all.len() implies (#[trigger] all[j]) < (
        #[trigger] all[k]) by {
            assert(all[j] == before[j]);
            if k < before.len() {
                assert(all[k] == before[k]);
            }
        }
        assert forall|i: int| 0 <= i < chapters.len() && wish(#[trigger] chapters[i]) implies all.contains(
            i,
        ) by {
            if i < n {
                assert(wish(front[i]));
                let j = picks::lemma_found(front, wish, before, i);
                assert(all[j] == i);
            } else {
                assert(all[before.len() as int] == n);
            }
        }
    }
}

/// Every group can be chosen, in their order, by its title as it is shown; a chapter is labelled
/// with the first group that it names, or as one without a group.
pub proof fn law_groups_can_be_chosen(
    catalog: translation::CatalogModel,
    groups: Seq<quest::GroupModel>,
    i: int,
)
    requires
        0 <= i < groups.len(),
        forall|k: int| 0 <= k < i ==> (#[trigger] groups[k]).id != groups[i].id,
    ensures
        choices::choices_of(catalog, groups).len() == groups.len(),
        choices::choices_of(catalog, groups)[i].id == groups[i].id,
        choices::choices_of(catalog, groups)[i].title == groups[i].title,
        choices::choices_of(catalog, groups)[i].label == translation::shown(
            catalog,
            groups[i].title,
        ),
        choices::chosen_label(choices::choices_of(catalog, groups), Some(groups[i].id))
            == translation::shown(catalog, groups[i].title),
        choices::chosen_label(choices::choices_of(catalog, groups), None) == "Без группы"@,
{
    let all = choices::choices_of(catalog, groups);
    assert forall|k: int| 0 <= k < i implies (#[trigger] all[k]).id != all[i].id by {
        assert(groups[k].id != groups[i].id);
    }
    lemma_chosen_label(all, i);
    lemma_no_label(all);
}

proof fn lemma_chosen_label(all: Seq<choices::GroupChoiceModel>, i: int)
    requires
        0 <= i < all.len(),
        forall|k: int| 0 <= k < i ==> (#[trigger] all[k]).id != all[i].id,
    ensures
        choices::chosen_label(all, Some(all[i].id)) == all[i].label,
    decreases all.len(),
{
    if i > 0 {
        assert(all[0].id != all[i].id);
        let rest = all.skip(1);
        assert forall|k: int| 0 <= k < i - 1 implies (#[trigger] rest[k]).id != rest[i - 1].id by {
            assert(all[k + 1].id != all[i].id);
        }
        lemma_chosen_label(rest, i - 1);
    }
}

proof fn lemma_no_label(all: Seq<choices::GroupChoiceModel>)
    ensures
        choices::chosen_label(all, None) == "Без группы"@,
    decreases all.len(),
{
    if all.len() > 0 {
        lemma_no_label(all.skip(1));
    }
}

/// The label of a node is the beginning of its title without white space round it, three characters
/// at most, and a question mark where there is no title.
pub proof fn law_node_labels_are_short(title: Seq<char>)
    ensures
        ({
            let shown = text::trimmed(title);
            let r = captions::short_label(title);
            &&& shown.len() == 0 ==> r == "?"@
            &&& 0 < shown.len() <= 3 ==> r == shown
            &&& shown.len() > 3 ==> r == shown.take(3)
        }),
{
}

/// A line of the log begins with minutes and seconds, two digits each at least, and holds its
/// message.
pub proof fn law_log_lines_tell_the_time(entry: session::LogModel)
    ensures
        ({
            let minutes = entry.elapsed as nat / 60;
            let seconds = entry.elapsed as nat % 60;
            &&& minutes >= 10 && seconds >= 10 ==> captions::log_line(entry) == "["@
                + compose::decimal(minutes) + ":"@ + compose::decimal(seconds) + "] "@
                + entry.message
            &&& minutes < 10 && seconds < 10 ==> captions::log_line(entry) == "["@ + ("0"@
                + compose::decimal(minutes)) + ":"@ + ("0"@ + compose::decimal(seconds)) + "] "@
                + entry.message
            &&& minutes >= 10 && seconds < 10 ==> captions::log_line(entry) == "["@
                + compose::decimal(minutes) + ":"@ + ("0"@ + compose::decimal(seconds)) + "] "@
                + entry.message
            &&& minutes < 10 && seconds >= 10 ==> captions::log_line(entry) == "["@ + ("0"@
                + compose::decimal(minutes)) + ":"@ + compose::decimal(seconds) + "] "@
                + entry.message
        }),
{
}

// ---------------------------------------------------------------------------
// Folders
// ---------------------------------------------------------------------------

/// The quests of a project lie in a folder of that name: in the destination itself where it is that
/// folder, and else inside it. The project is what the folder lies in.
pub proof fn law_folders_of_a_project(place: Seq<path::PartModel>, name: Seq<char>)
    ensures
        ({
            let quests = place.push(path::PartModel::Name("quests"@));
            &&& saving::quests_folder(quests) == quests
            &&& saving::project_folder(quests) == place
            &&& saving::quests_folder(saving::project_folder(quests)) == quests || (place.len() > 0
                && place.last() == path::PartModel::Name("quests"@))
        }),
        name != "quests"@ ==> {
            let project = place.push(path::PartModel::Name(name));
            &&& saving::quests_folder(project) == project.push(path::PartModel::Name("quests"@))
            &&& saving::project_folder(project) == project
        },
        path::last_name(saving::quests_folder(place)) == Some("quests"@),
{
    let quests = place.push(path::PartModel::Name("quests"@));
    assert(quests.drop_last() =~= place);
}

/// A name inside a folder leads back to the folder.
pub proof fn law_names_stand_inside_folders(place: Seq<path::PartModel>, name: Seq<char>)
    ensures
        path::folder(path::inside(place, name)) == Some(place),
        path::last_name(path::inside(place, name)) == Some(name),
        path::path_inside(place, seq![path::PartModel::Name(name)]) == path::inside(place, name),
{
    assert(path::inside(place, name).drop_last() =~= place);
    assert(place + seq![path::PartModel::Name(name)] =~= place.push(path::PartModel::Name(name)));
}

/// The edited book goes beside the project, under its name with an ending that tells it apart, and
/// so does its snapshot.
pub proof fn law_edited_book_lies_beside_the_project(
    place: Seq<path::PartModel>,
    name: Seq<char>,
    k: nat,
)
    requires
        name != "quests"@,
        name.len() > 0,
        k > 1,
    ensures
        ({
            let project = path::inside(place, name);
            &&& saving::surrounding(project) == place
            &&& saving::name_or(project, "ftbquests"@) == name
            &&& saving::edited_name(name, 1) == name + "_edited"@
            &&& saving::edited_name(name, k) == name + "_edited_"@ + compose::decimal(k)
            &&& saving::snapshot_folder(project) == path::inside(place, name + "_autosave"@)
        }),
{
    law_names_stand_inside_folders(place, name);
}

// ---------------------------------------------------------------------------
// Snapshots
// ---------------------------------------------------------------------------

/// No two steps fail.
pub open spec fn one_failure(failures: Seq<Option<Seq<char>>>) -> bool {
    forall|i: int, j: int|
        0 <= i < failures.len() && 0 <= j < failures.len() && (#[trigger] failures[i]) is Some && (
        #[trigger] failures[j]) is Some ==> i == j
}

pub open spec fn no_failure(failures: Seq<Option<Seq<char>>>) -> bool {
    forall|i: int| 0 <= i < failures.len() ==> (#[trigger] failures[i]) is None
}

spec fn safe(disk: autosave::Disk, s: SnapshotModel, old: Option<int>, broken: bool) -> bool {
    match s {
        SnapshotModel::LookForTemporary | SnapshotModel::RemoveTemporary | SnapshotModel::Save
        | SnapshotModel::LookForPrevious | SnapshotModel::RemovePrevious => disk.current == old,
        SnapshotModel::LookForCurrent => disk.current == old && disk.previous is None,
        SnapshotModel::KeepCurrent => disk.current == old && old is Some && disk.previous is None,
        SnapshotModel::Publish => disk.current is None && disk.previous == old,
        SnapshotModel::LookForKept(_) => disk.current is None && disk.previous == old && broken,
        SnapshotModel::LookForPublished(_) | SnapshotModel::Restore(_) => disk.current is None
            && disk.previous == old && old is Some && broken,
        SnapshotModel::Finished(None) => true,
        SnapshotModel::Finished(Some(_)) => disk.current == old,
    }
}

proof fn lemma_safe(
    disk: autosave::Disk,
    s: SnapshotModel,
    book: int,
    old: Option<int>,
    failures: Seq<Option<Seq<char>>>,
    rests: Seq<Option<int>>,
    broken: bool,
)
    requires
        safe(disk, s, old, broken),
        rests.len() == failures.len(),
        one_failure(failures),
        broken ==> no_failure(failures),
    ensures
        ({
            let (end, t) = autosave::snapshot_run(disk, s, book, failures, rests);
            t matches SnapshotModel::Finished(Some(_)) ==> end.current == old
        }),
    decreases failures.len(),
{
    if failures.len() > 0 {
        let failure = failures[0];
        let (next, e) = autosave::performed(
            disk,
            autosave::action_at(s),
            book,
            failures.first(),
            rests[0],
        );
        let t = autosave::after(s, e);
        let tail = failures.drop_first();
        assert forall|i: int, j: int|
            0 <= i < tail.len() && 0 <= j < tail.len() && (#[trigger] tail[i]) is Some && (
            #[trigger] tail[j]) is Some implies i == j by {
            assert(tail[i] == failures[i + 1] && tail[j] == failures[j + 1]);
        }
        assert forall|i: int| broken && 0 <= i < tail.len() implies (#[trigger] tail[i]) is None by {
            assert(tail[i] == failures[i + 1]);
        }
        if failure is Some {
            assert forall|i: int| 0 <= i < tail.len() implies (#[trigger] tail[i]) is None by {
                assert(tail[i] == failures[i + 1]);
            }
        }
        lemma_safe(next, t, book, old, tail, rests.drop_first(), broken || failure is Some);
    }
}

/// Where no more than one step of a snapshot fails and the snapshot does not succeed, what stood as
/// the current snapshot stands there again: it is put back where the new one could not take its
/// place.
pub proof fn law_failed_snapshot_is_put_back(
    disk: autosave::Disk,
    book: int,
    failures: Seq<Option<Seq<char>>>,
    rests: Seq<Option<int>>,
)
    requires
        rests.len() == failures.len(),
        one_failure(failures),
    ensures
        ({
            let (end, t) = autosave::snapshot_run(
                disk,
                SnapshotModel::LookForTemporary,
                book,
                failures,
                rests,
            );
            t matches SnapshotModel::Finished(Some(_)) ==> end.current == disk.current
        }),
{
    lemma_safe(
        disk,
        SnapshotModel::LookForTemporary,
        book,
        disk.current,
        failures,
        rests,
        false,
    );
}

proof fn lemma_told(
    disk: autosave::Disk,
    s: SnapshotModel,
    book: int,
    failures: Seq<Option<Seq<char>>>,
    rests: Seq<Option<int>>,
    known: Seq<Seq<char>>,
)
    requires
        rests.len() == failures.len(),
        match s {
            SnapshotModel::LookForKept(e) => known.contains(e),
            SnapshotModel::LookForPublished(e) => known.contains(e),
            SnapshotModel::Restore(e) => known.contains(e),
            SnapshotModel::Finished(Some(e)) => known.contains(e),
            _ => true,
        },
    ensures
        autosave::snapshot_run(disk, s, book, failures, rests).1 matches SnapshotModel::Finished(
            Some(e),
        ) ==> known.contains(e) || failures.contains(Some(e)),
    decreases failures.len(),
{
    if failures.len() > 0 {
        let (next, event) = autosave::performed(
            disk,
            autosave::action_at(s),
            book,
            failures.first(),
            rests[0],
        );
        let t = autosave::after(s, event);
        let tail = failures.drop_first();
        let more = match failures[0] {
            Some(e) => known.push(e),
            None => known,
        };
        assert forall|e: Seq<char>| known.contains(e) implies more.contains(e) by {
            let i = choose|i: int| 0 <= i < known.len() && known[i] == e;
            assert(more[i] == e);
        }
        if let Some(e) = failures[0] {
            assert(more[known.len() as int] == e);
        }
        lemma_told(next, t, book, tail, rests.drop_first(), more);
        if let SnapshotModel::Finished(Some(e)) = autosave::snapshot_run(
            disk,
            s,
            book,
            failures,
            rests,
        ).1 {
            if tail.contains(Some(e)) {
                let i = choose|i: int| 0 <= i < tail.len() && tail[i] == Some(e);
                assert(failures[i + 1] == Some(e));
            }
            if more.contains(e) && !known.contains(e) {
                let i = choose|i: int| 0 <= i < more.len() && more[i] == e;
                if i < known.len() {
                    assert(known[i] == e);
                }
                assert(failures[0] == Some(e));
            }
        }
    }
}

/// What a snapshot tells as its failure is what one of its steps failed with.
pub proof fn law_failure_of_a_snapshot_is_told(
    disk: autosave::Disk,
    book: int,
    failures: Seq<Option<Seq<char>>>,
    rests: Seq<Option<int>>,
)
    requires
        rests.len() == failures.len(),
    ensures
        autosave::snapshot_run(
            disk,
            SnapshotModel::LookForTemporary,
            book,
            failures,
            rests,
        ).1 matches SnapshotModel::Finished(Some(e)) ==> failures.contains(Some(e)),
{
    lemma_told(
        disk,
        SnapshotModel::LookForTemporary,
        book,
        failures,
        rests,
        Seq::empty(),
    );
}

} // verus!
