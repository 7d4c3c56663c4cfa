//! How quests, groups and cycles are named to the reader.

use crate::compose;
use crate::compose::{join, number};
use crate::diagnostics;
use crate::diagnostics::DependencyCycle;
use crate::editor;
use crate::editor::EditableBook;
use crate::order;
use crate::quest;
use crate::quest::{Chapter, Quest};
use crate::text;
use crate::translation;
use crate::translation::TranslationCatalog;
use vstd::prelude::*;

verus! {

// ---------------------------------------------------------------------------
// Where a quest stands
// ---------------------------------------------------------------------------

/// The first quest with an id, from the `i`th on.
pub open spec fn place_in(quests: Seq<quest::QuestModel>, id: Seq<char>, i: int) -> Option<int>
    decreases quests.len() - i,
{
    if i < 0 || i >= quests.len() {
        None
    } else if quests[i].id == id {
        Some(i)
    } else {
        place_in(quests, id, i + 1)
    }
}

/// The first quest with an id, from the chapter `c` on: its chapter, and its place there.
pub open spec fn quest_place(chapters: Seq<quest::ChapterModel>, id: Seq<char>, c: int) -> Option<
    (int, int),
>
    decreases chapters.len() - c,
{
    if c < 0 || c >= chapters.len() {
        None
    } else {
        match place_in(chapters[c].quests, id, 0) {
            Some(i) => Some((c, i)),
            None => quest_place(chapters, id, c + 1),
        }
    }
}

/// The first quest with an id.
pub fn find_quest(quests: &Vec<Quest>, id: &str) -> (r: Option<usize>)
    ensures
        match r {
            Some(i) => i < quests@.len() && quests@[i as int]@.id == id@ && place_in(
                order::views(quests@),
                id@,
                0,
            ) == Some(i as int),
            None => place_in(order::views(quests@), id@, 0) is None,
        },
{
    let ghost all = order::views(quests@);
    let mut i: usize = 0;
    while i < quests.len()
        invariant
            i <= quests@.len(),
            all == order::views(quests@),
            place_in(all, id@, 0) == place_in(all, id@, i as int),
        decreases quests@.len() - i,
    {
        assert(all[i as int] == quests@[i as int]@);
        if text::same(quests[i].id.as_str(), id) {
            return Some(i);
        }
        i += 1;
    }
    None
}

/// The first quest with an id: its chapter, and its place there.
pub fn locate_quest(chapters: &Vec<Chapter>, id: &str) -> (r: Option<(usize, usize)>)
    ensures
        match r {
            Some((c, i)) => {
                &&& c < chapters@.len()
                &&& i < chapters@[c as int].quests@.len()
                &&& chapters@[c as int].quests@[i as int]@.id == id@
                &&& quest_place(order::views(chapters@), id@, 0) == Some((c as int, i as int))
            },
            None => quest_place(order::views(chapters@), id@, 0) is None,
        },
{
    let ghost all = order::views(chapters@);
    let mut c: usize = 0;
    while c < chapters.len()
        invariant
            c <= chapters@.len(),
            all == order::views(chapters@),
            quest_place(all, id@, 0) == quest_place(all, id@, c as int),
        decreases chapters@.len() - c,
    {
        assert(all[c as int] == chapters@[c as int]@);
        match find_quest(&chapters[c].quests, id) {
            Some(i) => {
                return Some((c, i));
            },
            None => {},
        }
        c += 1;
    }
    None
}

// ---------------------------------------------------------------------------
// Names
// ---------------------------------------------------------------------------

/// A title and an id behind it.
pub open spec fn with_id(title: Seq<char>, id: Seq<char>) -> Seq<char> {
    title + " ["@ + id + "]"@
}

/// How a quest is named: its title and its id, or its id alone where there is no such quest.
pub open spec fn label_of(book: editor::BookModel, id: Seq<char>) -> Seq<char> {
    match quest_place(book.chapters, id, 0) {
        Some((c, i)) => with_id(
            translation::shown(book.translations, book.chapters[c].quests[i].title),
            id,
        ),
        None => "["@ + id + "]"@,
    }
}

/// The names of quests.
pub open spec fn labels_of(book: editor::BookModel, ids: Seq<Seq<char>>) -> Seq<Seq<char>> {
    Seq::new(ids.len(), |i: int| label_of(book, ids[i]))
}

impl EditableBook {
    /// How a quest is named.
    pub fn quest_label(&self, quest_id: &str) -> (r: String)
        ensures
            r@ == label_of(self@, quest_id@),
    {
        match locate_quest(&self.chapters, quest_id) {
            Some((c, i)) => {
                let quest = &self.chapters[c].quests[i];
                assert(self@.chapters[c as int].quests[i as int] == quest@);
                let mut r = self.translations.resolve(quest.title.as_str());
                r.append(" [");
                r.append(quest.id.as_str());
                r.append("]");
                r
            },
            None => {
                let mut r = "[".to_owned();
                r.append(quest_id);
                r.append("]");
                r
            },
        }
    }

    /// How quests are named.
    pub fn quest_labels(&self, ids: &Vec<String>) -> (r: Vec<String>)
        ensures
            text::texts(r@) == labels_of(self@, text::texts(ids@)),
    {
        let mut r: Vec<String> = Vec::new();
        let mut i: usize = 0;
        while i < ids.len()
            invariant
                i <= ids@.len(),
                r@.len() == i,
                forall|j: int| 0 <= j < i ==> (#[trigger] r@[j])@ == label_of(self@, ids@[j]@),
            decreases ids@.len() - i,
        {
            r.push(self.quest_label(ids[i].as_str()));
            i += 1;
        }
        assert(text::texts(r@) =~= labels_of(self@, text::texts(ids@)));
        r
    }
}

/// How a quest is named where it can be depended on: its title as it is shown, and its id too
/// where the title is a key without a text.
pub open spec fn candidate_label(
    catalog: translation::CatalogModel,
    quest: quest::QuestModel,
) -> Seq<char> {
    let title = translation::shown(catalog, quest.title);
    if title == quest.title && translation::key_of(quest.title) is Some {
        with_id(title, quest.id)
    } else {
        title
    }
}

/// How a quest is named where it can be depended on.
pub fn dependency_candidate_label(translations: &TranslationCatalog, quest: &Quest) -> (r: String)
    ensures
        r@ == candidate_label(translations@, quest@),
{
    let mut title = translations.resolve(quest.title.as_str());
    if text::same(title.as_str(), quest.title.as_str()) && translations.exact_key(
        quest.title.as_str(),
    ).is_some() {
        title.append(" [");
        title.append(quest.id.as_str());
        title.append("]");
    }
    title
}

/// How a group is named.
pub fn group_display_title(translations: &TranslationCatalog, raw_title: &str) -> (r: String)
    ensures
        r@ == translation::shown(translations@, raw_title@),
{
    translations.resolve(raw_title)
}

// ---------------------------------------------------------------------------
// Cycles
// ---------------------------------------------------------------------------

/// The points of a route that are shown: all of a short one, the first and last five of a long one.
pub open spec fn route_points(labels: Seq<Seq<char>>) -> Seq<Seq<char>> {
    if diagnostics::cycle_length(labels) < 10 {
        labels
    } else {
        labels.take(5).push("…"@) + labels.skip(labels.len() - 5)
    }
}

/// A route as it is shown.
pub open spec fn route_text(labels: Seq<Seq<char>>) -> Seq<char> {
    compose::joined(route_points(labels), " → "@)
}

/// The route of a cycle as it is shown, where the names of its quests are given.
pub fn format_cycle_route(cycle: &DependencyCycle, labels: &Vec<String>) -> (r: String)
    requires
        labels@.len() == cycle@.len(),
    ensures
        r@ == route_text(text::texts(labels@)),
{
    let n: usize = labels.len();
    if cycle.length() < 10 {
        return join(labels, " → ");
    }
    let ghost all = text::texts(labels@);
    let mut points: Vec<String> = Vec::new();
    let mut i: usize = 0;
    while i < 5
        invariant
            i <= 5 <= n == labels@.len(),
            points@.len() == i,
            forall|j: int| 0 <= j < i ==> (#[trigger] points@[j])@ == labels@[j]@,
        decreases 5 - i,
    {
        points.push(labels[i].clone());
        i += 1;
    }
    points.push("…".to_owned());
    let ghost first = text::texts(points@);
    assert(first =~= all.take(5).push("…"@));
    let mut k: usize = n - 5;
    while k < n
        invariant
            5 <= n == labels@.len(),
            n - 5 <= k <= n,
            all == text::texts(labels@),
            first.len() == 6,
            text::texts(points@) == first + all.subrange(n - 5, k as int),
        decreases n - k,
    {
        let ghost before = points@;
        points.push(labels[k].clone());
        proof {
            assert(text::texts(points@) =~= text::texts(before).push(all[k as int]));
            assert(text::texts(points@) =~= first + all.subrange(n - 5, k + 1));
        }
        k += 1;
    }
    proof {
        assert(all.subrange(n - 5, n as int) =~= all.skip(n - 5));
        assert(text::texts(points@) =~= route_points(all));
    }
    join(&points, " → ")
}

/// What is proposed against a cycle.
pub open spec fn suggestion_text(book: editor::BookModel, ids: Seq<Seq<char>>) -> Seq<char> {
    if ids.len() >= 2 {
        "Исправление: удалите одну зависимость в цикле, например "@ + label_of(
            book,
            ids[ids.len() - 2],
        ) + " → "@ + label_of(book, ids[ids.len() - 1]) + "."@
    } else {
        "Исправление: удалите циклическую зависимость."@
    }
}

/// What is said of a cycle.
pub open spec fn cycle_text(
    book: editor::BookModel,
    ids: Seq<Seq<char>>,
    prefix: Seq<char>,
) -> Seq<char> {
    prefix + ", длина пути: "@ + compose::decimal(diagnostics::cycle_length(ids))
        + ". Маршрут: "@ + route_text(labels_of(book, ids)) + ". "@ + suggestion_text(book, ids)
}

/// What is said of a dependency on a quest that is not there.
pub open spec fn broken_text(
    book: editor::BookModel,
    dependency: (Seq<char>, Seq<char>),
) -> Seq<char> {
    "Битая зависимость: "@ + label_of(book, dependency.0)
        + " ссылается на отсутствующий квест "@ + dependency.1
        + ". Исправление: удалите эту зависимость или восстановите квест с данным ID."@
}

impl EditableBook {
    fn suggestion(&self, cycle: &DependencyCycle) -> (r: String)
        ensures
            r@ == suggestion_text(self@, cycle@),
    {
        match cycle.suggested_edge() {
            Some((from, to)) => {
                let mut r = "Исправление: удалите одну зависимость в цикле, например ".to_owned();
                r.append(self.quest_label(from).as_str());
                r.append(" → ");
                r.append(self.quest_label(to).as_str());
                r.append(".");
                r
            },
            None => "Исправление: удалите циклическую зависимость.".to_owned(),
        }
    }

    /// What is said of a cycle.
    pub fn describe_cycle(&self, cycle: &DependencyCycle, prefix: &str) -> (r: String)
        ensures
            r@ == cycle_text(self@, cycle@, prefix@),
    {
        let labels = self.quest_labels(&cycle.quest_ids);
        assert(text::texts(labels@).len() == cycle@.len());
        let mut r = prefix.to_owned();
        r.append(", длина пути: ");
        r.append(number(cycle.length() as u128).as_str());
        r.append(". Маршрут: ");
        r.append(format_cycle_route(cycle, &labels).as_str());
        r.append(". ");
        r.append(self.suggestion(cycle).as_str());
        r
    }

    /// What is said of a dependency on a quest that is not there.
    pub fn describe_broken(&self, dependency: &diagnostics::BrokenDependency) -> (r: String)
        ensures
            r@ == broken_text(self@, dependency@),
    {
        let mut r = "Битая зависимость: ".to_owned();
        r.append(self.quest_label(dependency.quest_id.as_str()).as_str());
        r.append(" ссылается на отсутствующий квест ");
        r.append(dependency.missing_quest_id.as_str());
        r.append(". Исправление: удалите эту зависимость или восстановите квест с данным ID.");
        r
    }
}

} // verus!
