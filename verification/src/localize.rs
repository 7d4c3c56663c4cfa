//! Moving the texts of a whole book into a language.

use crate::editor;
use crate::editor::EditableBook;
use crate::order;
use crate::quest;
use crate::quest::{Chapter, ChapterGroup, Quest, Task};
use crate::text;
use crate::translation;
use crate::translation::{fresh_key, TranslationCatalog};
use vstd::prelude::*;

verus! {

// ---------------------------------------------------------------------------
// Which texts are moved
// ---------------------------------------------------------------------------

/// The text says something, and is no key.
pub open spec fn needs_key(s: Seq<char>) -> bool {
    text::trimmed(s).len() > 0 && translation::key_of(s) is None
}

/// The number of keys that a text needs.
pub open spec fn keys_for(s: Seq<char>) -> nat {
    if needs_key(s) {
        1
    } else {
        0
    }
}

/// The title of a task that can be changed.
pub open spec fn task_title(task: quest::TaskModel) -> Option<Seq<char>> {
    match task {
        quest::TaskModel::Checkmark { title, .. } => Some(title),
        quest::TaskModel::Item { title, .. } => Some(title),
        quest::TaskModel::Kill { title, .. } => Some(title),
        quest::TaskModel::Unsupported { .. } => None,
    }
}

/// The number of keys that a task needs.
pub open spec fn keys_for_task(task: quest::TaskModel) -> nat {
    match task_title(task) {
        Some(title) => keys_for(title),
        None => 0,
    }
}

/// The number of keys that tasks need.
pub open spec fn keys_for_tasks(tasks: Seq<quest::TaskModel>) -> nat
    decreases tasks.len(),
{
    if tasks.len() == 0 {
        0
    } else {
        keys_for_tasks(tasks.drop_last()) + keys_for_task(tasks.last())
    }
}

/// The number of keys that a quest needs.
pub open spec fn keys_for_quest(quest: quest::QuestModel) -> nat {
    keys_for(quest.title) + keys_for(quest.description) + keys_for(quest.settings.subtitle)
        + keys_for_tasks(quest.tasks)
}

/// The number of keys that quests need.
pub open spec fn keys_for_quests(quests: Seq<quest::QuestModel>) -> nat
    decreases quests.len(),
{
    if quests.len() == 0 {
        0
    } else {
        keys_for_quests(quests.drop_last()) + keys_for_quest(quests.last())
    }
}

/// The number of keys that chapters need.
pub open spec fn keys_for_chapters(chapters: Seq<quest::ChapterModel>) -> nat
    decreases chapters.len(),
{
    if chapters.len() == 0 {
        0
    } else {
        keys_for_chapters(chapters.drop_last()) + (keys_for(chapters.last().title)
            + keys_for_quests(chapters.last().quests))
    }
}

/// The number of keys that groups need.
pub open spec fn keys_for_groups(groups: Seq<quest::GroupModel>) -> nat
    decreases groups.len(),
{
    if groups.len() == 0 {
        0
    } else {
        keys_for_groups(groups.drop_last()) + keys_for(groups.last().title)
    }
}

/// The number of keys that a book needs.
pub open spec fn keys_for_book(book: editor::BookModel) -> nat {
    keys_for(book.title) + keys_for_groups(book.groups) + keys_for_chapters(book.chapters)
}

// ---------------------------------------------------------------------------
// What they become
// ---------------------------------------------------------------------------

/// The languages, and how many of the keys have been used.
pub ghost struct Keying {
    pub catalog: translation::CatalogModel,
    pub used: int,
}

/// A text that needs a key gets the next one, and stands in the active language under it.
pub open spec fn keyed(k: Keying, keys: Seq<Seq<char>>, s: Seq<char>) -> (Keying, Seq<char>) {
    if needs_key(s) {
        (
            Keying {
                catalog: translation::with_translation(
                    k.catalog,
                    k.catalog.active_locale,
                    keys[k.used],
                    translation::stored(s),
                ),
                used: k.used + 1,
            },
            translation::in_braces(keys[k.used]),
        )
    } else {
        (k, s)
    }
}

/// The task with another title.
pub open spec fn task_titled(task: quest::TaskModel, name: Seq<char>) -> quest::TaskModel {
    match task {
        quest::TaskModel::Checkmark { id, title, raw } => quest::TaskModel::Checkmark {
            id,
            title: name,
            raw,
        },
        quest::TaskModel::Item { id, title, item, count, raw } => quest::TaskModel::Item {
            id,
            title: name,
            item,
            count,
            raw,
        },
        quest::TaskModel::Kill { id, title, entity, count, raw } => quest::TaskModel::Kill {
            id,
            title: name,
            entity,
            count,
            raw,
        },
        quest::TaskModel::Unsupported { kind, raw } => quest::TaskModel::Unsupported { kind, raw },
    }
}

/// A task whose title gets a key.
pub open spec fn keyed_task(k: Keying, keys: Seq<Seq<char>>, task: quest::TaskModel) -> (
    Keying,
    quest::TaskModel,
) {
    match task_title(task) {
        Some(title) => {
            let (next, name) = keyed(k, keys, title);
            (next, task_titled(task, name))
        },
        None => (k, task),
    }
}

/// Tasks whose titles get keys, one after the other.
pub open spec fn keyed_tasks(k: Keying, keys: Seq<Seq<char>>, tasks: Seq<quest::TaskModel>) -> (
    Keying,
    Seq<quest::TaskModel>,
)
    decreases tasks.len(),
{
    if tasks.len() == 0 {
        (k, Seq::empty())
    } else {
        let (before, front) = keyed_tasks(k, keys, tasks.drop_last());
        let (after, last) = keyed_task(before, keys, tasks.last());
        (after, front.push(last))
    }
}

/// A quest whose texts get keys: title, description, subtitle, then the tasks.
pub open spec fn keyed_quest(k: Keying, keys: Seq<Seq<char>>, quest: quest::QuestModel) -> (
    Keying,
    quest::QuestModel,
) {
    let (k1, title) = keyed(k, keys, quest.title);
    let (k2, description) = keyed(k1, keys, quest.description);
    let (k3, subtitle) = keyed(k2, keys, quest.settings.subtitle);
    let (k4, tasks) = keyed_tasks(k3, keys, quest.tasks);
    (
        k4,
        quest::QuestModel {
            title,
            description,
            settings: quest::SettingsModel { subtitle, ..quest.settings },
            tasks,
            ..quest
        },
    )
}

/// Quests whose texts get keys, one after the other.
pub open spec fn keyed_quests(k: Keying, keys: Seq<Seq<char>>, quests: Seq<quest::QuestModel>) -> (
    Keying,
    Seq<quest::QuestModel>,
)
    decreases quests.len(),
{
    if quests.len() == 0 {
        (k, Seq::empty())
    } else {
        let (before, front) = keyed_quests(k, keys, quests.drop_last());
        let (after, last) = keyed_quest(before, keys, quests.last());
        (after, front.push(last))
    }
}

/// A chapter whose texts get keys: its title, then its quests.
pub open spec fn keyed_chapter(k: Keying, keys: Seq<Seq<char>>, chapter: quest::ChapterModel) -> (
    Keying,
    quest::ChapterModel,
) {
    let (k1, title) = keyed(k, keys, chapter.title);
    let (k2, quests) = keyed_quests(k1, keys, chapter.quests);
    (k2, quest::ChapterModel { title, quests, ..chapter })
}

/// Chapters whose texts get keys, one after the other.
pub open spec fn keyed_chapters(
    k: Keying,
    keys: Seq<Seq<char>>,
    chapters: Seq<quest::ChapterModel>,
) -> (Keying, Seq<quest::ChapterModel>)
    decreases chapters.len(),
{
    if chapters.len() == 0 {
        (k, Seq::empty())
    } else {
        let (before, front) = keyed_chapters(k, keys, chapters.drop_last());
        let (after, last) = keyed_chapter(before, keys, chapters.last());
        (after, front.push(last))
    }
}

/// Groups whose titles get keys, one after the other.
pub open spec fn keyed_groups(k: Keying, keys: Seq<Seq<char>>, groups: Seq<quest::GroupModel>) -> (
    Keying,
    Seq<quest::GroupModel>,
)
    decreases groups.len(),
{
    if groups.len() == 0 {
        (k, Seq::empty())
    } else {
        let (before, front) = keyed_groups(k, keys, groups.drop_last());
        let (after, title) = keyed(before, keys, groups.last().title);
        (after, front.push(quest::GroupModel { title, ..groups.last() }))
    }
}

/// A book whose texts get keys: its title, its groups, then its chapters.
pub open spec fn keyed_book(book: editor::BookModel, keys: Seq<Seq<char>>) -> editor::BookModel {
    let k = Keying { catalog: book.translations, used: 0 };
    let (k1, title) = keyed(k, keys, book.title);
    let (k2, groups) = keyed_groups(k1, keys, book.groups);
    let (k3, chapters) = keyed_chapters(k2, keys, book.chapters);
    editor::BookModel { title, groups, chapters, translations: k3.catalog, ..book }
}

// ---------------------------------------------------------------------------
// What they rest on
// ---------------------------------------------------------------------------

/// Two lists of keys are the same as far as they are used.
pub open spec fn same_keys(a: Seq<Seq<char>>, b: Seq<Seq<char>>, n: int) -> bool {
    forall|i: int| 0 <= i < n ==> #[trigger] a[i] == b[i]
}

proof fn lemma_keyed(k: Keying, a: Seq<Seq<char>>, b: Seq<Seq<char>>, s: Seq<char>)
    requires
        0 <= k.used,
        same_keys(a, b, k.used + keys_for(s)),
    ensures
        keyed(k, a, s) == keyed(k, b, s),
        keyed(k, a, s).0.used == k.used + keys_for(s),
{
    if needs_key(s) {
        assert(a[k.used] == b[k.used]);
    }
}

proof fn lemma_keyed_tasks(
    k: Keying,
    a: Seq<Seq<char>>,
    b: Seq<Seq<char>>,
    tasks: Seq<quest::TaskModel>,
)
    requires
        0 <= k.used,
        same_keys(a, b, k.used + keys_for_tasks(tasks)),
    ensures
        keyed_tasks(k, a, tasks) == keyed_tasks(k, b, tasks),
        keyed_tasks(k, a, tasks).0.used == k.used + keys_for_tasks(tasks),
        keyed_tasks(k, a, tasks).1.len() == tasks.len(),
    decreases tasks.len(),
{
    if tasks.len() > 0 {
        lemma_keyed_tasks(k, a, b, tasks.drop_last());
        let before = keyed_tasks(k, a, tasks.drop_last()).0;
        match task_title(tasks.last()) {
            Some(title) => {
                lemma_keyed(before, a, b, title);
            },
            None => {},
        }
    }
}

proof fn lemma_keyed_quest(
    k: Keying,
    a: Seq<Seq<char>>,
    b: Seq<Seq<char>>,
    quest: quest::QuestModel,
)
    requires
        0 <= k.used,
        same_keys(a, b, k.used + keys_for_quest(quest)),
    ensures
        keyed_quest(k, a, quest) == keyed_quest(k, b, quest),
        keyed_quest(k, a, quest).0.used == k.used + keys_for_quest(quest),
{
    lemma_keyed(k, a, b, quest.title);
    let k1 = keyed(k, a, quest.title).0;
    lemma_keyed(k1, a, b, quest.description);
    let k2 = keyed(k1, a, quest.description).0;
    lemma_keyed(k2, a, b, quest.settings.subtitle);
    let k3 = keyed(k2, a, quest.settings.subtitle).0;
    lemma_keyed_tasks(k3, a, b, quest.tasks);
}

proof fn lemma_keyed_quests(
    k: Keying,
    a: Seq<Seq<char>>,
    b: Seq<Seq<char>>,
    quests: Seq<quest::QuestModel>,
)
    requires
        0 <= k.used,
        same_keys(a, b, k.used + keys_for_quests(quests)),
    ensures
        keyed_quests(k, a, quests) == keyed_quests(k, b, quests),
        keyed_quests(k, a, quests).0.used == k.used + keys_for_quests(quests),
        keyed_quests(k, a, quests).1.len() == quests.len(),
    decreases quests.len(),
{
    if quests.len() > 0 {
        lemma_keyed_quests(k, a, b, quests.drop_last());
        lemma_keyed_quest(keyed_quests(k, a, quests.drop_last()).0, a, b, quests.last());
    }
}

proof fn lemma_keyed_chapter(
    k: Keying,
    a: Seq<Seq<char>>,
    b: Seq<Seq<char>>,
    chapter: quest::ChapterModel,
)
    requires
        0 <= k.used,
        same_keys(a, b, k.used + keys_for(chapter.title) + keys_for_quests(chapter.quests)),
    ensures
        keyed_chapter(k, a, chapter) == keyed_chapter(k, b, chapter),
        keyed_chapter(k, a, chapter).0.used == k.used + keys_for(chapter.title) + keys_for_quests(
            chapter.quests,
        ),
{
    lemma_keyed(k, a, b, chapter.title);
    lemma_keyed_quests(keyed(k, a, chapter.title).0, a, b, chapter.quests);
}

proof fn lemma_keyed_chapters(
    k: Keying,
    a: Seq<Seq<char>>,
    b: Seq<Seq<char>>,
    chapters: Seq<quest::ChapterModel>,
)
    requires
        0 <= k.used,
        same_keys(a, b, k.used + keys_for_chapters(chapters)),
    ensures
        keyed_chapters(k, a, chapters) == keyed_chapters(k, b, chapters),
        keyed_chapters(k, a, chapters).0.used == k.used + keys_for_chapters(chapters),
        keyed_chapters(k, a, chapters).1.len() == chapters.len(),
    decreases chapters.len(),
{
    if chapters.len() > 0 {
        lemma_keyed_chapters(k, a, b, chapters.drop_last());
        lemma_keyed_chapter(keyed_chapters(k, a, chapters.drop_last()).0, a, b, chapters.last());
    }
}

proof fn lemma_keyed_groups(
    k: Keying,
    a: Seq<Seq<char>>,
    b: Seq<Seq<char>>,
    groups: Seq<quest::GroupModel>,
)
    requires
        0 <= k.used,
        same_keys(a, b, k.used + keys_for_groups(groups)),
    ensures
        keyed_groups(k, a, groups) == keyed_groups(k, b, groups),
        keyed_groups(k, a, groups).0.used == k.used + keys_for_groups(groups),
        keyed_groups(k, a, groups).1.len() == groups.len(),
    decreases groups.len(),
{
    if groups.len() > 0 {
        lemma_keyed_groups(k, a, b, groups.drop_last());
        lemma_keyed(keyed_groups(k, a, groups.drop_last()).0, a, b, groups.last().title);
    }
}

// ---------------------------------------------------------------------------
// Doing it
// ---------------------------------------------------------------------------

/// The keys with some more, all of which were made for texts.
pub open spec fn more_keys(a: Seq<Seq<char>>, b: Seq<Seq<char>>, n: nat) -> bool {
    &&& b.len() == a.len() + n
    &&& same_keys(a, b, a.len() as int)
    &&& forall|i: int| a.len() <= i < b.len() ==> translation::is_fresh_key(#[trigger] b[i])
}

/// The state of the languages and the keys.
pub open spec fn state(catalog: TranslationCatalog, keys: Seq<String>) -> Keying {
    Keying { catalog: catalog@, used: keys.len() as int }
}

/// Moves a text into the active language, if it needs a key; the key is added to the ones made
/// before.
pub fn localize_nonempty(catalog: &mut TranslationCatalog, value: &mut String, keys: &mut Vec<String>)
    ensures
        more_keys(text::texts(old(keys)@), text::texts(final(keys)@), keys_for(old(value)@)),
        (state(*final(catalog), final(keys)@), final(value)@) == keyed(
            state(*old(catalog), old(keys)@),
            text::texts(final(keys)@),
            old(value)@,
        ),
{
    if text::is_blank(value.as_str()) || catalog.exact_key(value.as_str()).is_some() {
        return;
    }
    let key = fresh_key();
    let ghost before = keys@;
    keys.push(key.clone());
    proof {
        assert(text::texts(keys@)[before.len() as int] == key@);
        assert forall|i: int| 0 <= i < before.len() implies #[trigger] text::texts(before)[i]
            == text::texts(keys@)[i] by {
            assert(keys@[i] == before[i]);
        }
    }
    catalog.localize_as(value, key);
}

fn key_task(catalog: &mut TranslationCatalog, task: &mut Task, keys: &mut Vec<String>)
    ensures
        more_keys(text::texts(old(keys)@), text::texts(final(keys)@), keys_for_task(old(task)@)),
        (state(*final(catalog), final(keys)@), final(task)@) == keyed_task(
            state(*old(catalog), old(keys)@),
            text::texts(final(keys)@),
            old(task)@,
        ),
{
    match task {
        Task::Checkmark { title, .. } => {
            localize_nonempty(catalog, title, keys);
        },
        Task::Item { title, .. } => {
            localize_nonempty(catalog, title, keys);
        },
        Task::Kill { title, .. } => {
            localize_nonempty(catalog, title, keys);
        },
        Task::Unsupported { .. } => {},
    }
}

proof fn lemma_more_keys(
    a: Seq<Seq<char>>,
    b: Seq<Seq<char>>,
    c: Seq<Seq<char>>,
    m: nat,
    n: nat,
)
    requires
        more_keys(a, b, m),
        more_keys(b, c, n),
    ensures
        more_keys(a, c, m + n),
        same_keys(b, c, b.len() as int),
{
    assert forall|i: int| 0 <= i < a.len() implies #[trigger] a[i] == c[i] by {
        assert(a[i] == b[i]);
        assert(b[i] == c[i]);
    }
    assert forall|i: int| a.len() <= i < c.len() implies translation::is_fresh_key(
        #[trigger] c[i],
    ) by {
        if i < b.len() {
            assert(b[i] == c[i]);
            assert(translation::is_fresh_key(b[i]));
        }
    }
}

fn key_tasks(catalog: &mut TranslationCatalog, tasks: &mut Vec<Task>, keys: &mut Vec<String>)
    ensures
        more_keys(
            text::texts(old(keys)@),
            text::texts(final(keys)@),
            keys_for_tasks(order::views(old(tasks)@)),
        ),
        (state(*final(catalog), final(keys)@), order::views(final(tasks)@)) == keyed_tasks(
            state(*old(catalog), old(keys)@),
            text::texts(final(keys)@),
            order::views(old(tasks)@),
        ),
{
    let ghost start = state(*catalog, keys@);
    let ghost first = text::texts(keys@);
    let ghost all = order::views(tasks@);
    let n: usize = tasks.len();
    let mut i: usize = 0;
    assert(all.take(0) =~= Seq::empty());
    assert(order::views(tasks@).take(0) =~= Seq::empty());
    while i < n
        invariant
            i <= n == tasks@.len() == all.len(),
            start.used == first.len(),
            more_keys(first, text::texts(keys@), keys_for_tasks(all.take(i as int))),
            (state(*catalog, keys@), order::views(tasks@).take(i as int)) == keyed_tasks(
                start,
                text::texts(keys@),
                all.take(i as int),
            ),
            forall|j: int| i <= j < n ==> (#[trigger] tasks@[j])@ == all[j],
        decreases n - i,
    {
        let ghost before = tasks@;
        let ghost drawn = text::texts(keys@);
        let ghost front = all.take(i as int);
        key_task(catalog, &mut tasks[i], keys);
        proof {
            assert(all.take(i + 1).drop_last() =~= front);
            assert(all.take(i + 1).last() == all[i as int]);
            assert(before[i as int]@ == all[i as int]);
            lemma_more_keys(
                first,
                drawn,
                text::texts(keys@),
                keys_for_tasks(front),
                keys_for_task(all[i as int]),
            );
            lemma_keyed_tasks(start, drawn, text::texts(keys@), front);
            assert(order::views(tasks@).take(i + 1) =~= order::views(before).take(i as int).push(
                tasks@[i as int]@,
            ));
        }
        i += 1;
    }
    assert(all.take(i as int) =~= all);
    assert(order::views(tasks@).take(i as int) =~= order::views(tasks@));
}

fn key_quest(catalog: &mut TranslationCatalog, quest: &mut Quest, keys: &mut Vec<String>)
    ensures
        more_keys(text::texts(old(keys)@), text::texts(final(keys)@), keys_for_quest(old(quest)@)),
        (state(*final(catalog), final(keys)@), final(quest)@) == keyed_quest(
            state(*old(catalog), old(keys)@),
            text::texts(final(keys)@),
            old(quest)@,
        ),
{
    let ghost model = quest@;
    let ghost s0 = state(*catalog, keys@);
    let ghost d0 = text::texts(keys@);
    localize_nonempty(catalog, &mut quest.title, keys);
    let ghost d1 = text::texts(keys@);
    let ghost s1 = state(*catalog, keys@);
    localize_nonempty(catalog, &mut quest.description, keys);
    let ghost d2 = text::texts(keys@);
    let ghost s2 = state(*catalog, keys@);
    localize_nonempty(catalog, &mut quest.settings.subtitle, keys);
    let ghost d3 = text::texts(keys@);
    let ghost s3 = state(*catalog, keys@);
    key_tasks(catalog, &mut quest.tasks, keys);
    proof {
        let d4 = text::texts(keys@);
        let n1 = keys_for(model.title);
        let n2 = keys_for(model.description);
        let n3 = keys_for(model.settings.subtitle);
        let n4 = keys_for_tasks(model.tasks);
        lemma_more_keys(d2, d3, d4, n3, n4);
        lemma_more_keys(d1, d2, d4, n2, n3 + n4);
        lemma_more_keys(d0, d1, d4, n1, n2 + (n3 + n4));
        lemma_keyed(s0, d1, d4, model.title);
        lemma_keyed(s1, d2, d4, model.description);
        lemma_keyed(s2, d3, d4, model.settings.subtitle);
    }
}

fn key_quests(catalog: &mut TranslationCatalog, quests: &mut Vec<Quest>, keys: &mut Vec<String>)
    ensures
        more_keys(
            text::texts(old(keys)@),
            text::texts(final(keys)@),
            keys_for_quests(order::views(old(quests)@)),
        ),
        (state(*final(catalog), final(keys)@), order::views(final(quests)@)) == keyed_quests(
            state(*old(catalog), old(keys)@),
            text::texts(final(keys)@),
            order::views(old(quests)@),
        ),
{
    let ghost start = state(*catalog, keys@);
    let ghost first = text::texts(keys@);
    let ghost all = order::views(quests@);
    let n: usize = quests.len();
    let mut i: usize = 0;
    assert(all.take(0) =~= Seq::empty());
    assert(order::views(quests@).take(0) =~= Seq::empty());
    while i < n
        invariant
            i <= n == quests@.len() == all.len(),
            start.used == first.len(),
            more_keys(first, text::texts(keys@), keys_for_quests(all.take(i as int))),
            (state(*catalog, keys@), order::views(quests@).take(i as int)) == keyed_quests(
                start,
                text::texts(keys@),
                all.take(i as int),
            ),
            forall|j: int| i <= j < n ==> (#[trigger] quests@[j])@ == all[j],
        decreases n - i,
    {
        let ghost before = quests@;
        let ghost drawn = text::texts(keys@);
        let ghost front = all.take(i as int);
        key_quest(catalog, &mut quests[i], keys);
        proof {
            assert(all.take(i + 1).drop_last() =~= front);
            assert(all.take(i + 1).last() == all[i as int]);
            assert(before[i as int]@ == all[i as int]);
            lemma_more_keys(
                first,
                drawn,
                text::texts(keys@),
                keys_for_quests(front),
                keys_for_quest(all[i as int]),
            );
            lemma_keyed_quests(start, drawn, text::texts(keys@), front);
            assert(order::views(quests@).take(i + 1) =~= order::views(before).take(i as int).push(
                quests@[i as int]@,
            ));
        }
        i += 1;
    }
    assert(all.take(i as int) =~= all);
    assert(order::views(quests@).take(i as int) =~= order::views(quests@));
}

fn key_chapter(catalog: &mut TranslationCatalog, chapter: &mut Chapter, keys: &mut Vec<String>)
    ensures
        more_keys(
            text::texts(old(keys)@),
            text::texts(final(keys)@),
            keys_for(old(chapter)@.title) + keys_for_quests(old(chapter)@.quests),
        ),
        (state(*final(catalog), final(keys)@), final(chapter)@) == keyed_chapter(
            state(*old(catalog), old(keys)@),
            text::texts(final(keys)@),
            old(chapter)@,
        ),
{
    let ghost model = chapter@;
    let ghost s0 = state(*catalog, keys@);
    let ghost d0 = text::texts(keys@);
    localize_nonempty(catalog, &mut chapter.title, keys);
    let ghost d1 = text::texts(keys@);
    key_quests(catalog, &mut chapter.quests, keys);
    proof {
        let d2 = text::texts(keys@);
        lemma_more_keys(
            d0,
            d1,
            d2,
            keys_for(model.title),
            keys_for_quests(model.quests),
        );
        lemma_keyed(s0, d1, d2, model.title);
    }
}

fn key_chapters(
    catalog: &mut TranslationCatalog,
    chapters: &mut Vec<Chapter>,
    keys: &mut Vec<String>,
)
    ensures
        more_keys(
            text::texts(old(keys)@),
            text::texts(final(keys)@),
            keys_for_chapters(order::views(old(chapters)@)),
        ),
        (state(*final(catalog), final(keys)@), order::views(final(chapters)@)) == keyed_chapters(
            state(*old(catalog), old(keys)@),
            text::texts(final(keys)@),
            order::views(old(chapters)@),
        ),
{
    let ghost start = state(*catalog, keys@);
    let ghost first = text::texts(keys@);
    let ghost all = order::views(chapters@);
    let n: usize = chapters.len();
    let mut i: usize = 0;
    assert(all.take(0) =~= Seq::empty());
    assert(order::views(chapters@).take(0) =~= Seq::empty());
    while i < n
        invariant
            i <= n == chapters@.len() == all.len(),
            start.used == first.len(),
            more_keys(first, text::texts(keys@), keys_for_chapters(all.take(i as int))),
            (state(*catalog, keys@), order::views(chapters@).take(i as int)) == keyed_chapters(
                start,
                text::texts(keys@),
                all.take(i as int),
            ),
            forall|j: int| i <= j < n ==> (#[trigger] chapters@[j])@ == all[j],
        decreases n - i,
    {
        let ghost before = chapters@;
        let ghost drawn = text::texts(keys@);
        let ghost front = all.take(i as int);
        key_chapter(catalog, &mut chapters[i], keys);
        proof {
            let chapter = all[i as int];
            assert(all.take(i + 1).drop_last() =~= front);
            assert(all.take(i + 1).last() == chapter);
            assert(before[i as int]@ == chapter);
            lemma_more_keys(
                first,
                drawn,
                text::texts(keys@),
                keys_for_chapters(front),
                keys_for(chapter.title) + keys_for_quests(chapter.quests),
            );
            lemma_keyed_chapters(start, drawn, text::texts(keys@), front);
            assert(order::views(chapters@).take(i + 1) =~= order::views(before).take(
                i as int,
            ).push(chapters@[i as int]@));
        }
        i += 1;
    }
    assert(all.take(i as int) =~= all);
    assert(order::views(chapters@).take(i as int) =~= order::views(chapters@));
}

fn key_groups(
    catalog: &mut TranslationCatalog,
    groups: &mut Vec<ChapterGroup>,
    keys: &mut Vec<String>,
)
    ensures
        more_keys(
            text::texts(old(keys)@),
            text::texts(final(keys)@),
            keys_for_groups(order::views(old(groups)@)),
        ),
        (state(*final(catalog), final(keys)@), order::views(final(groups)@)) == keyed_groups(
            state(*old(catalog), old(keys)@),
            text::texts(final(keys)@),
            order::views(old(groups)@),
        ),
{
    let ghost start = state(*catalog, keys@);
    let ghost first = text::texts(keys@);
    let ghost all = order::views(groups@);
    let n: usize = groups.len();
    let mut i: usize = 0;
    assert(all.take(0) =~= Seq::empty());
    assert(order::views(groups@).take(0) =~= Seq::empty());
    while i < n
        invariant
            i <= n == groups@.len() == all.len(),
            start.used == first.len(),
            more_keys(first, text::texts(keys@), keys_for_groups(all.take(i as int))),
            (state(*catalog, keys@), order::views(groups@).take(i as int)) == keyed_groups(
                start,
                text::texts(keys@),
                all.take(i as int),
            ),
            forall|j: int| i <= j < n ==> (#[trigger] groups@[j])@ == all[j],
        decreases n - i,
    {
        let ghost before = groups@;
        let ghost drawn = text::texts(keys@);
        let ghost front = all.take(i as int);
        localize_nonempty(catalog, &mut groups[i].title, keys);
        proof {
            let group = all[i as int];
            assert(all.take(i + 1).drop_last() =~= front);
            assert(all.take(i + 1).last() == group);
            assert(before[i as int]@ == group);
            lemma_more_keys(
                first,
                drawn,
                text::texts(keys@),
                keys_for_groups(front),
                keys_for(group.title),
            );
            lemma_keyed_groups(start, drawn, text::texts(keys@), front);
            assert(order::views(groups@).take(i + 1) =~= order::views(before).take(i as int).push(
                groups@[i as int]@,
            ));
        }
        i += 1;
    }
    assert(all.take(i as int) =~= all);
    assert(order::views(groups@).take(i as int) =~= order::views(groups@));
}

impl EditableBook {
    /// Moves the texts of the book into the active language, each under a new key; the keys in the
    /// order in which they were made.
    pub fn localize_texts(&mut self) -> (r: Vec<String>)
        ensures
            r@.len() == keys_for_book(old(self)@),
            forall|i: int| 0 <= i < r@.len() ==> translation::is_fresh_key((#[trigger] r@[i])@),
            final(self)@ == keyed_book(old(self)@, text::texts(r@)),
    {
        let mut keys: Vec<String> = Vec::new();
        let ghost book = self@;
        let ghost s0 = state(self.translations, keys@);
        let ghost d0 = text::texts(keys@);
        localize_nonempty(&mut self.translations, &mut self.title, &mut keys);
        let ghost d1 = text::texts(keys@);
        let ghost s1 = state(self.translations, keys@);
        key_groups(&mut self.translations, &mut self.groups, &mut keys);
        let ghost d2 = text::texts(keys@);
        key_chapters(&mut self.translations, &mut self.chapters, &mut keys);
        proof {
            let d3 = text::texts(keys@);
            let n1 = keys_for(book.title);
            let n2 = keys_for_groups(book.groups);
            let n3 = keys_for_chapters(book.chapters);
            lemma_more_keys(d1, d2, d3, n2, n3);
            lemma_more_keys(d0, d1, d3, n1, n2 + n3);
            lemma_keyed(s0, d1, d3, book.title);
            lemma_keyed_groups(s1, d2, d3, book.groups);
            assert forall|i: int| 0 <= i < keys@.len() implies translation::is_fresh_key(
                (#[trigger] keys@[i])@,
            ) by {
                assert(translation::is_fresh_key(d3[i]));
            }
        }
        keys
    }
}

// ---------------------------------------------------------------------------
// Laws
// ---------------------------------------------------------------------------

proof fn lemma_key_is_done(k: Keying, keys: Seq<Seq<char>>, s: Seq<char>)
    requires
        0 <= k.used,
        forall|i: int| 0 <= i < keys.len() ==> translation::is_fresh_key(#[trigger] keys[i]),
        k.used + keys_for(s) <= keys.len(),
    ensures
        !needs_key(keyed(k, keys, s).1),
        keyed(k, keys, s).0.used == k.used + keys_for(s),
{
    if needs_key(s) {
        assert(translation::is_fresh_key(keys[k.used]));
        translation::lemma_fresh_key_is_a_key(keys[k.used]);
    }
}

proof fn lemma_tasks_are_done(k: Keying, keys: Seq<Seq<char>>, tasks: Seq<quest::TaskModel>)
    requires
        0 <= k.used,
        forall|i: int| 0 <= i < keys.len() ==> translation::is_fresh_key(#[trigger] keys[i]),
        k.used + keys_for_tasks(tasks) <= keys.len(),
    ensures
        keys_for_tasks(keyed_tasks(k, keys, tasks).1) == 0,
        keyed_tasks(k, keys, tasks).0.used == k.used + keys_for_tasks(tasks),
    decreases tasks.len(),
{
    if tasks.len() > 0 {
        lemma_tasks_are_done(k, keys, tasks.drop_last());
        let (before, front) = keyed_tasks(k, keys, tasks.drop_last());
        match task_title(tasks.last()) {
            Some(title) => {
                lemma_key_is_done(before, keys, title);
            },
            None => {},
        }
        let last = keyed_task(before, keys, tasks.last()).1;
        assert(front.push(last).drop_last() =~= front);
    }
}

proof fn lemma_quests_are_done(k: Keying, keys: Seq<Seq<char>>, quests: Seq<quest::QuestModel>)
    requires
        0 <= k.used,
        forall|i: int| 0 <= i < keys.len() ==> translation::is_fresh_key(#[trigger] keys[i]),
        k.used + keys_for_quests(quests) <= keys.len(),
    ensures
        keys_for_quests(keyed_quests(k, keys, quests).1) == 0,
        keyed_quests(k, keys, quests).0.used == k.used + keys_for_quests(quests),
    decreases quests.len(),
{
    if quests.len() > 0 {
        lemma_quests_are_done(k, keys, quests.drop_last());
        let (before, front) = keyed_quests(k, keys, quests.drop_last());
        let quest = quests.last();
        lemma_key_is_done(before, keys, quest.title);
        let k1 = keyed(before, keys, quest.title).0;
        lemma_key_is_done(k1, keys, quest.description);
        let k2 = keyed(k1, keys, quest.description).0;
        lemma_key_is_done(k2, keys, quest.settings.subtitle);
        let k3 = keyed(k2, keys, quest.settings.subtitle).0;
        lemma_tasks_are_done(k3, keys, quest.tasks);
        let last = keyed_quest(before, keys, quest).1;
        assert(front.push(last).drop_last() =~= front);
    }
}

proof fn lemma_chapters_are_done(
    k: Keying,
    keys: Seq<Seq<char>>,
    chapters: Seq<quest::ChapterModel>,
)
    requires
        0 <= k.used,
        forall|i: int| 0 <= i < keys.len() ==> translation::is_fresh_key(#[trigger] keys[i]),
        k.used + keys_for_chapters(chapters) <= keys.len(),
    ensures
        keys_for_chapters(keyed_chapters(k, keys, chapters).1) == 0,
        keyed_chapters(k, keys, chapters).0.used == k.used + keys_for_chapters(chapters),
    decreases chapters.len(),
{
    if chapters.len() > 0 {
        lemma_chapters_are_done(k, keys, chapters.drop_last());
        let (before, front) = keyed_chapters(k, keys, chapters.drop_last());
        let chapter = chapters.last();
        lemma_key_is_done(before, keys, chapter.title);
        lemma_quests_are_done(keyed(before, keys, chapter.title).0, keys, chapter.quests);
        let last = keyed_chapter(before, keys, chapter).1;
        assert(front.push(last).drop_last() =~= front);
    }
}

proof fn lemma_groups_are_done(k: Keying, keys: Seq<Seq<char>>, groups: Seq<quest::GroupModel>)
    requires
        0 <= k.used,
        forall|i: int| 0 <= i < keys.len() ==> translation::is_fresh_key(#[trigger] keys[i]),
        k.used + keys_for_groups(groups) <= keys.len(),
    ensures
        keys_for_groups(keyed_groups(k, keys, groups).1) == 0,
        keyed_groups(k, keys, groups).0.used == k.used + keys_for_groups(groups),
    decreases groups.len(),
{
    if groups.len() > 0 {
        lemma_groups_are_done(k, keys, groups.drop_last());
        let (before, front) = keyed_groups(k, keys, groups.drop_last());
        lemma_key_is_done(before, keys, groups.last().title);
        let (after, title) = keyed(before, keys, groups.last().title);
        let last = quest::GroupModel { title, ..groups.last() };
        assert(front.push(last).drop_last() =~= front);
    }
}

/// After all texts of a book have been moved, none of them needs a key.
pub proof fn law_localized_book_needs_no_keys(book: editor::BookModel, keys: Seq<Seq<char>>)
    requires
        keys.len() == keys_for_book(book),
        forall|i: int| 0 <= i < keys.len() ==> translation::is_fresh_key(#[trigger] keys[i]),
    ensures
        keys_for_book(keyed_book(book, keys)) == 0,
{
    let k = Keying { catalog: book.translations, used: 0 };
    lemma_key_is_done(k, keys, book.title);
    let k1 = keyed(k, keys, book.title).0;
    lemma_groups_are_done(k1, keys, book.groups);
    let k2 = keyed_groups(k1, keys, book.groups).0;
    lemma_chapters_are_done(k2, keys, book.chapters);
}

} // verus!
