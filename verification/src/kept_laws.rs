//! That nothing is dropped from a book that is saved and read again.

use crate::book;
use crate::diagnostics;
use crate::editor;
use crate::editor::Chapter;
use crate::export;
use crate::import;
use crate::languages;
use crate::notation;
use crate::notation_laws;
use crate::opening;
use crate::order;
use crate::path;
use crate::quest;
use crate::saved_entries;
use crate::saved_laws;
use crate::saved_quests;
use crate::saving;
use vstd::prelude::*;

verus! {

// ---------------------------------------------------------------------------
// Entries
// ---------------------------------------------------------------------------

/// What a measure gives of all quests together.
pub open spec fn sum_of(
    quests: Seq<quest::QuestModel>,
    measure: spec_fn(quest::QuestModel) -> nat,
) -> nat
    decreases quests.len(),
{
    if quests.len() == 0 {
        0
    } else {
        sum_of(quests.drop_last(), measure) + measure(quests.last())
    }
}

pub open spec fn task_number() -> spec_fn(quest::QuestModel) -> nat {
    |q: quest::QuestModel| q.tasks.len()
}

pub open spec fn reward_number() -> spec_fn(quest::QuestModel) -> nat {
    |q: quest::QuestModel| q.rewards.len()
}

spec fn kept_task_number() -> spec_fn(quest::QuestModel) -> nat {
    |q: quest::QuestModel| import::kept_tasks(q.tasks)
}

spec fn kept_reward_number() -> spec_fn(quest::QuestModel) -> nat {
    |q: quest::QuestModel| import::kept_rewards(q.rewards)
}

proof fn lemma_kept_is_a_sum(quests: Seq<quest::QuestModel>)
    ensures
        import::kept_tasks_of(quests) == sum_of(quests, kept_task_number()),
        import::kept_rewards_of(quests) == sum_of(quests, kept_reward_number()),
    decreases quests.len(),
{
    if quests.len() > 0 {
        lemma_kept_is_a_sum(quests.drop_last());
    }
}

proof fn lemma_sum_of_both(
    a: Seq<quest::QuestModel>,
    b: Seq<quest::QuestModel>,
    measure: spec_fn(quest::QuestModel) -> nat,
)
    ensures
        sum_of(a + b, measure) == sum_of(a, measure) + sum_of(b, measure),
    decreases b.len(),
{
    if b.len() == 0 {
        assert(a + b =~= a);
    } else {
        assert((a + b).drop_last() =~= a + b.drop_last());
        lemma_sum_of_both(a, b.drop_last(), measure);
    }
}

/// The sum over the quests of chapters, as a sum over the chapters.
proof fn lemma_sum_over_chapters(
    chapters: Seq<quest::ChapterModel>,
    measure: spec_fn(quest::QuestModel) -> nat,
    start: nat,
)
    ensures
        chapters.fold_right(
            |c: quest::ChapterModel, n: nat| n + sum_of(c.quests, measure),
            start,
        ) == start + sum_of(diagnostics::quests_of(chapters), measure),
    decreases chapters.len(),
{
    let with_chapter = |c: quest::ChapterModel, n: nat| n + sum_of(c.quests, measure);
    if chapters.len() > 0 {
        lemma_sum_over_chapters(chapters.drop_last(), measure, with_chapter(chapters.last(), start));
        lemma_sum_of_both(
            diagnostics::quests_of(chapters.drop_last()),
            chapters.last().quests,
            measure,
        );
    }
}

/// The sum does not rest on the order of the chapters.
proof fn lemma_sum_in_any_order(
    a: Seq<quest::ChapterModel>,
    b: Seq<quest::ChapterModel>,
    measure: spec_fn(quest::QuestModel) -> nat,
)
    requires
        a.to_multiset() == b.to_multiset(),
    ensures
        sum_of(diagnostics::quests_of(a), measure) == sum_of(diagnostics::quests_of(b), measure),
{
    let with_chapter = |c: quest::ChapterModel, n: nat| n + sum_of(c.quests, measure);
    lemma_sum_over_chapters(a, measure, 0);
    lemma_sum_over_chapters(b, measure, 0);
    vstd::seq_lib::lemma_fold_right_permutation(a, b, with_chapter, 0nat);
}

proof fn lemma_same_sum(
    a: Seq<quest::QuestModel>,
    b: Seq<quest::QuestModel>,
    measure: spec_fn(quest::QuestModel) -> nat,
)
    requires
        a.len() == b.len(),
        forall|i: int| 0 <= i < a.len() ==> measure(#[trigger] a[i]) == measure(b[i]),
    ensures
        sum_of(a, measure) == sum_of(b, measure),
    decreases a.len(),
{
    if a.len() > 0 {
        assert forall|i: int| 0 <= i < a.drop_last().len() implies measure(
            #[trigger] a.drop_last()[i],
        ) == measure(b.drop_last()[i]) by {
            assert(a.drop_last()[i] == a[i] && b.drop_last()[i] == b[i]);
        }
        lemma_same_sum(a.drop_last(), b.drop_last(), measure);
        assert(measure(a[a.len() - 1]) == measure(b[b.len() - 1]));
    }
}

proof fn lemma_same_sum_over_chapters(
    a: Seq<quest::ChapterModel>,
    b: Seq<quest::ChapterModel>,
    measure: spec_fn(quest::QuestModel) -> nat,
)
    requires
        a.len() == b.len(),
        forall|i: int|
            0 <= i < a.len() ==> sum_of((#[trigger] a[i]).quests, measure) == sum_of(
                b[i].quests,
                measure,
            ),
    ensures
        sum_of(diagnostics::quests_of(a), measure) == sum_of(diagnostics::quests_of(b), measure),
    decreases a.len(),
{
    if a.len() > 0 {
        let x = a.drop_last();
        let y = b.drop_last();
        assert forall|i: int| 0 <= i < x.len() implies sum_of((#[trigger] x[i]).quests, measure)
            == sum_of(y[i].quests, measure) by {
            assert(x[i] == a[i] && y[i] == b[i]);
        }
        lemma_same_sum_over_chapters(x, y, measure);
        lemma_sum_of_both(diagnostics::quests_of(x), a.last().quests, measure);
        lemma_sum_of_both(diagnostics::quests_of(y), b.last().quests, measure);
        assert(sum_of(a[a.len() - 1].quests, measure) == sum_of(b[b.len() - 1].quests, measure));
    }
}

/// Tasks that have settled are kept as often as before.
proof fn lemma_kept_tasks_settle(
    tasks: Seq<quest::TaskModel>,
    settled: Seq<quest::TaskModel>,
    numbers: Seq<(Seq<char>, import::ReadingModel)>,
)
    requires
        settled == Seq::new(
            tasks.len(),
            |i: int| saved_entries::settled_task(tasks[i], numbers),
        ),
    ensures
        import::kept_tasks(settled) == import::kept_tasks(tasks),
    decreases tasks.len(),
{
    if tasks.len() > 0 {
        let front = tasks.drop_last();
        assert(settled.drop_last() =~= Seq::new(
            front.len(),
            |i: int| saved_entries::settled_task(front[i], numbers),
        ));
        lemma_kept_tasks_settle(front, settled.drop_last(), numbers);
    }
}

proof fn lemma_kept_rewards_settle(
    rewards: Seq<quest::RewardModel>,
    settled: Seq<quest::RewardModel>,
    numbers: Seq<(Seq<char>, import::ReadingModel)>,
)
    requires
        settled == Seq::new(
            rewards.len(),
            |i: int| saved_entries::settled_reward(rewards[i], numbers),
        ),
    ensures
        import::kept_rewards(settled) == import::kept_rewards(rewards),
    decreases rewards.len(),
{
    if rewards.len() > 0 {
        let front = rewards.drop_last();
        assert(settled.drop_last() =~= Seq::new(
            front.len(),
            |i: int| saved_entries::settled_reward(front[i], numbers),
        ));
        lemma_kept_rewards_settle(front, settled.drop_last(), numbers);
    }
}

/// Writing and reading a chapter drops no quest, and no task or reward of a quest, neither of
/// those that are edited nor of those that are only kept.
pub proof fn law_saved_chapter_keeps_its_entries(
    c: quest::ChapterModel,
    numbers: Seq<(Seq<char>, import::ReadingModel)>,
)
    requires
        saved_laws::is_storable_chapter(c),
    ensures
        ({
            let r = saved_laws::settled_chapter(c, numbers);
            &&& r.quests.len() == c.quests.len()
            &&& forall|j: int|
                #![trigger r.quests[j]]
                0 <= j < c.quests.len() ==> r.quests[j].id == c.quests[j].id
                    && r.quests[j].tasks.len() == c.quests[j].tasks.len()
                    && r.quests[j].rewards.len() == c.quests[j].rewards.len()
                    && import::kept_tasks(r.quests[j].tasks) == import::kept_tasks(
                    c.quests[j].tasks,
                ) && import::kept_rewards(r.quests[j].rewards) == import::kept_rewards(
                    c.quests[j].rewards,
                )
            &&& import::kept_tasks_of(r.quests) == import::kept_tasks_of(c.quests)
            &&& import::kept_rewards_of(r.quests) == import::kept_rewards_of(c.quests)
            &&& sum_of(r.quests, task_number()) == sum_of(c.quests, task_number())
            &&& sum_of(r.quests, reward_number()) == sum_of(c.quests, reward_number())
        }),
{
    let r = saved_laws::settled_chapter(c, numbers);
    saved_laws::law_saved_chapter_is_read_back(c, None, 0, numbers);
    assert forall|j: int|
        #![trigger r.quests[j]]
        0 <= j < c.quests.len() implies r.quests[j].id == c.quests[j].id && r.quests[j].tasks.len()
        == c.quests[j].tasks.len() && r.quests[j].rewards.len() == c.quests[j].rewards.len()
        && import::kept_tasks(r.quests[j].tasks) == import::kept_tasks(c.quests[j].tasks)
        && import::kept_rewards(r.quests[j].rewards) == import::kept_rewards(
        c.quests[j].rewards,
    ) by {
        assert(r.quests[j] == saved_quests::settled_quest(c.quests[j], numbers));
        lemma_kept_tasks_settle(c.quests[j].tasks, r.quests[j].tasks, numbers);
        lemma_kept_rewards_settle(c.quests[j].rewards, r.quests[j].rewards, numbers);
    }
    lemma_kept_is_a_sum(r.quests);
    lemma_kept_is_a_sum(c.quests);
    lemma_same_sum(r.quests, c.quests, task_number());
    lemma_same_sum(r.quests, c.quests, reward_number());
    lemma_same_sum(r.quests, c.quests, kept_task_number());
    lemma_same_sum(r.quests, c.quests, kept_reward_number());
}

/// Saving a book and reading it again drops nothing: there are as many tasks and rewards as
/// before, as many of them that are only kept, and the same kept files. This holds whatever the
/// indexes of its chapters are, and whatever its numbers are rounded to.
pub proof fn law_saved_book_keeps_its_entries(
    book: editor::BookModel,
    files: Seq<Seq<char>>,
    parts: editor::PartsModel,
    numbers: Seq<(Seq<char>, import::ReadingModel)>,
)
    requires
        saved_laws::is_storable_book(book),
        saved_laws::holds_book(parts, files, book, numbers),
    ensures
        ({
            let r = editor::book_of(parts, numbers);
            let read = diagnostics::quests_of(editor::chapters_in(parts.chapters, numbers));
            let before = diagnostics::quests_of(book.chapters);
            let after = diagnostics::quests_of(r.chapters);
            &&& r.chapters.len() == book.chapters.len()
            &&& r.chapters.to_multiset() == saved_laws::settled_chapters(
                book,
                numbers,
            ).to_multiset()
            &&& sum_of(after, task_number()) == sum_of(before, task_number())
            &&& sum_of(after, reward_number()) == sum_of(before, reward_number())
            &&& import::kept_tasks_of(after) == import::kept_tasks_of(before)
            &&& import::kept_rewards_of(after) == import::kept_rewards_of(before)
            &&& import::kept_tasks_of(read) == import::kept_tasks_of(before)
            &&& import::kept_rewards_of(read) == import::kept_rewards_of(before)
            &&& r.preserved_files.len() == book.preserved_files.len()
            &&& r.preserved_files.to_multiset() == book.preserved_files.to_multiset()
        }),
{
    broadcast use vstd::seq_lib::group_to_multiset_ensures;

    let r = editor::book_of(parts, numbers);
    let chapters = editor::chapters_in(parts.chapters, numbers);
    let all = saved_laws::settled_chapters(book, numbers);
    saved_laws::lemma_chapters_read(book, files, parts, numbers);
    order::lemma_sorted_keeps(chapters, order::ranking::<Chapter>());
    order::lemma_sorted_keeps(parts.preserved_files, order::ranking::<editor::PreservedFile>());
    assert(r.chapters.to_multiset().len() == r.chapters.len());
    assert(all.to_multiset().len() == all.len());
    assert(r.preserved_files.to_multiset().len() == r.preserved_files.len());
    assert(book.preserved_files.to_multiset().len() == book.preserved_files.len());
    lemma_entries_settle(book, numbers, task_number());
    lemma_entries_settle(book, numbers, reward_number());
    lemma_entries_settle(book, numbers, kept_task_number());
    lemma_entries_settle(book, numbers, kept_reward_number());
    lemma_sum_in_any_order(r.chapters, all, task_number());
    lemma_sum_in_any_order(r.chapters, all, reward_number());
    lemma_sum_in_any_order(r.chapters, all, kept_task_number());
    lemma_sum_in_any_order(r.chapters, all, kept_reward_number());
    lemma_sum_in_any_order(chapters, all, kept_task_number());
    lemma_sum_in_any_order(chapters, all, kept_reward_number());
    lemma_kept_is_a_sum(diagnostics::quests_of(book.chapters));
    lemma_kept_is_a_sum(diagnostics::quests_of(r.chapters));
    lemma_kept_is_a_sum(diagnostics::quests_of(chapters));
}

/// A book that was read can be written, where the names of the fields that its chapters and quests
/// only keep can stand without quotes.
pub proof fn law_read_book_is_storable(
    parts: editor::PartsModel,
    numbers: Seq<(Seq<char>, import::ReadingModel)>,
)
    requires
        forall|i: int|
            0 <= i < parts.chapters.len() ==> notation::well_formed(
                (#[trigger] parts.chapters[i]).value,
            ),
        ({
            let chapters = editor::chapters_in(parts.chapters, numbers);
            &&& forall|i: int|
                0 <= i < chapters.len() ==> saved_laws::have_bare_names(
                    (#[trigger] chapters[i]).extra,
                )
            &&& forall|i: int, j: int|
                #![trigger chapters[i].quests[j]]
                0 <= i < chapters.len() && 0 <= j < chapters[i].quests.len()
                    ==> saved_laws::have_bare_names(chapters[i].quests[j].extra)
            &&& editor::all_have_plain_numbers(chapters)
        }),
    ensures
        saved_laws::is_storable_book(editor::book_of(parts, numbers)),
{
    broadcast use vstd::seq_lib::group_to_multiset_ensures;

    let chapters = editor::chapters_in(parts.chapters, numbers);
    let book = editor::book_of(parts, numbers);
    order::lemma_sorted_keeps(chapters, order::ranking::<Chapter>());
    assert forall|i: int| 0 <= i < book.chapters.len() implies saved_laws::is_storable_chapter(
        #[trigger] book.chapters[i],
    ) by {
        assert(book.chapters.contains(book.chapters[i]));
        assert(book.chapters.to_multiset().count(book.chapters[i]) > 0);
        assert(chapters.contains(book.chapters[i]));
        let k = choose|k: int| 0 <= k < chapters.len() && chapters[k] == book.chapters[i];
        assert(notation::well_formed(parts.chapters[k].value));
        assert(saved_laws::have_bare_names(chapters[k].extra));
        assert(quest::have_plain_numbers(chapters[k].quests));
        assert forall|j: int| 0 <= j < chapters[k].quests.len() implies saved_laws::have_bare_names(
            (#[trigger] chapters[k].quests[j]).extra,
        ) by {}
        saved_laws::law_read_chapter_is_storable(
            parts.chapters[k].value,
            parts.chapters[k].stem,
            (k as i32) as int,
            numbers,
        );
    }
}

/// Reading a book, saving it and reading it again finds as many entries that are only kept, and as
/// many kept files, as the first time.
pub proof fn law_second_reading_finds_the_same(
    first: editor::PartsModel,
    files: Seq<Seq<char>>,
    second: editor::PartsModel,
    numbers: Seq<(Seq<char>, import::ReadingModel)>,
)
    requires
        saved_laws::is_storable_book(editor::book_of(first, numbers)),
        saved_laws::holds_book(second, files, editor::book_of(first, numbers), numbers),
    ensures
        ({
            let before = diagnostics::quests_of(editor::chapters_in(first.chapters, numbers));
            let after = diagnostics::quests_of(editor::chapters_in(second.chapters, numbers));
            &&& import::kept_tasks_of(after) == import::kept_tasks_of(before)
            &&& import::kept_rewards_of(after) == import::kept_rewards_of(before)
            &&& second.preserved_files.len() == first.preserved_files.len()
        }),
{
    broadcast use vstd::seq_lib::group_to_multiset_ensures;

    let book = editor::book_of(first, numbers);
    let chapters = editor::chapters_in(first.chapters, numbers);
    law_saved_book_keeps_its_entries(book, files, second, numbers);
    order::lemma_sorted_keeps(chapters, order::ranking::<Chapter>());
    order::lemma_sorted_keeps(first.preserved_files, order::ranking::<editor::PreservedFile>());
    lemma_sum_in_any_order(chapters, book.chapters, kept_task_number());
    lemma_sum_in_any_order(chapters, book.chapters, kept_reward_number());
    lemma_kept_is_a_sum(diagnostics::quests_of(chapters));
    lemma_kept_is_a_sum(diagnostics::quests_of(book.chapters));
    assert(second.preserved_files.to_multiset().len() == second.preserved_files.len());
    assert(book.preserved_files.to_multiset().len() == book.preserved_files.len());
}

proof fn lemma_entries_settle(
    book: editor::BookModel,
    numbers: Seq<(Seq<char>, import::ReadingModel)>,
    measure: spec_fn(quest::QuestModel) -> nat,
)
    requires
        saved_laws::is_storable_book(book),
        measure == task_number() || measure == reward_number() || measure == kept_task_number()
            || measure == kept_reward_number(),
    ensures
        sum_of(diagnostics::quests_of(saved_laws::settled_chapters(book, numbers)), measure)
            == sum_of(diagnostics::quests_of(book.chapters), measure),
{
    let all = saved_laws::settled_chapters(book, numbers);
    assert forall|i: int| 0 <= i < all.len() implies sum_of((#[trigger] all[i]).quests, measure)
        == sum_of(book.chapters[i].quests, measure) by {
        assert(saved_laws::is_storable_chapter(book.chapters[i]));
        law_saved_chapter_keeps_its_entries(book.chapters[i], numbers);
        lemma_kept_is_a_sum(all[i].quests);
        lemma_kept_is_a_sum(book.chapters[i].quests);
    }
    lemma_same_sum_over_chapters(all, book.chapters, measure);
}

// ---------------------------------------------------------------------------
// Files
// ---------------------------------------------------------------------------

/// The steps that write bytes.
pub open spec fn bytes_steps(steps: Seq<saving::StepModel>) -> Seq<saving::StepModel>
    decreases steps.len(),
{
    if steps.len() == 0 {
        Seq::empty()
    } else if steps.last() is Bytes {
        bytes_steps(steps.drop_last()).push(steps.last())
    } else {
        bytes_steps(steps.drop_last())
    }
}

/// The steps that write the bytes of kept files to their places.
pub open spec fn kept_file_steps(
    root: Seq<path::PartModel>,
    files: Seq<editor::FileModel>,
) -> Seq<saving::StepModel> {
    Seq::new(
        files.len(),
        |i: int|
            saving::StepModel::Bytes(
                path::path_inside(root, files[i].relative_path),
                files[i].contents,
            ),
    )
}

proof fn lemma_bytes_of_both(a: Seq<saving::StepModel>, b: Seq<saving::StepModel>)
    ensures
        bytes_steps(a + b) == bytes_steps(a) + bytes_steps(b),
    decreases b.len(),
{
    if b.len() == 0 {
        assert(a + b =~= a);
        assert(bytes_steps(a) + bytes_steps(b) =~= bytes_steps(a));
    } else {
        assert((a + b).drop_last() =~= a + b.drop_last());
        lemma_bytes_of_both(a, b.drop_last());
        assert(bytes_steps(a + b) =~= bytes_steps(a) + bytes_steps(b));
    }
}

proof fn lemma_no_bytes(steps: Seq<saving::StepModel>)
    requires
        forall|i: int| 0 <= i < steps.len() ==> (#[trigger] steps[i]) !is Bytes,
    ensures
        bytes_steps(steps) == Seq::<saving::StepModel>::empty(),
    decreases steps.len(),
{
    if steps.len() > 0 {
        assert(steps[steps.len() - 1] !is Bytes);
        assert forall|i: int| 0 <= i < steps.drop_last().len() implies (
        #[trigger] steps.drop_last()[i]) !is Bytes by {
            assert(steps.drop_last()[i] == steps[i]);
        }
        lemma_no_bytes(steps.drop_last());
    }
}

proof fn lemma_all_bytes(steps: Seq<saving::StepModel>)
    requires
        forall|i: int| 0 <= i < steps.len() ==> (#[trigger] steps[i]) is Bytes,
    ensures
        bytes_steps(steps) == steps,
    decreases steps.len(),
{
    if steps.len() > 0 {
        assert(steps[steps.len() - 1] is Bytes);
        assert forall|i: int| 0 <= i < steps.drop_last().len() implies (
        #[trigger] steps.drop_last()[i]) is Bytes by {
            assert(steps.drop_last()[i] == steps[i]);
        }
        lemma_all_bytes(steps.drop_last());
        assert(steps.drop_last().push(steps.last()) =~= steps);
    }
}

proof fn lemma_bytes_of_file(root: Seq<path::PartModel>, file: editor::FileModel)
    ensures
        bytes_steps(saving::file_steps(root, file)) == seq![
            saving::StepModel::Bytes(
                path::path_inside(root, file.relative_path),
                file.contents,
            ),
        ],
{
    let steps = saving::file_steps(root, file);
    let place = path::path_inside(root, file.relative_path);
    let one = seq![saving::StepModel::Bytes(place, file.contents)];
    lemma_all_bytes(one);
    if let Some(folder) = path::folder(place) {
        let made = seq![saving::StepModel::Folder(folder)];
        lemma_no_bytes(made);
        assert(steps.drop_last() =~= made);
        assert(Seq::<saving::StepModel>::empty().push(one[0]) =~= one);
    }
}

proof fn lemma_bytes_of_files(root: Seq<path::PartModel>, files: Seq<editor::FileModel>)
    ensures
        bytes_steps(saving::files_steps(root, files)) == kept_file_steps(root, files),
    decreases files.len(),
{
    if files.len() == 0 {
        assert(kept_file_steps(root, files) =~= Seq::empty());
    } else {
        let front = files.drop_last();
        let last = saving::file_steps(root, files.last());
        lemma_bytes_of_files(root, front);
        lemma_bytes_of_file(root, files.last());
        lemma_bytes_of_both(saving::files_steps(root, front), last);
        assert(kept_file_steps(root, files) =~= kept_file_steps(root, front) + bytes_steps(last));
    }
}

proof fn lemma_language_steps_are_bytes(
    folder: Seq<path::PartModel>,
    languages: Seq<(Seq<char>, Seq<(Seq<char>, Seq<char>)>)>,
)
    ensures
        forall|i: int|
            0 <= i < saving::languages_steps(folder, languages).len() ==> {
                &&& (#[trigger] saving::languages_steps(folder, languages)[i]) is Bytes
                &&& place_of(saving::languages_steps(folder, languages)[i]).len() == folder.len()
                    + 1
                &&& place_of(saving::languages_steps(folder, languages)[i]).drop_last() == folder
            },
{
    let all = saving::languages_steps(folder, languages);
    assert forall|i: int| 0 <= i < all.len() implies (#[trigger] all[i]) is Bytes && place_of(
        all[i],
    ).len() == folder.len() + 1 && place_of(all[i]).drop_last() == folder by {
        assert(place_of(all[i]).drop_last() =~= folder);
    }
}

/// Steps that write no bytes leave those of the steps between them.
proof fn lemma_bytes_between(
    a: Seq<saving::StepModel>,
    b: Seq<saving::StepModel>,
    c: Seq<saving::StepModel>,
)
    requires
        bytes_steps(a) == Seq::<saving::StepModel>::empty(),
    ensures
        bytes_steps(a + b + c) == bytes_steps(b) + bytes_steps(c),
{
    lemma_bytes_of_both(a, b);
    lemma_bytes_of_both(a + b, c);
    assert(bytes_steps(a + b) =~= bytes_steps(b));
}

/// The bytes that saving writes before the texts.
proof fn lemma_first_bytes(book: editor::BookModel, destination: Seq<path::PartModel>)
    ensures
        bytes_steps(saving::first_steps(book, destination)) == kept_file_steps(
            saving::quests_folder(destination),
            book.preserved_files,
        ) + saving::languages_steps(
            saving::language_folder(saving::project_folder(destination)),
            book.translations.languages,
        ),
{
    let root = saving::quests_folder(destination);
    let languages = book.translations.languages;
    let folder = saving::language_folder(saving::project_folder(destination));
    let folders = seq![
        saving::StepModel::Folder(path::inside(root, "chapters"@)),
        saving::StepModel::Folder(path::inside(root, "reward_tables"@)),
    ];
    let files = saving::files_steps(root, book.preserved_files);
    let spoken = saving::languages_steps(folder, languages);
    let made = seq![saving::StepModel::Folder(folder)];
    lemma_no_bytes(folders);
    lemma_no_bytes(made);
    lemma_bytes_of_files(root, book.preserved_files);
    lemma_language_steps_are_bytes(folder, languages);
    lemma_all_bytes(spoken);
    lemma_bytes_of_both(made, spoken);
    assert(bytes_steps(made + spoken) =~= spoken);
    if languages.len() == 0 {
        lemma_bytes_between(folders, files, Seq::empty());
    } else {
        lemma_bytes_between(folders, files, made + spoken);
    }
}

/// The bytes that saving writes are those of the kept files, at their places, and behind them
/// those of the languages.
pub proof fn law_kept_files_are_written(
    book: editor::BookModel,
    destination: Seq<path::PartModel>,
    numbers: Seq<(Seq<char>, import::ReadingModel)>,
)
    ensures
        bytes_steps(saving::save_plan(book, destination, numbers)) == kept_file_steps(
            saving::quests_folder(destination),
            book.preserved_files,
        ) + saving::languages_steps(
            saving::language_folder(saving::project_folder(destination)),
            book.translations.languages,
        ),
{
    let first = saving::first_steps(book, destination);
    let last = saving::last_steps(book, destination, numbers);
    lemma_first_bytes(book, destination);
    lemma_no_bytes(last);
    lemma_bytes_of_both(first, last);
    assert(bytes_steps(first) + Seq::empty() =~= bytes_steps(first));
}

/// The place that a step makes or writes.
pub open spec fn place_of(step: saving::StepModel) -> Seq<path::PartModel> {
    match step {
        saving::StepModel::Folder(place) => place,
        saving::StepModel::Bytes(place, _) => place,
        saving::StepModel::Text(place, _) => place,
    }
}

/// What stands at a place after the steps: what the last of them that writes there has written.
pub open spec fn written_at(
    steps: Seq<saving::StepModel>,
    place: Seq<path::PartModel>,
) -> Option<saving::StepModel>
    decreases steps.len(),
{
    if steps.len() == 0 {
        None
    } else if steps.last() !is Folder && place_of(steps.last()) == place {
        Some(steps.last())
    } else {
        written_at(steps.drop_last(), place)
    }
}

proof fn lemma_written_by_both(
    a: Seq<saving::StepModel>,
    b: Seq<saving::StepModel>,
    place: Seq<path::PartModel>,
)
    ensures
        written_at(a + b, place) == (match written_at(b, place) {
            Some(step) => Some(step),
            None => written_at(a, place),
        }),
    decreases b.len(),
{
    if b.len() == 0 {
        assert(a + b =~= a);
    } else {
        assert((a + b).drop_last() =~= a + b.drop_last());
        lemma_written_by_both(a, b.drop_last(), place);
    }
}

proof fn lemma_not_written(steps: Seq<saving::StepModel>, place: Seq<path::PartModel>)
    requires
        forall|i: int| 0 <= i < steps.len() ==> place_of(#[trigger] steps[i]) != place,
    ensures
        written_at(steps, place) is None,
    decreases steps.len(),
{
    if steps.len() > 0 {
        assert(place_of(steps[steps.len() - 1]) != place);
        assert forall|i: int| 0 <= i < steps.drop_last().len() implies place_of(
            #[trigger] steps.drop_last()[i],
        ) != place by {
            assert(steps.drop_last()[i] == steps[i]);
        }
        lemma_not_written(steps.drop_last(), place);
    }
}

proof fn lemma_written_once(
    steps: Seq<saving::StepModel>,
    k: int,
    place: Seq<path::PartModel>,
)
    requires
        0 <= k < steps.len(),
        steps[k] !is Folder,
        place_of(steps[k]) == place,
        forall|i: int| k < i < steps.len() ==> place_of(#[trigger] steps[i]) != place,
    ensures
        written_at(steps, place) == Some(steps[k]),
    decreases steps.len(),
{
    if k < steps.len() - 1 {
        assert(place_of(steps[steps.len() - 1]) != place);
        assert forall|i: int| k < i < steps.drop_last().len() implies place_of(
            #[trigger] steps.drop_last()[i],
        ) != place by {
            assert(steps.drop_last()[i] == steps[i]);
        }
        lemma_written_once(steps.drop_last(), k, place);
    }
}

/// No two chapters have one file name.
pub open spec fn have_own_files(chapters: Seq<quest::ChapterModel>) -> bool {
    forall|i: int, j: int|
        0 <= i < j < chapters.len() ==> (#[trigger] chapters[i]).filename != (
        #[trigger] chapters[j]).filename
}

proof fn lemma_files_differ(root: Seq<path::PartModel>, a: Seq<char>, b: Seq<char>)
    requires
        a != b,
    ensures
        path::inside(root, a + ".snbt"@) != path::inside(root, b + ".snbt"@),
{
    if a + ".snbt"@ == b + ".snbt"@ {
        assert((a + ".snbt"@).len() == (b + ".snbt"@).len());
        assert((a + ".snbt"@).take(a.len() as int) =~= a);
        assert((b + ".snbt"@).take(b.len() as int) =~= b);
    }
    assert(path::inside(root, a + ".snbt"@).last() == path::PartModel::Name(a + ".snbt"@));
    assert(path::inside(root, b + ".snbt"@).last() == path::PartModel::Name(b + ".snbt"@));
}

/// The places of the data, of the groups and of the files of chapters.
pub open spec fn text_places(
    root: Seq<path::PartModel>,
    chapters: Seq<quest::ChapterModel>,
) -> Seq<Seq<path::PartModel>> {
    seq![path::inside(root, "data.snbt"@), path::inside(root, "chapter_groups.snbt"@)] + Seq::new(
        chapters.len(),
        |i: int|
            path::inside(path::inside(root, "chapters"@), chapters[i].filename + ".snbt"@),
    )
}

/// Each step writes a text to a place.
spec fn writes_texts(
    steps: Seq<saving::StepModel>,
    places: Seq<Seq<path::PartModel>>,
) -> bool {
    &&& steps.len() == places.len()
    &&& forall|k: int|
        0 <= k < steps.len() ==> (#[trigger] steps[k]) is Text && place_of(steps[k]) == places[k]
}

proof fn lemma_last_steps(
    book: editor::BookModel,
    destination: Seq<path::PartModel>,
    numbers: Seq<(Seq<char>, import::ReadingModel)>,
)
    ensures
        writes_texts(
            saving::last_steps(book, destination, numbers),
            text_places(saving::quests_folder(destination), book.chapters),
        ),
{
    let steps = saving::last_steps(book, destination, numbers);
    let places = text_places(saving::quests_folder(destination), book.chapters);
    assert forall|k: int| 0 <= k < steps.len() implies (#[trigger] steps[k]) is Text && place_of(
        steps[k],
    ) == places[k] by {}
}

/// No two of the places are the same.
proof fn lemma_text_places(
    root: Seq<path::PartModel>,
    chapters: Seq<quest::ChapterModel>,
    i: int,
    j: int,
)
    requires
        have_own_files(chapters),
        0 <= i < j < chapters.len() + 2,
    ensures
        text_places(root, chapters)[i] != text_places(root, chapters)[j],
{
    let places = text_places(root, chapters);
    let folder = path::inside(root, "chapters"@);
    lemma_names_differ();
    assert(places[0].last() == path::PartModel::Name("data.snbt"@));
    assert(places[1].last() == path::PartModel::Name("chapter_groups.snbt"@));
    if j >= 2 {
        assert(places[j] == path::inside(folder, chapters[j - 2].filename + ".snbt"@));
        assert(places[j].len() == root.len() + 2);
        if i >= 2 {
            assert(chapters[i - 2].filename != chapters[j - 2].filename);
            lemma_files_differ(folder, chapters[i - 2].filename, chapters[j - 2].filename);
        } else {
            assert(places[i].len() == root.len() + 1);
        }
    }
}

/// The last steps are what stands at their places.
proof fn lemma_texts_written(
    first: Seq<saving::StepModel>,
    last: Seq<saving::StepModel>,
    root: Seq<path::PartModel>,
    chapters: Seq<quest::ChapterModel>,
    k: int,
)
    requires
        have_own_files(chapters),
        writes_texts(last, text_places(root, chapters)),
        0 <= k < last.len(),
    ensures
        written_at(first + last, text_places(root, chapters)[k]) == Some(last[k]),
{
    let place = text_places(root, chapters)[k];
    assert forall|j: int| k < j < last.len() implies place_of(#[trigger] last[j]) != place by {
        lemma_text_places(root, chapters, k, j);
    }
    assert(last[k] is Text && place_of(last[k]) == place);
    lemma_written_once(last, k, place);
    lemma_written_by_both(first, last, place);
}

/// After a book was saved, its data, its groups and each of its chapters stand in their files,
/// where no two chapters have one file name.
pub proof fn law_saved_files_hold_the_book(
    book: editor::BookModel,
    destination: Seq<path::PartModel>,
    numbers: Seq<(Seq<char>, import::ReadingModel)>,
    i: int,
)
    requires
        have_own_files(book.chapters),
        0 <= i < book.chapters.len(),
    ensures
        ({
            let steps = saving::save_plan(book, destination, numbers);
            let root = saving::quests_folder(destination);
            let data = path::inside(root, "data.snbt"@);
            let groups = path::inside(root, "chapter_groups.snbt"@);
            let chapter = path::inside(
                path::inside(root, "chapters"@),
                book.chapters[i].filename + ".snbt"@,
            );
            &&& written_at(steps, data) == Some(
                saving::StepModel::Text(data, export::data_text(book.title, book.grid_scale)),
            )
            &&& written_at(steps, groups) == Some(
                saving::StepModel::Text(groups, export::groups_text(book.groups)),
            )
            &&& written_at(steps, chapter) == Some(
                saving::StepModel::Text(
                    chapter,
                    export::chapter_text(book.chapters[i], numbers),
                ),
            )
        }),
{
    let first = saving::first_steps(book, destination);
    let last = saving::last_steps(book, destination, numbers);
    let root = saving::quests_folder(destination);
    lemma_last_steps(book, destination, numbers);
    lemma_texts_written(first, last, root, book.chapters, 0);
    lemma_texts_written(first, last, root, book.chapters, 1);
    lemma_texts_written(first, last, root, book.chapters, i + 2);
    assert(last[i + 2] == saving::chapter_step(root, book.chapters[i], numbers));
}

proof fn lemma_names_differ()
    ensures
        "data.snbt"@ != "chapter_groups.snbt"@,
        "reward_tables"@ != "data.snbt"@,
        "reward_tables"@ != "chapter_groups.snbt"@,
        "reward_tables"@ != "chapters"@,
        "quests"@ != "kubejs"@,
{
    reveal_strlit("data.snbt");
    reveal_strlit("chapter_groups.snbt");
    reveal_strlit("reward_tables");
    reveal_strlit("chapters");
    reveal_strlit("quests");
    reveal_strlit("kubejs");
    assert("data.snbt"@.len() == 9 && "chapter_groups.snbt"@.len() == 19);
    assert("reward_tables"@.len() == 13 && "chapters"@.len() == 8);
    assert("quests"@[0] == 'q' && "kubejs"@[0] == 'k');
}

/// The kept files stand in the folder of the reward tables, each at a place of its own.
pub open spec fn have_own_places(files: Seq<editor::FileModel>) -> bool {
    &&& forall|i: int|
        0 <= i < files.len() ==> (#[trigger] files[i]).relative_path.len() > 0
            && files[i].relative_path[0] == path::PartModel::Name("reward_tables"@)
    &&& forall|i: int, j: int|
        0 <= i < j < files.len() ==> (#[trigger] files[i]).relative_path != (
        #[trigger] files[j]).relative_path
}

proof fn lemma_files_written(root: Seq<path::PartModel>, files: Seq<editor::FileModel>, k: int)
    requires
        have_own_places(files),
        0 <= k < files.len(),
    ensures
        written_at(saving::files_steps(root, files), root + files[k].relative_path) == Some(
            saving::StepModel::Bytes(root + files[k].relative_path, files[k].contents),
        ),
    decreases files.len(),
{
    let front = files.drop_last();
    let n = files.len() - 1;
    let last = saving::file_steps(root, files[n]);
    let place = root + files[k].relative_path;
    assert(files.last() == files[n]);
    assert(files[n].relative_path.len() > 0 && files[k].relative_path.len() > 0);
    assert(path::path_inside(root, files[n].relative_path) == root + files[n].relative_path);
    lemma_written_by_both(saving::files_steps(root, front), last, place);
    if k == n {
        lemma_written_once(last, last.len() - 1, place);
    } else {
        assert(files[k].relative_path != files[n].relative_path);
        if root + files[n].relative_path == place {
            assert((root + files[n].relative_path).skip(root.len() as int)
                =~= files[n].relative_path);
            assert(place.skip(root.len() as int) =~= files[k].relative_path);
        }
        assert forall|i: int, j: int| 0 <= i < j < front.len() implies (
        #[trigger] front[i]).relative_path != (#[trigger] front[j]).relative_path by {
            assert(front[i] == files[i] && front[j] == files[j]);
        }
        assert forall|i: int| 0 <= i < front.len() implies (#[trigger] front[i]).relative_path.len()
            > 0 && front[i].relative_path[0] == path::PartModel::Name("reward_tables"@) by {
            assert(front[i] == files[i]);
        }
        lemma_files_written(root, front, k);
        assert(front[k] == files[k]);
        reveal_with_fuel(written_at, 3);
        if last.len() == 2 {
            assert(last.drop_last().last() == last[0]);
        }
    }
}

/// After a book was saved, each kept file stands at its place in the folder of the quests, with
/// the bytes that it had.
pub proof fn law_kept_file_stands_at_its_place(
    book: editor::BookModel,
    destination: Seq<path::PartModel>,
    numbers: Seq<(Seq<char>, import::ReadingModel)>,
    k: int,
)
    requires
        have_own_places(book.preserved_files),
        0 <= k < book.preserved_files.len(),
    ensures
        ({
            let place = saving::quests_folder(destination)
                + book.preserved_files[k].relative_path;
            written_at(saving::save_plan(book, destination, numbers), place) == Some(
                saving::StepModel::Bytes(place, book.preserved_files[k].contents),
            )
        }),
{
    let root = saving::quests_folder(destination);
    let place = root + book.preserved_files[k].relative_path;
    let folders = seq![
        saving::StepModel::Folder(path::inside(root, "chapters"@)),
        saving::StepModel::Folder(path::inside(root, "reward_tables"@)),
    ];
    let files = saving::files_steps(root, book.preserved_files);
    let folder = saving::language_folder(saving::project_folder(destination));
    let rest = language_part(folder, book.translations.languages);
    let last = saving::last_steps(book, destination, numbers);
    lemma_names_differ();
    assert(book.preserved_files[k].relative_path[0] == path::PartModel::Name("reward_tables"@));
    assert(place[root.len() as int] == path::PartModel::Name("reward_tables"@));
    lemma_files_written(root, book.preserved_files, k);
    assert(place.take(root.len() as int) =~= root);
    lemma_languages_elsewhere(destination, book.translations.languages, place);
    lemma_last_steps(book, destination, numbers);
    lemma_texts_elsewhere(last, root, book.chapters, place);
    lemma_written_by_both(folders, files, place);
    lemma_written_by_both(folders + files, rest, place);
    lemma_written_by_both(folders + files + rest, last, place);
    assert(saving::first_steps(book, destination) == folders + files + rest);
}

/// The steps that write the languages, behind the one that makes their folder.
spec fn language_part(
    folder: Seq<path::PartModel>,
    languages: Seq<(Seq<char>, Seq<(Seq<char>, Seq<char>)>)>,
) -> Seq<saving::StepModel> {
    if languages.len() == 0 {
        Seq::empty()
    } else {
        seq![saving::StepModel::Folder(folder)] + saving::languages_steps(folder, languages)
    }
}

/// No language is written into the folder of the quests.
proof fn lemma_languages_elsewhere(
    destination: Seq<path::PartModel>,
    languages: Seq<(Seq<char>, Seq<(Seq<char>, Seq<char>)>)>,
    place: Seq<path::PartModel>,
)
    requires
        saving::quests_folder(destination).len() <= place.len(),
        place.take(saving::quests_folder(destination).len() as int) == saving::quests_folder(
            destination,
        ),
    ensures
        written_at(
            language_part(
                saving::language_folder(saving::project_folder(destination)),
                languages,
            ),
            place,
        ) is None,
{
    let root = saving::quests_folder(destination);
    let project = saving::project_folder(destination);
    let folder = saving::language_folder(project);
    let spoken = saving::languages_steps(folder, languages);
    let rest = language_part(folder, languages);
    let at = root.len() - 1;
    lemma_names_differ();
    assert(root =~= project.push(path::PartModel::Name("quests"@)));
    assert(place[at] == place.take(root.len() as int)[at]);
    lemma_language_steps_are_bytes(folder, languages);
    assert forall|i: int| 0 <= i < rest.len() implies rest[i] is Folder || place_of(
        #[trigger] rest[i],
    ) != place by {
        if i > 0 {
            assert(rest[i] == spoken[i - 1]);
            assert(place_of(rest[i])[at] == place_of(rest[i]).drop_last()[at]);
            assert(folder[at] == path::PartModel::Name("kubejs"@));
        }
    }
    lemma_only_folders_there(rest, place);
}

/// No text is written into the folder of the reward tables.
proof fn lemma_texts_elsewhere(
    last: Seq<saving::StepModel>,
    root: Seq<path::PartModel>,
    chapters: Seq<quest::ChapterModel>,
    place: Seq<path::PartModel>,
)
    requires
        writes_texts(last, text_places(root, chapters)),
        root.len() < place.len(),
        place[root.len() as int] == path::PartModel::Name("reward_tables"@),
    ensures
        written_at(last, place) is None,
{
    let places = text_places(root, chapters);
    let at = root.len() as int;
    lemma_names_differ();
    assert forall|i: int| 0 <= i < last.len() implies place_of(#[trigger] last[i]) != place by {
        assert(place_of(last[i]) == places[i]);
        if i >= 2 {
            assert(places[i][at] == path::PartModel::Name("chapters"@));
        } else if i == 0 {
            assert(places[i][at] == path::PartModel::Name("data.snbt"@));
        } else {
            assert(places[i][at] == path::PartModel::Name("chapter_groups.snbt"@));
        }
    }
    lemma_not_written(last, place);
}

proof fn lemma_only_folders_there(
    steps: Seq<saving::StepModel>,
    place: Seq<path::PartModel>,
)
    requires
        forall|i: int|
            0 <= i < steps.len() ==> steps[i] is Folder || place_of(#[trigger] steps[i]) != place,
    ensures
        written_at(steps, place) is None,
    decreases steps.len(),
{
    if steps.len() > 0 {
        let last = steps[steps.len() - 1];
        assert(last is Folder || place_of(last) != place);
        assert forall|i: int| 0 <= i < steps.drop_last().len() implies steps.drop_last()[i] is Folder
            || place_of(#[trigger] steps.drop_last()[i]) != place by {
            assert(steps.drop_last()[i] == steps[i]);
        }
        lemma_only_folders_there(steps.drop_last(), place);
    }
}

// ---------------------------------------------------------------------------
// Opening, saving and opening again
// ---------------------------------------------------------------------------

/// What the files hold that could be read.
pub open spec fn texts_in(files: Seq<book::SourceModel>) -> Seq<Seq<char>> {
    Seq::new(files.len(), |i: int| files[i].contents->Ok_0)
}

/// The files hold what was written of a book: its data, its groups, its chapters in whatever order
/// they are found, its kept files, and languages that can be read.
pub open spec fn hold_what_was_written(
    files: opening::FilesModel,
    book: editor::BookModel,
    numbers: Seq<(Seq<char>, import::ReadingModel)>,
) -> bool {
    &&& files.data.contents == Ok::<Seq<char>, Seq<char>>(
        export::data_text(book.title, book.grid_scale),
    )
    &&& files.groups matches Some(groups) && groups.contents == Ok::<Seq<char>, Seq<char>>(
        export::groups_text(book.groups),
    )
    &&& files.preserved_files matches Ok(kept) && kept.to_multiset()
        == book.preserved_files.to_multiset()
    &&& languages::language_fault(files.languages) is None
    &&& files.language_failure is None
    &&& files.chapters matches Ok(chapters) && texts_in(chapters).to_multiset()
        == saved_laws::chapter_texts(book.chapters, numbers).to_multiset() && forall|i: int|
        0 <= i < chapters.len() ==> (#[trigger] chapters[i]).contents is Ok
}

proof fn lemma_no_fault(files: Seq<book::SourceModel>)
    requires
        forall|i: int| 0 <= i < files.len() ==> opening::file_fault(#[trigger] files[i]) is None,
    ensures
        opening::files_fault(files) is None,
    decreases files.len(),
{
    if files.len() > 0 {
        assert(opening::file_fault(files[files.len() - 1]) is None);
        assert forall|i: int| 0 <= i < files.drop_last().len() implies opening::file_fault(
            #[trigger] files.drop_last()[i],
        ) is None by {
            assert(files.drop_last()[i] == files[i]);
        }
        lemma_no_fault(files.drop_last());
    }
}

/// The files that a book was saved to can be opened, and they hold the book.
pub proof fn law_saved_book_can_be_opened(
    book: editor::BookModel,
    files: opening::FilesModel,
    numbers: Seq<(Seq<char>, import::ReadingModel)>,
)
    requires
        quest::is_plain(book.grid_scale),
        saved_laws::is_storable_book(book),
        hold_what_was_written(files, book, numbers),
    ensures
        opening::first_fault(files) is None,
        saved_laws::holds_book(
            opening::parts_in(files),
            texts_in(files.chapters->Ok_0),
            book,
            numbers,
        ),
{
    broadcast use vstd::seq_lib::group_to_multiset_ensures;

    let chapters = files.chapters->Ok_0;
    let found = texts_in(chapters);
    let texts = saved_laws::chapter_texts(book.chapters, numbers);
    saved_laws::law_saved_data_is_read_back(book.title, book.grid_scale, numbers);
    saved_laws::law_saved_groups_are_read_back(book.groups);
    assert forall|i: int| 0 <= i < chapters.len() implies opening::file_fault(
        #[trigger] chapters[i],
    ) is None by {
        assert(found.contains(found[i]));
        assert(found.to_multiset().count(found[i]) > 0);
        assert(texts.contains(found[i]));
        let k = choose|k: int| 0 <= k < texts.len() && texts[k] == found[i];
        assert(saved_laws::is_storable_chapter(book.chapters[k]));
        saved_laws::law_saved_chapter_is_read_back(book.chapters[k], None, 0, numbers);
    }
    lemma_no_fault(chapters);
    let parts = opening::parts_in(files);
    assert forall|i: int| 0 <= i < found.len() implies notation::document(#[trigger] found[i])
        == Ok::<notation::Node, notation::Fault>(parts.chapters[i].value) by {
        assert(opening::file_fault(chapters[i]) is None);
    }
}

/// The values in files that could be opened are well-formed.
proof fn lemma_opened_values(files: Seq<book::SourceModel>, i: int)
    requires
        opening::files_fault(files) is None,
        0 <= i < files.len(),
    ensures
        notation::well_formed(opening::value_in(files[i])),
    decreases files.len(),
{
    if i < files.len() - 1 {
        lemma_opened_values(files.drop_last(), i);
        assert(files.drop_last()[i] == files[i]);
    } else {
        notation_laws::law_what_was_read_is_read_again(files[i].contents->Ok_0);
    }
}

/// A book that was opened, saved and opened again has lost nothing: the second opening succeeds,
/// and there are as many tasks, rewards and kept files as before, and as many tasks and rewards
/// that are only kept. The fields that its chapters and quests only keep have names that can
/// stand without quotes.
pub proof fn law_opened_book_survives_saving(
    first: opening::FilesModel,
    second: opening::FilesModel,
    numbers: Seq<(Seq<char>, import::ReadingModel)>,
)
    requires
        opening::first_fault(first) is None,
        ({
            let parts = opening::parts_in(first);
            let chapters = editor::chapters_in(parts.chapters, numbers);
            &&& quest::is_plain(editor::book_of(parts, numbers).grid_scale)
            &&& editor::all_have_plain_numbers(chapters)
            &&& forall|i: int|
                0 <= i < chapters.len() ==> saved_laws::have_bare_names(
                    (#[trigger] chapters[i]).extra,
                )
            &&& forall|i: int, j: int|
                #![trigger chapters[i].quests[j]]
                0 <= i < chapters.len() && 0 <= j < chapters[i].quests.len()
                    ==> saved_laws::have_bare_names(chapters[i].quests[j].extra)
            &&& hold_what_was_written(second, editor::book_of(parts, numbers), numbers)
        }),
    ensures
        opening::first_fault(second) is None,
        ({
            let before = opening::parts_in(first);
            let after = opening::parts_in(second);
            let b = editor::book_of(before, numbers);
            let c = editor::book_of(after, numbers);
            let old_quests = diagnostics::quests_of(b.chapters);
            let new_quests = diagnostics::quests_of(c.chapters);
            let old_found = diagnostics::quests_of(
                editor::chapters_in(before.chapters, numbers),
            );
            let new_found = diagnostics::quests_of(editor::chapters_in(after.chapters, numbers));
            &&& after.chapters.len() == before.chapters.len()
            &&& sum_of(new_quests, task_number()) == sum_of(old_quests, task_number())
            &&& sum_of(new_quests, reward_number()) == sum_of(old_quests, reward_number())
            &&& c.preserved_files.len() == b.preserved_files.len()
            &&& import::kept_tasks_of(new_found) == import::kept_tasks_of(old_found)
            &&& import::kept_rewards_of(new_found) == import::kept_rewards_of(old_found)
        }),
{
    let before = opening::parts_in(first);
    let after = opening::parts_in(second);
    let b = editor::book_of(before, numbers);
    let texts = texts_in(second.chapters->Ok_0);
    assert forall|i: int| 0 <= i < before.chapters.len() implies notation::well_formed(
        (#[trigger] before.chapters[i]).value,
    ) by {
        lemma_opened_values(first.chapters->Ok_0, i);
    }
    law_read_book_is_storable(before, numbers);
    law_saved_book_can_be_opened(b, second, numbers);
    law_saved_book_keeps_its_entries(b, texts, after, numbers);
    law_second_reading_finds_the_same(before, texts, after, numbers);
    order::lemma_sorted_keeps(
        editor::chapters_in(before.chapters, numbers),
        order::ranking::<Chapter>(),
    );
    order::lemma_sorted_keeps(
        editor::chapters_in(after.chapters, numbers),
        order::ranking::<Chapter>(),
    );
}

} // verus!
