//! What a dialog does with the answers that it is given, one after the other.

use crate::compose;
use crate::digits;
use crate::editor;
use crate::editor::EditorError;
use crate::interactive;
use crate::interactive::ActionModel;
use crate::interactive::Choice;
use crate::interactive::DialogModel;
use crate::interactive::Reply;
use crate::interactive::StageModel;
use crate::naming;
use crate::quest;
use crate::text;
use crate::text_laws;
use vstd::prelude::*;

verus! {

// ---------------------------------------------------------------------------
// Answers
// ---------------------------------------------------------------------------

/// The end of a line does not belong to the answer, however it is marked.
pub proof fn law_line_ends_are_dropped(s: Seq<char>, ends: Seq<char>)
    requires
        s.len() > 0 ==> s.last() != '\r' && s.last() != '\n',
        forall|i: int| 0 <= i < ends.len() ==> (#[trigger] ends[i] == '\r' || ends[i] == '\n'),
    ensures
        interactive::line_of(s + ends) == s,
    decreases ends.len(),
{
    let line = s + ends;
    if ends.len() > 0 {
        let front = ends.drop_last();
        assert(line.drop_last() =~= s + front);
        assert(line.last() == ends[ends.len() - 1]);
        assert forall|i: int| 0 <= i < front.len() implies (#[trigger] front[i] == '\r' || front[i]
            == '\n') by {
            assert(ends[i] == front[i]);
        }
        law_line_ends_are_dropped(s, front);
    } else {
        assert(line =~= s);
    }
}

/// A quest is chosen by its number in the list, nought cancels, and everything else is wrong.
pub proof fn law_quest_is_chosen_by_its_number(
    book: editor::BookModel,
    answer: Seq<char>,
    n: nat,
)
    requires
        n <= usize::MAX,
    ensures
        text::trimmed(answer) == compose::decimal(n) ==> interactive::choice(book, answer) == (
        if n == 0 {
            Choice::Cancelled
        } else if book.chapters.len() > 0 && n <= book.chapters[0].quests.len() {
            Choice::Chosen(n - 1)
        } else {
            Choice::Wrong
        }),
        text::trimmed(answer).len() == 0 ==> interactive::choice(book, answer) == Choice::Wrong,
        text::trimmed(answer).len() > 0 && text::trimmed(answer)[0] != '+' && (exists|i: int|
            0 <= i < text::trimmed(answer).len() && !('0' <= #[trigger] text::trimmed(answer)[i]
                <= '9')) ==> interactive::choice(book, answer) == Choice::Wrong,
        interactive::choice(book, answer) matches Choice::Chosen(i) ==> book.chapters.len() > 0
            && 0 <= i < book.chapters[0].quests.len(),
{
    text_laws::law_numbers_are_written_in_digits(n);
    let d = compose::decimal(n);
    assert(text::ascii_digit(d[0]));
    assert(digits::without_plus(d) == d);
    let s = text::trimmed(answer);
    if s.len() > 0 && s[0] != '+' && (exists|i: int|
        0 <= i < s.len() && !('0' <= #[trigger] s[i] <= '9')) {
        let i = choose|i: int| 0 <= i < s.len() && !('0' <= #[trigger] s[i] <= '9');
        assert(!text::ascii_digit(s[i]));
        assert(!digits::all_digits(s));
    }
}

/// A number of things is what its digits say; nothing is asked for no answer, and nought is none.
pub proof fn law_amount_is_read(answer: Seq<char>, n: nat, default: u32)
    ensures
        text::trimmed(answer).len() == 0 ==> interactive::amount(answer, default) == Some(default),
        text::trimmed(answer) == compose::decimal(n) && 0 < n <= u32::MAX ==> interactive::amount(
            answer,
            default,
        ) == Some(n as u32),
        text::trimmed(answer) == compose::decimal(n) && (n == 0 || n > u32::MAX)
            ==> interactive::amount(answer, default) is None,
{
    text_laws::law_numbers_are_written_in_digits(n);
    let d = compose::decimal(n);
    assert(text::ascii_digit(d[0]));
    assert(digits::without_plus(d) == d);
}

// ---------------------------------------------------------------------------
// The book
// ---------------------------------------------------------------------------

/// Two books that have the same in everything but the quests of the first chapter.
pub open spec fn differ_in_first_quests(a: editor::BookModel, b: editor::BookModel) -> bool {
    &&& a.title == b.title
    &&& a.grid_scale == b.grid_scale
    &&& a.groups == b.groups
    &&& a.preserved_files == b.preserved_files
    &&& a.translations == b.translations
    &&& a.chapters.len() == b.chapters.len()
    &&& a.chapters.len() > 0
    &&& forall|i: int| 0 < i < a.chapters.len() ==> a.chapters[i] == #[trigger] b.chapters[i]
    &&& a.chapters[0].id == b.chapters[0].id
    &&& a.chapters[0].filename == b.chapters[0].filename
    &&& a.chapters[0].title == b.chapters[0].title
    &&& a.chapters[0].group == b.chapters[0].group
    &&& a.chapters[0].order_index == b.chapters[0].order_index
    &&& a.chapters[0].extra == b.chapters[0].extra
}

/// The reply goes back to the menu and asks again.
pub open spec fn back_in_menu(r: Reply) -> bool {
    &&& r.action == ActionModel::Read
    &&& r.dialog.stage == StageModel::Menu
}

/// A new book has the title that was asked for first and one chapter with the title that was asked
/// for next, whose file is named by the third answer or, where that is blank, by the title of the
/// chapter. There is nothing else in it.
pub proof fn law_book_is_begun(
    d: DialogModel,
    title: Seq<char>,
    chapter: Seq<char>,
    file: Seq<char>,
    x: quest::NumberModel,
    y: quest::NumberModel,
)
    requires
        d.stage == StageModel::Title,
        text::trimmed(interactive::line_of(title)).len() > 0,
        text::trimmed(interactive::line_of(chapter)).len() > 0,
    ensures
        ({
            let d1 = interactive::reply(d, title, x, y).dialog;
            let d2 = interactive::reply(d1, chapter, x, y).dialog;
            let r = interactive::reply(d2, file, x, y);
            let book = r.dialog.book;
            &&& back_in_menu(r)
            &&& r.dialog.quests_root == d.quests_root
            &&& r.dialog.id_state == naming::next_state(d.id_state)
            &&& book.title == interactive::line_of(title)
            &&& book.groups.len() == 0
            &&& book.preserved_files.len() == 0
            &&& book.chapters.len() == 1
            &&& book.chapters[0].title == interactive::line_of(chapter)
            &&& book.chapters[0].id == naming::id_of(naming::next_state(d.id_state))
            &&& book.chapters[0].group is None
            &&& book.chapters[0].order_index == 0
            &&& book.chapters[0].quests.len() == 0
            &&& book.chapters[0].extra.len() == 0
            &&& text::trimmed(interactive::line_of(file)).len() == 0 ==> book.chapters[0].filename
                == naming::slug(interactive::line_of(chapter))
            &&& text::trimmed(interactive::line_of(file)).len() > 0 ==> book.chapters[0].filename
                == naming::slug(interactive::line_of(file))
        }),
{
}

/// A quest that is asked for in the menu is put behind the others of the first chapter: with the
/// title and the description that were answered, at the place that was given, with a new id, and
/// without tasks, rewards and dependencies. Nothing else changes.
pub proof fn law_quest_is_added(
    d: DialogModel,
    command: Seq<char>,
    title: Seq<char>,
    description: Seq<char>,
    x: quest::NumberModel,
    y: quest::NumberModel,
)
    requires
        d.stage == StageModel::Menu,
        d.book.chapters.len() > 0,
        text::trimmed(interactive::line_of(command)) == "1"@,
        text::trimmed(interactive::line_of(title)).len() > 0,
    ensures
        ({
            let d1 = interactive::reply(d, command, x, y).dialog;
            let d2 = interactive::reply(d1, title, x, y).dialog;
            let r = interactive::reply(d2, description, x, y);
            let before = d.book.chapters[0].quests;
            let after = r.dialog.book.chapters[0].quests;
            &&& back_in_menu(r)
            &&& r.dialog.id_state == naming::next_state(d.id_state)
            &&& differ_in_first_quests(r.dialog.book, d.book)
            &&& after.len() == before.len() + 1
            &&& after.drop_last() == before
            &&& after.last().id == naming::id_of(naming::next_state(d.id_state))
            &&& after.last().title == interactive::line_of(title)
            &&& after.last().description == interactive::line_of(description)
            &&& after.last().x == x
            &&& after.last().y == y
            &&& after.last().tasks.len() == 0
            &&& after.last().rewards.len() == 0
            &&& after.last().dependencies.len() == 0
            &&& after.last().icon.len() == 0
            &&& after.last().extra.len() == 0
        }),
{
    let d1 = interactive::reply(d, command, x, y).dialog;
    let d2 = interactive::reply(d1, title, x, y).dialog;
    let r = interactive::reply(d2, description, x, y);
    let before = d.book.chapters[0].quests;
    let after = r.dialog.book.chapters[0].quests;
    assert(after.drop_last() =~= before);
}

/// The quests of the first chapter are the same but for one, which has the same in everything but
/// its tasks, its rewards and its dependencies.
pub open spec fn one_quest_grew(a: editor::BookModel, b: editor::BookModel, i: int) -> bool {
    &&& differ_in_first_quests(a, b)
    &&& a.chapters[0].quests.len() == b.chapters[0].quests.len()
    &&& 0 <= i < a.chapters[0].quests.len()
    &&& forall|k: int|
        0 <= k < a.chapters[0].quests.len() && k != i ==> a.chapters[0].quests[k]
            == #[trigger] b.chapters[0].quests[k]
    &&& ({
        let p = a.chapters[0].quests[i];
        let q = b.chapters[0].quests[i];
        &&& p.id == q.id
        &&& p.title == q.title
        &&& p.description == q.description
        &&& p.description_raw == q.description_raw
        &&& p.x == q.x
        &&& p.y == q.y
        &&& p.size == q.size
        &&& p.shape == q.shape
        &&& p.icon == q.icon
        &&& p.icon_raw == q.icon_raw
        &&& p.settings == q.settings
        &&& p.extra == q.extra
    })
}

/// The chosen quest and what it had before.
pub open spec fn chosen(book: editor::BookModel, i: int) -> quest::QuestModel {
    book.chapters[0].quests[i]
}

/// After the menu, the quest that was chosen and the kind of task, the title is asked for; the
/// first kind of task is then complete and stands behind the other tasks of that quest.
pub proof fn law_mark_is_added(
    d: DialogModel,
    command: Seq<char>,
    number: Seq<char>,
    kind: Seq<char>,
    title: Seq<char>,
    i: int,
    x: quest::NumberModel,
    y: quest::NumberModel,
)
    requires
        d.stage == StageModel::Menu,
        d.book.chapters.len() > 0,
        0 <= i < d.book.chapters[0].quests.len() <= usize::MAX,
        text::trimmed(interactive::line_of(command)) == "2"@,
        text::trimmed(interactive::line_of(number)) == compose::decimal((i + 1) as nat),
        text::trimmed(interactive::line_of(kind)) == "1"@,
        text::trimmed(interactive::line_of(title)).len() > 0,
    ensures
        ({
            let d1 = interactive::reply(d, command, x, y).dialog;
            let d2 = interactive::reply(d1, number, x, y).dialog;
            let d3 = interactive::reply(d2, kind, x, y).dialog;
            let r = interactive::reply(d3, title, x, y);
            &&& back_in_menu(r)
            &&& one_quest_grew(r.dialog.book, d.book, i)
            &&& chosen(r.dialog.book, i).rewards == chosen(d.book, i).rewards
            &&& chosen(r.dialog.book, i).dependencies == chosen(d.book, i).dependencies
            &&& chosen(r.dialog.book, i).tasks == chosen(d.book, i).tasks + seq![
                quest::TaskModel::Checkmark {
                    id: naming::id_of(naming::next_state(d.id_state)),
                    title: interactive::line_of(title),
                    raw: None,
                },
            ]
        }),
{
    reveal_strlit("1");
    reveal_strlit("2");
    assert("1"@[0] == '1');
    assert("2"@[0] == '2');
    law_quest_is_chosen_by_its_number(
        d.book,
        interactive::line_of(number),
        (i + 1) as nat,
    );
    let task = quest::TaskModel::Checkmark {
        id: naming::id_of(naming::next_state(d.id_state)),
        title: interactive::line_of(title),
        raw: None,
    };
    assert(chosen(d.book, i).tasks.push(task) =~= chosen(d.book, i).tasks + seq![task]);
}

/// The second kind of task is complete with its item and its number, and the third with what is to
/// be slain and how often.
pub proof fn law_counted_task_is_added(
    d: DialogModel,
    number: Seq<char>,
    kind: Seq<char>,
    title: Seq<char>,
    what: Seq<char>,
    count: Seq<char>,
    i: int,
    n: u32,
    x: quest::NumberModel,
    y: quest::NumberModel,
)
    requires
        d.stage == StageModel::TaskQuest,
        d.book.chapters.len() > 0,
        0 <= i < d.book.chapters[0].quests.len() <= usize::MAX,
        n > 0,
        text::trimmed(interactive::line_of(number)) == compose::decimal((i + 1) as nat),
        text::trimmed(interactive::line_of(kind)) == "2"@ || text::trimmed(
            interactive::line_of(kind),
        ) == "3"@,
        text::trimmed(interactive::line_of(title)).len() > 0,
        text::trimmed(interactive::line_of(what)).len() > 0,
        text::trimmed(interactive::line_of(count)) == compose::decimal(n as nat) || n == 1
            && text::trimmed(interactive::line_of(count)).len() == 0,
    ensures
        ({
            let d2 = interactive::reply(d, number, x, y).dialog;
            let d3 = interactive::reply(d2, kind, x, y).dialog;
            let d4 = interactive::reply(d3, title, x, y).dialog;
            let d5 = interactive::reply(d4, what, x, y).dialog;
            let r = interactive::reply(d5, count, x, y);
            let id = naming::id_of(naming::next_state(d.id_state));
            &&& back_in_menu(r)
            &&& one_quest_grew(r.dialog.book, d.book, i)
            &&& chosen(r.dialog.book, i).rewards == chosen(d.book, i).rewards
            &&& chosen(r.dialog.book, i).dependencies == chosen(d.book, i).dependencies
            &&& text::trimmed(interactive::line_of(kind)) == "2"@ ==> chosen(
                r.dialog.book,
                i,
            ).tasks == chosen(d.book, i).tasks + seq![
                quest::TaskModel::Item {
                    id,
                    title: interactive::line_of(title),
                    item: interactive::line_of(what),
                    count: n,
                    raw: None,
                },
            ]
            &&& text::trimmed(interactive::line_of(kind)) == "3"@ ==> chosen(
                r.dialog.book,
                i,
            ).tasks == chosen(d.book, i).tasks + seq![
                quest::TaskModel::Kill {
                    id,
                    title: interactive::line_of(title),
                    entity: interactive::line_of(what),
                    count: n,
                    raw: None,
                },
            ]
        }),
{
    reveal_strlit("1");
    reveal_strlit("2");
    reveal_strlit("3");
    assert("1"@[0] == '1');
    assert("2"@[0] == '2');
    assert("3"@[0] == '3');
    law_quest_is_chosen_by_its_number(
        d.book,
        interactive::line_of(number),
        (i + 1) as nat,
    );
    law_amount_is_read(interactive::line_of(count), n as nat, 1);
    let tasks = chosen(d.book, i).tasks;
    let id = naming::id_of(naming::next_state(d.id_state));
    let item = quest::TaskModel::Item {
        id,
        title: interactive::line_of(title),
        item: interactive::line_of(what),
        count: n,
        raw: None,
    };
    let kill = quest::TaskModel::Kill {
        id,
        title: interactive::line_of(title),
        entity: interactive::line_of(what),
        count: n,
        raw: None,
    };
    assert(tasks.push(item) =~= tasks + seq![item]);
    assert(tasks.push(kill) =~= tasks + seq![kill]);
}

/// A reward of experience is complete with its amount, ten where nothing is answered.
pub proof fn law_experience_is_added(
    d: DialogModel,
    number: Seq<char>,
    kind: Seq<char>,
    amount: Seq<char>,
    i: int,
    n: u32,
    x: quest::NumberModel,
    y: quest::NumberModel,
)
    requires
        d.stage == StageModel::RewardQuest,
        d.book.chapters.len() > 0,
        0 <= i < d.book.chapters[0].quests.len() <= usize::MAX,
        n > 0,
        text::trimmed(interactive::line_of(number)) == compose::decimal((i + 1) as nat),
        text::trimmed(interactive::line_of(kind)) == "1"@,
        text::trimmed(interactive::line_of(amount)) == compose::decimal(n as nat) || n == 10
            && text::trimmed(interactive::line_of(amount)).len() == 0,
    ensures
        ({
            let d2 = interactive::reply(d, number, x, y).dialog;
            let d3 = interactive::reply(d2, kind, x, y).dialog;
            let r = interactive::reply(d3, amount, x, y);
            &&& back_in_menu(r)
            &&& one_quest_grew(r.dialog.book, d.book, i)
            &&& chosen(r.dialog.book, i).tasks == chosen(d.book, i).tasks
            &&& chosen(r.dialog.book, i).dependencies == chosen(d.book, i).dependencies
            &&& chosen(r.dialog.book, i).rewards == chosen(d.book, i).rewards + seq![
                quest::RewardModel::Xp {
                    id: naming::id_of(naming::next_state(d.id_state)),
                    amount: n,
                    raw: None,
                },
            ]
        }),
{
    law_quest_is_chosen_by_its_number(
        d.book,
        interactive::line_of(number),
        (i + 1) as nat,
    );
    law_amount_is_read(interactive::line_of(amount), n as nat, 10);
    let reward = quest::RewardModel::Xp {
        id: naming::id_of(naming::next_state(d.id_state)),
        amount: n,
        raw: None,
    };
    assert(chosen(d.book, i).rewards.push(reward) =~= chosen(d.book, i).rewards + seq![reward]);
}

/// A reward of items is complete with its item and its number, one where nothing is answered.
pub proof fn law_item_reward_is_added(
    d: DialogModel,
    number: Seq<char>,
    kind: Seq<char>,
    item: Seq<char>,
    count: Seq<char>,
    i: int,
    n: u32,
    x: quest::NumberModel,
    y: quest::NumberModel,
)
    requires
        d.stage == StageModel::RewardQuest,
        d.book.chapters.len() > 0,
        0 <= i < d.book.chapters[0].quests.len() <= usize::MAX,
        n > 0,
        text::trimmed(interactive::line_of(number)) == compose::decimal((i + 1) as nat),
        text::trimmed(interactive::line_of(kind)) == "2"@,
        text::trimmed(interactive::line_of(item)).len() > 0,
        text::trimmed(interactive::line_of(count)) == compose::decimal(n as nat) || n == 1
            && text::trimmed(interactive::line_of(count)).len() == 0,
    ensures
        ({
            let d2 = interactive::reply(d, number, x, y).dialog;
            let d3 = interactive::reply(d2, kind, x, y).dialog;
            let d4 = interactive::reply(d3, item, x, y).dialog;
            let r = interactive::reply(d4, count, x, y);
            &&& back_in_menu(r)
            &&& one_quest_grew(r.dialog.book, d.book, i)
            &&& chosen(r.dialog.book, i).tasks == chosen(d.book, i).tasks
            &&& chosen(r.dialog.book, i).dependencies == chosen(d.book, i).dependencies
            &&& chosen(r.dialog.book, i).rewards == chosen(d.book, i).rewards + seq![
                quest::RewardModel::Item {
                    id: naming::id_of(naming::next_state(d.id_state)),
                    item: interactive::line_of(item),
                    count: n,
                    raw: None,
                },
            ]
        }),
{
    reveal_strlit("1");
    reveal_strlit("2");
    assert("1"@[0] == '1');
    assert("2"@[0] == '2');
    law_quest_is_chosen_by_its_number(
        d.book,
        interactive::line_of(number),
        (i + 1) as nat,
    );
    law_amount_is_read(interactive::line_of(count), n as nat, 1);
    let reward = quest::RewardModel::Item {
        id: naming::id_of(naming::next_state(d.id_state)),
        item: interactive::line_of(item),
        count: n,
        raw: None,
    };
    assert(chosen(d.book, i).rewards.push(reward) =~= chosen(d.book, i).rewards + seq![reward]);
}

/// Of two quests that are chosen one after the other the first one depends on the second one from
/// then on; a quest does not come to depend on itself, nor twice on another.
pub proof fn law_requirement_is_added(
    d: DialogModel,
    first: Seq<char>,
    second: Seq<char>,
    i: int,
    k: int,
    x: quest::NumberModel,
    y: quest::NumberModel,
)
    requires
        d.stage == StageModel::DependentQuest,
        d.book.chapters.len() > 0,
        0 <= i < d.book.chapters[0].quests.len() <= usize::MAX,
        0 <= k < d.book.chapters[0].quests.len(),
        text::trimmed(interactive::line_of(first)) == compose::decimal((i + 1) as nat),
        text::trimmed(interactive::line_of(second)) == compose::decimal((k + 1) as nat),
    ensures
        ({
            let d2 = interactive::reply(d, first, x, y).dialog;
            let r = interactive::reply(d2, second, x, y);
            let id = chosen(d.book, k).id;
            &&& back_in_menu(r)
            &&& r.dialog.id_state == d.id_state
            &&& i == k ==> r.dialog.book == d.book
            &&& i != k ==> {
                &&& one_quest_grew(r.dialog.book, d.book, i)
                &&& chosen(r.dialog.book, i).tasks == chosen(d.book, i).tasks
                &&& chosen(r.dialog.book, i).rewards == chosen(d.book, i).rewards
                &&& chosen(d.book, i).dependencies.contains(id) ==> chosen(
                    r.dialog.book,
                    i,
                ).dependencies == chosen(d.book, i).dependencies
                &&& !chosen(d.book, i).dependencies.contains(id) ==> chosen(
                    r.dialog.book,
                    i,
                ).dependencies == chosen(d.book, i).dependencies + seq![id]
            }
        }),
{
    law_quest_is_chosen_by_its_number(d.book, interactive::line_of(first), (i + 1) as nat);
    law_quest_is_chosen_by_its_number(d.book, interactive::line_of(second), (k + 1) as nat);
    let old_ids = chosen(d.book, i).dependencies;
    let id = chosen(d.book, k).id;
    assert(old_ids.push(id) =~= old_ids + seq![id]);
}

// ---------------------------------------------------------------------------
// Turns
// ---------------------------------------------------------------------------

/// Whatever is answered, the place of the book stays, and the book stays too where the dialog does
/// not come back to the menu.
pub proof fn law_book_changes_in_the_menu_only(
    d: DialogModel,
    line: Seq<char>,
    x: quest::NumberModel,
    y: quest::NumberModel,
)
    ensures
        interactive::reply(d, line, x, y).dialog.quests_root == d.quests_root,
        interactive::reply(d, line, x, y).dialog.stage != StageModel::Menu ==> interactive::reply(
            d,
            line,
            x,
            y,
        ).dialog.book == d.book,
        d.stage == StageModel::Menu ==> interactive::reply(d, line, x, y).dialog.book == d.book,
{
}

/// A text that must be given and is blank ends the dialog, and what is missing is told.
pub proof fn law_blank_answers_are_refused(
    d: DialogModel,
    line: Seq<char>,
    x: quest::NumberModel,
    y: quest::NumberModel,
)
    requires
        text::trimmed(interactive::line_of(line)).len() == 0,
    ensures
        ({
            let r = interactive::reply(d, line, x, y);
            let refused = |field: Seq<char>|
                r.action == ActionModel::Missing(field) && r.dialog.stage == StageModel::Over
                    && r.dialog.book == d.book;
            &&& d.stage is Title ==> refused("Название книги"@)
            &&& d.stage is ChapterTitle ==> refused("Название главы"@)
            &&& d.stage is QuestTitle ==> refused("Название квеста"@)
            &&& d.stage is TaskTitle ==> refused("Название задачи"@)
            &&& d.stage is TaskItem || d.stage is RewardItem ==> refused("ID предмета"@)
            &&& d.stage is TaskEntity ==> refused("ID сущности"@)
        }),
{
}

/// A wrong number asks once more for the same thing and changes nothing; a cancelled choice goes
/// back to the menu.
pub proof fn law_wrong_numbers_are_asked_again(
    d: DialogModel,
    line: Seq<char>,
    x: quest::NumberModel,
    y: quest::NumberModel,
)
    ensures
        ({
            let r = interactive::reply(d, line, x, y);
            let picking = d.stage is TaskQuest || d.stage is RewardQuest || d.stage
                is DependentQuest || d.stage is RequiredQuest;
            let counting = d.stage is TaskItemCount || d.stage is TaskEntityCount || d.stage
                is RewardXp || d.stage is RewardItemCount;
            let answer = interactive::line_of(line);
            &&& picking && interactive::choice(d.book, answer) == Choice::Wrong ==> r.action
                == ActionModel::Read && r.dialog == d
            &&& picking && interactive::choice(d.book, answer) == Choice::Cancelled
                ==> back_in_menu(r) && r.dialog.book == d.book && r.dialog.id_state == d.id_state
            &&& counting && interactive::amount(answer, 1) is None ==> r.action == ActionModel::Read
                && r.dialog == d
        }),
{
    assert(interactive::amount(interactive::line_of(line), 1) is None ==> interactive::amount(
        interactive::line_of(line),
        10,
    ) is None);
}

/// The menu leads where its lines say; a quest can be chosen only where there is one, and two are
/// needed to connect them. What is no line of it changes nothing.
pub proof fn law_menu_leads_on(
    d: DialogModel,
    line: Seq<char>,
    x: quest::NumberModel,
    y: quest::NumberModel,
)
    requires
        d.stage == StageModel::Menu,
    ensures
        ({
            let r = interactive::reply(d, line, x, y);
            let command = text::trimmed(interactive::line_of(line));
            let n = if d.book.chapters.len() > 0 {
                d.book.chapters[0].quests.len()
            } else {
                0nat
            };
            &&& r.dialog == (DialogModel { stage: r.dialog.stage, ..d })
            &&& command == "1"@ ==> r.dialog.stage == StageModel::QuestTitle
            &&& command == "2"@ ==> r.dialog.stage == if n > 0 {
                StageModel::TaskQuest
            } else {
                StageModel::Menu
            }
            &&& command == "3"@ ==> r.dialog.stage == if n > 1 {
                StageModel::DependentQuest
            } else {
                StageModel::Menu
            }
            &&& command == "4"@ ==> r.dialog.stage == if n > 0 {
                StageModel::RewardQuest
            } else {
                StageModel::Menu
            }
            &&& command == "5"@ ==> back_in_menu(r)
            &&& command == "6"@ ==> r.action == ActionModel::Save && r.dialog.stage
                == (StageModel::Saving { exit: false })
            &&& command == "0"@ ==> r.action == ActionModel::Save && r.dialog.stage
                == (StageModel::Saving { exit: true })
            &&& r.action == ActionModel::Save ==> command == "6"@ || command == "0"@
            &&& command.len() != 1 ==> back_in_menu(r)
        }),
{
    reveal_strlit("0");
    reveal_strlit("1");
    reveal_strlit("2");
    reveal_strlit("3");
    reveal_strlit("4");
    reveal_strlit("5");
    reveal_strlit("6");
    assert("0"@[0] == '0' && "1"@[0] == '1' && "2"@[0] == '2' && "3"@[0] == '3');
    assert("4"@[0] == '4' && "5"@[0] == '5' && "6"@[0] == '6');
}

/// After saving the dialog says where the book is; it goes on in the menu, or stops where that was
/// asked for. An error while saving stops it.
pub proof fn law_saving_is_told(d: DialogModel, exit: bool, error: EditorError)
    ensures
        ({
            let after = DialogModel { stage: StageModel::Saving { exit }, ..d };
            let r = interactive::saved_reply(after, None);
            &&& r.dialog.book == d.book
            &&& text::has_text(r.output, d.quests_root)
            &&& exit ==> r.action == ActionModel::Stop && r.dialog.stage == StageModel::Over
            &&& !exit ==> back_in_menu(r)
            &&& interactive::saved_reply(after, Some(error)).action == ActionModel::Fail(error)
            &&& interactive::saved_reply(after, Some(error)).dialog.stage == StageModel::Over
        }),
{
    let after = DialogModel { stage: StageModel::Saving { exit }, ..d };
    let r = interactive::saved_reply(after, None);
    let start = "Сохранено в "@;
    assert(r.output.subrange(start.len() as int, (start.len() + d.quests_root.len()) as int)
        =~= d.quests_root);
    assert(text::stands_at(r.output, d.quests_root, start.len() as int));
}

/// The list of the quests holds a line for each, with its number, its title and its id.
pub proof fn law_quests_are_listed(book: editor::BookModel, n: int)
    requires
        0 <= n,
    ensures
        interactive::quest_lines(book, 0).len() == 0,
        interactive::summary_lines(book, 0).len() == 0,
        interactive::quest_lines(book, n + 1) == interactive::quest_lines(book, n)
            + interactive::quest_line(book, n),
        interactive::summary_lines(book, n + 1) == interactive::summary_lines(book, n)
            + interactive::summary_line(book, n),
{
}

// ---------------------------------------------------------------------------
// File names
// ---------------------------------------------------------------------------

spec fn is_word(s: Seq<char>) -> bool {
    forall|i: int| 0 <= i < s.len() ==> text::ascii_alphanumeric(#[trigger] s[i])
}

spec fn is_gap(s: Seq<char>) -> bool {
    forall|i: int| 0 <= i < s.len() ==> !text::ascii_alphanumeric(#[trigger] s[i])
}

proof fn lemma_slug_word(x: Seq<char>, w: Seq<char>)
    requires
        is_word(w),
    ensures
        naming::slug_chars(x + w) == naming::slug_chars(x) + Seq::new(
            w.len(),
            |i: int| text::ascii_lower(w[i]),
        ),
    decreases w.len(),
{
    let lowered = Seq::new(w.len(), |i: int| text::ascii_lower(w[i]));
    if w.len() == 0 {
        assert(x + w =~= x);
        assert(naming::slug_chars(x) + lowered =~= naming::slug_chars(x));
    } else {
        let front = w.drop_last();
        assert(is_word(front)) by {
            assert forall|i: int| 0 <= i < front.len() implies text::ascii_alphanumeric(
                #[trigger] front[i],
            ) by {
                assert(front[i] == w[i]);
            }
        }
        lemma_slug_word(x, front);
        assert((x + w).drop_last() =~= x + front);
        assert((x + w).last() == w[w.len() - 1]);
        assert(naming::slug_chars(x + w) =~= naming::slug_chars(x) + lowered);
    }
}

proof fn lemma_slug_gap(x: Seq<char>, gap: Seq<char>)
    requires
        is_gap(gap),
    ensures
        ({
            let front = naming::slug_chars(x);
            naming::slug_chars(x + gap) == (if gap.len() > 0 && front.len() > 0 && front.last()
                != '_' {
                front.push('_')
            } else {
                front
            })
        }),
    decreases gap.len(),
{
    if gap.len() == 0 {
        assert(x + gap =~= x);
    } else {
        let shorter = gap.drop_last();
        assert(is_gap(shorter)) by {
            assert forall|i: int| 0 <= i < shorter.len() implies !text::ascii_alphanumeric(
                #[trigger] shorter[i],
            ) by {
                assert(shorter[i] == gap[i]);
            }
        }
        lemma_slug_gap(x, shorter);
        assert((x + gap).drop_last() =~= x + shorter);
        assert((x + gap).last() == gap[gap.len() - 1]);
    }
}

proof fn lemma_slug_tail(x: Seq<char>, y: Seq<char>)
    requires
        y.len() > 0,
        text::ascii_alphanumeric(y[0]),
    ensures
        naming::slug_chars(y).len() > 0,
        naming::slug_chars(y)[0] == text::ascii_lower(y[0]),
        naming::slug_chars(x + y) == naming::slug_chars(x) + naming::slug_chars(y),
    decreases y.len(),
{
    let front = y.drop_last();
    assert((x + y).drop_last() =~= x + front);
    assert((x + y).last() == y.last());
    if y.len() == 1 {
        assert(front =~= Seq::empty());
        assert(x + front =~= x);
        assert(naming::slug_chars(front).len() == 0);
        assert(naming::slug_chars(y) =~= seq![text::ascii_lower(y[0])]);
        assert(naming::slug_chars(x + y) =~= naming::slug_chars(x) + naming::slug_chars(y));
    } else {
        assert(front[0] == y[0]);
        lemma_slug_tail(x, front);
        let before = naming::slug_chars(front);
        assert((naming::slug_chars(x) + before).last() == before.last());
        assert(naming::slug_chars(x + y) =~= naming::slug_chars(x) + naming::slug_chars(y));
    }
}

/// A file name is made of the letters and digits of a title: its words in small letters, and one
/// underscore for all that stands between two of them. What stands before the first word and
/// behind the last one is dropped, and a title without a word gives the name of the main chapter.
pub proof fn law_words_make_a_file_name(word: Seq<char>, gap: Seq<char>, rest: Seq<char>)
    requires
        word.len() > 0,
        forall|i: int| 0 <= i < word.len() ==> text::ascii_alphanumeric(#[trigger] word[i]),
        gap.len() > 0,
        forall|i: int| 0 <= i < gap.len() ==> !text::ascii_alphanumeric(#[trigger] gap[i]),
        rest.len() > 0,
        text::ascii_alphanumeric(rest[0]),
    ensures
        ({
            let lowered = Seq::new(word.len(), |i: int| text::ascii_lower(word[i]));
            &&& naming::slug(word) == lowered
            &&& naming::slug(word + gap) == lowered
            &&& naming::slug(gap) == "main"@
            &&& naming::slug(gap + rest) == naming::slug(rest)
            &&& naming::slug(word + gap + rest) == lowered.push('_') + naming::slug(rest)
        }),
{
    let none = Seq::<char>::empty();
    let lowered = Seq::new(word.len(), |i: int| text::ascii_lower(word[i]));
    assert(naming::slug_chars(none) =~= none);
    lemma_slug_word(none, word);
    assert(none + word =~= word);
    assert(none + lowered =~= lowered);
    assert(text::ascii_alphanumeric(word[word.len() - 1]));
    assert(lowered.last() != '_');
    lemma_slug_gap(word, gap);
    assert(lowered.push('_').drop_last() =~= lowered);
    lemma_slug_gap(none, gap);
    assert(none + gap =~= gap);
    lemma_slug_tail(gap, rest);
    assert(none + naming::slug_chars(rest) =~= naming::slug_chars(rest));
    lemma_slug_tail(word + gap, rest);
    let tail = naming::slug_chars(rest);
    assert(tail[0] != '_');
    let all = lowered.push('_') + tail;
    assert(all.last() == tail.last());
    if tail.last() == '_' {
        assert(all.drop_last() =~= lowered.push('_') + tail.drop_last());
        assert(tail.drop_last().len() > 0);
    }
}

} // verus!
