//! Making a book in a dialog: one question after the other.

use crate::compose;
use crate::compose::{holds_text, number};
use crate::digits;
use crate::digits::parse_number;
use crate::editor;
use crate::editor::{make_quest, EditableBook, EditorError};
use crate::naming;
use crate::naming::{slugify, IdGenerator};
use crate::order;
use crate::quest;
use crate::quest::{Number, Quest, Reward, Task};
use crate::session;
use crate::text;
use crate::translation;
use crate::translation::TranslationCatalog;
use vstd::prelude::*;

verus! {

// ---------------------------------------------------------------------------
// Lines
// ---------------------------------------------------------------------------

/// The line without the characters that end it.
pub open spec fn line_of(s: Seq<char>) -> Seq<char>
    decreases s.len(),
{
    if s.len() > 0 && (s.last() == '\r' || s.last() == '\n') {
        line_of(s.drop_last())
    } else {
        s
    }
}

/// The line without the characters that end it.
pub fn trim_line_end(line: &str) -> (r: String)
    ensures
        r@ == line_of(line@),
{
    let chars = text::chars_of(line);
    let mut n: usize = chars.len();
    assert(line@.take(n as int) =~= line@);
    while n > 0 && (chars[n - 1] == '\r' || chars[n - 1] == '\n')
        invariant
            n <= chars@.len(),
            chars@ == line@,
            line_of(line@) == line_of(line@.take(n as int)),
        decreases n,
    {
        proof {
            assert(line@.take(n as int).last() == line@[n - 1]);
            assert(line@.take(n as int).drop_last() =~= line@.take(n - 1));
        }
        n -= 1;
    }
    proof {
        if n > 0 {
            assert(line@.take(n as int).last() == line@[n - 1]);
        }
        assert(chars@.subrange(0, n as int) =~= line@.take(n as int));
    }
    text::part(&chars, 0, n)
}

// ---------------------------------------------------------------------------
// The dialog
// ---------------------------------------------------------------------------

/// What was asked last.
#[derive(Debug, Clone)]
pub enum Stage {
    Title,
    ChapterTitle { title: String },
    Filename { title: String, chapter_title: String },
    Menu,
    QuestTitle,
    QuestDescription { title: String },
    TaskQuest,
    TaskKind { index: usize },
    TaskTitle { index: usize, kind: String },
    TaskItem { index: usize, id: String, title: String },
    TaskItemCount { index: usize, id: String, title: String, item: String },
    TaskEntity { index: usize, id: String, title: String },
    TaskEntityCount { index: usize, id: String, title: String, entity: String },
    DependentQuest,
    RequiredQuest { quest_index: usize },
    RewardQuest,
    RewardKind { index: usize },
    RewardXp { index: usize, id: String },
    RewardItem { index: usize, id: String },
    RewardItemCount { index: usize, id: String, item: String },
    Saving { exit: bool },
    Over,
}

/// The mathematical form of what was asked last.
#[verifier::ext_equal]
pub ghost enum StageModel {
    Title,
    ChapterTitle { title: Seq<char> },
    Filename { title: Seq<char>, chapter_title: Seq<char> },
    Menu,
    QuestTitle,
    QuestDescription { title: Seq<char> },
    TaskQuest,
    TaskKind { index: usize },
    TaskTitle { index: usize, kind: Seq<char> },
    TaskItem { index: usize, id: Seq<char>, title: Seq<char> },
    TaskItemCount { index: usize, id: Seq<char>, title: Seq<char>, item: Seq<char> },
    TaskEntity { index: usize, id: Seq<char>, title: Seq<char> },
    TaskEntityCount { index: usize, id: Seq<char>, title: Seq<char>, entity: Seq<char> },
    DependentQuest,
    RequiredQuest { quest_index: usize },
    RewardQuest,
    RewardKind { index: usize },
    RewardXp { index: usize, id: Seq<char> },
    RewardItem { index: usize, id: Seq<char> },
    RewardItemCount { index: usize, id: Seq<char>, item: Seq<char> },
    Saving { exit: bool },
    Over,
}

impl View for Stage {
    type V = StageModel;

    open spec fn view(&self) -> StageModel {
        match self {
            Stage::Title => StageModel::Title,
            Stage::ChapterTitle { title } => StageModel::ChapterTitle { title: title@ },
            Stage::Filename { title, chapter_title } => StageModel::Filename {
                title: title@,
                chapter_title: chapter_title@,
            },
            Stage::Menu => StageModel::Menu,
            Stage::QuestTitle => StageModel::QuestTitle,
            Stage::QuestDescription { title } => StageModel::QuestDescription { title: title@ },
            Stage::TaskQuest => StageModel::TaskQuest,
            Stage::TaskKind { index } => StageModel::TaskKind { index: *index },
            Stage::TaskTitle { index, kind } => StageModel::TaskTitle {
                index: *index,
                kind: kind@,
            },
            Stage::TaskItem { index, id, title } => StageModel::TaskItem {
                index: *index,
                id: id@,
                title: title@,
            },
            Stage::TaskItemCount { index, id, title, item } => StageModel::TaskItemCount {
                index: *index,
                id: id@,
                title: title@,
                item: item@,
            },
            Stage::TaskEntity { index, id, title } => StageModel::TaskEntity {
                index: *index,
                id: id@,
                title: title@,
            },
            Stage::TaskEntityCount { index, id, title, entity } => StageModel::TaskEntityCount {
                index: *index,
                id: id@,
                title: title@,
                entity: entity@,
            },
            Stage::DependentQuest => StageModel::DependentQuest,
            Stage::RequiredQuest { quest_index } => StageModel::RequiredQuest {
                quest_index: *quest_index,
            },
            Stage::RewardQuest => StageModel::RewardQuest,
            Stage::RewardKind { index } => StageModel::RewardKind { index: *index },
            Stage::RewardXp { index, id } => StageModel::RewardXp { index: *index, id: id@ },
            Stage::RewardItem { index, id } => StageModel::RewardItem { index: *index, id: id@ },
            Stage::RewardItemCount { index, id, item } => StageModel::RewardItemCount {
                index: *index,
                id: id@,
                item: item@,
            },
            Stage::Saving { exit } => StageModel::Saving { exit: *exit },
            Stage::Over => StageModel::Over,
        }
    }
}

/// A dialog: what was asked last, the book as far as it has come, and where it is saved.
pub struct Dialog {
    pub stage: Stage,
    pub book: EditableBook,
    pub ids: IdGenerator,
    pub quests_root: String,
}

/// The mathematical form of a dialog.
#[verifier::ext_equal]
pub ghost struct DialogModel {
    pub stage: StageModel,
    pub book: editor::BookModel,
    pub id_state: u64,
    pub quests_root: Seq<char>,
}

impl View for Dialog {
    type V = DialogModel;

    open spec fn view(&self) -> DialogModel {
        DialogModel {
            stage: self.stage@,
            book: self.book@,
            id_state: self.ids.state,
            quests_root: self.quests_root@,
        }
    }
}

/// What is to be done after something has been written: to read a line, to save the book, or to
/// stop, with an error if there is one.
#[derive(Debug, Clone)]
pub enum DialogAction {
    Read,
    Save,
    Stop,
    Fail(EditorError),
}

/// The mathematical form of what is to be done.
pub ghost enum ActionModel {
    Read,
    Save,
    Stop,
    Fail(EditorError),
    Missing(Seq<char>),
}

/// The action is the one that is meant.
pub open spec fn is_action(action: DialogAction, model: ActionModel) -> bool {
    match model {
        ActionModel::Read => action is Read,
        ActionModel::Save => action is Save,
        ActionModel::Stop => action is Stop,
        ActionModel::Fail(error) => action == DialogAction::Fail(error),
        ActionModel::Missing(field) => action matches DialogAction::Fail(EditorError::EmptyInput(f))
            && f@ == field,
    }
}

/// What is written, and what is to be done then.
pub struct Turn {
    pub output: String,
    pub action: DialogAction,
}

/// What comes of an answer: the dialog, what is written, and what is to be done then.
pub ghost struct Reply {
    pub dialog: DialogModel,
    pub output: Seq<char>,
    pub action: ActionModel,
}

/// The turn is what comes of an answer.
pub open spec fn is_reply(dialog: DialogModel, turn: Turn, reply: Reply) -> bool {
    &&& dialog == reply.dialog
    &&& turn.output@ == reply.output
    &&& is_action(turn.action, reply.action)
}

// ---------------------------------------------------------------------------
// What is asked
// ---------------------------------------------------------------------------

/// What can be chosen.
pub open spec fn menu_text() -> Seq<char> {
    "\n1. Добавить квест\n2. Добавить задачу к квесту\n3. Связать квесты зависимостью\n4. Добавить награду\n5. Показать книгу\n6. Сохранить\n0. Сохранить и выйти\nВыбор: "@
}

/// A question.
pub open spec fn asking(d: DialogModel, stage: StageModel, output: Seq<char>) -> Reply {
    Reply { dialog: DialogModel { stage, ..d }, output, action: ActionModel::Read }
}

/// Back to what can be chosen.
pub open spec fn to_menu(d: DialogModel, output: Seq<char>) -> Reply {
    asking(d, StageModel::Menu, output + menu_text())
}

/// The dialog ends because an answer is missing.
pub open spec fn missing(d: DialogModel, field: Seq<char>) -> Reply {
    Reply {
        dialog: DialogModel { stage: StageModel::Over, ..d },
        output: Seq::empty(),
        action: ActionModel::Missing(field),
    }
}

/// Nothing was said.
pub open spec fn is_blank(s: Seq<char>) -> bool {
    text::trimmed(s).len() == 0
}

/// The quests of the first chapter.
pub open spec fn first_quests(book: editor::BookModel) -> Seq<quest::QuestModel> {
    if book.chapters.len() > 0 {
        book.chapters[0].quests
    } else {
        Seq::empty()
    }
}

/// The book with other quests in its first chapter.
pub open spec fn with_first_quests(
    book: editor::BookModel,
    quests: Seq<quest::QuestModel>,
) -> editor::BookModel {
    if book.chapters.len() > 0 {
        editor::with_chapters(
            book,
            book.chapters.update(0, editor::with_quests(book.chapters[0], quests)),
        )
    } else {
        book
    }
}

/// The quests with one changed.
pub open spec fn with_changed(
    book: editor::BookModel,
    index: int,
    quest: quest::QuestModel,
) -> editor::BookModel {
    if 0 <= index < first_quests(book).len() {
        with_first_quests(book, first_quests(book).update(index, quest))
    } else {
        book
    }
}

/// A quest in a list of quests.
pub open spec fn quest_line(book: editor::BookModel, i: int) -> Seq<char> {
    let quest = first_quests(book)[i];
    "  "@ + compose::decimal((i + 1) as nat) + ". "@ + translation::shown(
        book.translations,
        quest.title,
    ) + " ["@ + quest.id + "]\n"@
}

/// The first `n` quests in a list of quests.
pub open spec fn quest_lines(book: editor::BookModel, n: int) -> Seq<char>
    decreases n,
{
    if n <= 0 {
        Seq::empty()
    } else {
        quest_lines(book, n - 1) + quest_line(book, n - 1)
    }
}

/// The question for a quest.
pub open spec fn quest_question(book: editor::BookModel, question: Seq<char>) -> Seq<char> {
    question + "\n"@ + quest_lines(book, first_quests(book).len() as int)
        + "Номер квеста (0 — отмена): "@
}

/// Asking for a quest, if there is one.
pub open spec fn choosing(d: DialogModel, stage: StageModel, question: Seq<char>) -> Reply {
    if first_quests(d.book).len() == 0 {
        to_menu(d, "Сначала добавьте хотя бы один квест.\n"@)
    } else {
        asking(d, stage, quest_question(d.book, question))
    }
}

/// What an answer to the question for a quest says.
pub ghost enum Choice {
    Cancelled,
    Chosen(int),
    Wrong,
}

/// What an answer to the question for a quest says.
pub open spec fn choice(book: editor::BookModel, answer: Seq<char>) -> Choice {
    match digits::number_in(text::trimmed(answer), usize::MAX as nat) {
        Some(n) => if n == 0 {
            Choice::Cancelled
        } else if n <= first_quests(book).len() {
            Choice::Chosen(n - 1)
        } else {
            Choice::Wrong
        },
        None => Choice::Wrong,
    }
}

/// Asking for a quest again.
pub open spec fn choosing_again(d: DialogModel) -> Reply {
    asking(d, d.stage, "Введите номер из списка.\nНомер квеста (0 — отмена): "@)
}

/// What an answer to the question for a number says: the default if nothing was said.
pub open spec fn amount(answer: Seq<char>, default: u32) -> Option<u32> {
    if is_blank(answer) {
        Some(default)
    } else {
        match digits::number_in(text::trimmed(answer), u32::MAX as nat) {
            Some(n) => if n > 0 {
                Some(n as u32)
            } else {
                None
            },
            None => None,
        }
    }
}

/// Asking for a number again.
pub open spec fn counting_again(d: DialogModel, question: Seq<char>) -> Reply {
    asking(d, d.stage, "Введите положительное целое число.\n"@ + question)
}

/// The quests of the first chapter, each on a line.
pub open spec fn summary_line(book: editor::BookModel, i: int) -> Seq<char> {
    let quest = first_quests(book)[i];
    compose::decimal((i + 1) as nat) + ". "@ + translation::shown(book.translations, quest.title)
        + " ["@ + quest.id + "] — задач: "@ + compose::decimal(quest.tasks.len()) + ", наград: "@
        + compose::decimal(quest.rewards.len()) + ", зависимостей: "@ + compose::decimal(
        quest.dependencies.len(),
    ) + "\n"@
}

/// The first `n` quests, each on a line.
pub open spec fn summary_lines(book: editor::BookModel, n: int) -> Seq<char>
    decreases n,
{
    if n <= 0 {
        Seq::empty()
    } else {
        summary_lines(book, n - 1) + summary_line(book, n - 1)
    }
}

/// The book as it is shown.
pub open spec fn book_text(book: editor::BookModel) -> Seq<char> {
    let (title, filename) = if book.chapters.len() > 0 {
        (
            translation::shown(book.translations, book.chapters[0].title),
            book.chapters[0].filename,
        )
    } else {
        (Seq::empty(), Seq::empty())
    };
    "\nКнига: "@ + translation::shown(book.translations, book.title) + "\nГлава: "@ + title + " ("@
        + filename + ")\n"@ + (if first_quests(book).len() == 0 {
        "Квестов пока нет.\n"@
    } else {
        summary_lines(book, first_quests(book).len() as int)
    })
}

// ---------------------------------------------------------------------------
// What an answer does
// ---------------------------------------------------------------------------

/// The book with a task more of a quest.
pub open spec fn with_task(
    book: editor::BookModel,
    index: usize,
    task: quest::TaskModel,
) -> editor::BookModel {
    let quest = first_quests(book)[index as int];
    with_changed(
        book,
        index as int,
        quest::QuestModel { tasks: quest.tasks.push(task), ..quest },
    )
}

/// The book with a reward more of a quest.
pub open spec fn with_reward(
    book: editor::BookModel,
    index: usize,
    reward: quest::RewardModel,
) -> editor::BookModel {
    let quest = first_quests(book)[index as int];
    with_changed(
        book,
        index as int,
        quest::QuestModel { rewards: quest.rewards.push(reward), ..quest },
    )
}

/// What comes of a task.
pub open spec fn task_added(d: DialogModel, index: usize, task: quest::TaskModel) -> Reply {
    to_menu(
        DialogModel { book: with_task(d.book, index, task), ..d },
        "Задача добавлена.\n"@,
    )
}

/// What comes of a reward.
pub open spec fn reward_added(d: DialogModel, index: usize, reward: quest::RewardModel) -> Reply {
    to_menu(
        DialogModel { book: with_reward(d.book, index, reward), ..d },
        "Награда добавлена.\n"@,
    )
}

/// What comes of the answer to what can be chosen.
pub open spec fn menu_reply(d: DialogModel, answer: Seq<char>) -> Reply {
    let command = text::trimmed(answer);
    if command == "1"@ {
        asking(d, StageModel::QuestTitle, "Название квеста: "@)
    } else if command == "2"@ {
        choosing(d, StageModel::TaskQuest, "К какому квесту добавить задачу?"@)
    } else if command == "3"@ {
        if first_quests(d.book).len() < 2 {
            to_menu(d, "Для связи нужно хотя бы два квеста.\n"@)
        } else {
            choosing(d, StageModel::DependentQuest, "Какой квест будет зависимым?"@)
        }
    } else if command == "4"@ {
        choosing(d, StageModel::RewardQuest, "К какому квесту добавить награду?"@)
    } else if command == "5"@ {
        to_menu(d, book_text(d.book))
    } else if command == "6"@ {
        Reply {
            dialog: DialogModel { stage: StageModel::Saving { exit: false }, ..d },
            output: Seq::empty(),
            action: ActionModel::Save,
        }
    } else if command == "0"@ {
        Reply {
            dialog: DialogModel { stage: StageModel::Saving { exit: true }, ..d },
            output: Seq::empty(),
            action: ActionModel::Save,
        }
    } else {
        to_menu(d, "Неизвестный пункт меню.\n"@)
    }
}

/// What comes of the answers from which the book is made.
pub open spec fn opening_reply(d: DialogModel, answer: Seq<char>) -> Reply {
    match d.stage {
        StageModel::Title => if is_blank(answer) {
            missing(d, "Название книги"@)
        } else {
            asking(d, StageModel::ChapterTitle { title: answer }, "Название первой главы: "@)
        },
        StageModel::ChapterTitle { title } => if is_blank(answer) {
            missing(d, "Название главы"@)
        } else {
            asking(
                d,
                StageModel::Filename { title, chapter_title: answer },
                "Имя файла главы ["@ + naming::slug(answer) + "]: "@,
            )
        },
        StageModel::Filename { title, chapter_title } => {
            let state = naming::next_state(d.id_state);
            let filename = if is_blank(answer) {
                naming::slug(chapter_title)
            } else {
                naming::slug(answer)
            };
            to_menu(
                DialogModel {
                    book: editor::new_book(
                        title,
                        chapter_title,
                        filename,
                        naming::id_of(state),
                    ),
                    id_state: state,
                    ..d
                },
                Seq::empty(),
            )
        },
        _ => asking(d, d.stage, Seq::empty()),
    }
}

/// What comes of the answers about a new quest.
pub open spec fn quest_reply(
    d: DialogModel,
    answer: Seq<char>,
    x: quest::NumberModel,
    y: quest::NumberModel,
) -> Reply {
    match d.stage {
        StageModel::QuestTitle => if is_blank(answer) {
            missing(d, "Название квеста"@)
        } else {
            asking(
                d,
                StageModel::QuestDescription { title: answer },
                "Описание (можно оставить пустым): "@,
            )
        },
        StageModel::QuestDescription { title } => {
            let state = naming::next_state(d.id_state);
            let id = naming::id_of(state);
            let quests = first_quests(d.book);
            to_menu(
                DialogModel {
                    book: with_first_quests(
                        d.book,
                        quests.push(editor::new_quest(id, title, answer, x, y)),
                    ),
                    id_state: state,
                    ..d
                },
                "Добавлен квест #"@ + compose::decimal(quests.len() + 1) + " с ID "@ + id
                    + ".\n"@,
            )
        },
        _ => asking(d, d.stage, Seq::empty()),
    }
}

/// What comes of the answers about a new task.
pub open spec fn task_reply(d: DialogModel, answer: Seq<char>) -> Reply {
    match d.stage {
        StageModel::TaskQuest => match choice(d.book, answer) {
            Choice::Cancelled => to_menu(d, Seq::empty()),
            Choice::Chosen(i) => asking(
                d,
                StageModel::TaskKind { index: i as usize },
                "Тип задачи: 1 — отметка, 2 — предмет, 3 — убийство\nТип: "@,
            ),
            Choice::Wrong => choosing_again(d),
        },
        StageModel::TaskKind { index } => asking(
            d,
            StageModel::TaskTitle { index, kind: answer },
            "Название задачи: "@,
        ),
        StageModel::TaskTitle { index, kind } => {
            let state = naming::next_state(d.id_state);
            let id = naming::id_of(state);
            let drawn = DialogModel { id_state: state, ..d };
            if is_blank(answer) {
                missing(d, "Название задачи"@)
            } else if text::trimmed(kind) == "1"@ {
                task_added(
                    drawn,
                    index,
                    quest::TaskModel::Checkmark { id, title: answer, raw: None },
                )
            } else if text::trimmed(kind) == "2"@ {
                asking(
                    drawn,
                    StageModel::TaskItem { index, id, title: answer },
                    "ID предмета (например minecraft:stone): "@,
                )
            } else if text::trimmed(kind) == "3"@ {
                asking(
                    drawn,
                    StageModel::TaskEntity { index, id, title: answer },
                    "ID сущности (например minecraft:zombie): "@,
                )
            } else {
                to_menu(d, "Неизвестный тип задачи.\n"@)
            }
        },
        StageModel::TaskItem { index, id, title } => if is_blank(answer) {
            missing(d, "ID предмета"@)
        } else {
            asking(
                d,
                StageModel::TaskItemCount { index, id, title, item: answer },
                "Количество [1]: "@,
            )
        },
        StageModel::TaskItemCount { index, id, title, item } => match amount(answer, 1) {
            Some(count) => task_added(
                d,
                index,
                quest::TaskModel::Item { id, title, item, count, raw: None },
            ),
            None => counting_again(d, "Количество [1]: "@),
        },
        StageModel::TaskEntity { index, id, title } => if is_blank(answer) {
            missing(d, "ID сущности"@)
        } else {
            asking(
                d,
                StageModel::TaskEntityCount { index, id, title, entity: answer },
                "Количество [1]: "@,
            )
        },
        StageModel::TaskEntityCount { index, id, title, entity } => match amount(answer, 1) {
            Some(count) => task_added(
                d,
                index,
                quest::TaskModel::Kill { id, title, entity, count, raw: None },
            ),
            None => counting_again(d, "Количество [1]: "@),
        },
        _ => asking(d, d.stage, Seq::empty()),
    }
}

/// What comes of the answers about a new dependency.
pub open spec fn dependency_reply(d: DialogModel, answer: Seq<char>) -> Reply {
    match d.stage {
        StageModel::DependentQuest => match choice(d.book, answer) {
            Choice::Cancelled => to_menu(d, Seq::empty()),
            Choice::Chosen(i) => choosing(
                d,
                StageModel::RequiredQuest { quest_index: i as usize },
                "Какой квест нужно выполнить раньше?"@,
            ),
            Choice::Wrong => choosing_again(d),
        },
        StageModel::RequiredQuest { quest_index } => match choice(d.book, answer) {
            Choice::Cancelled => to_menu(d, Seq::empty()),
            Choice::Chosen(i) => if i == quest_index {
                to_menu(d, "Квест не может зависеть от самого себя.\n"@)
            } else {
                to_menu(
                    DialogModel {
                        book: with_changed(
                            d.book,
                            quest_index as int,
                            session::depending(
                                first_quests(d.book)[quest_index as int],
                                first_quests(d.book)[i].id,
                            ),
                        ),
                        ..d
                    },
                    "Зависимость добавлена.\n"@,
                )
            },
            Choice::Wrong => choosing_again(d),
        },
        _ => asking(d, d.stage, Seq::empty()),
    }
}

/// What comes of the answers about a new reward.
pub open spec fn reward_reply(d: DialogModel, answer: Seq<char>) -> Reply {
    match d.stage {
        StageModel::RewardQuest => match choice(d.book, answer) {
            Choice::Cancelled => to_menu(d, Seq::empty()),
            Choice::Chosen(i) => asking(
                d,
                StageModel::RewardKind { index: i as usize },
                "Тип награды: 1 — опыт, 2 — предмет\nТип: "@,
            ),
            Choice::Wrong => choosing_again(d),
        },
        StageModel::RewardKind { index } => {
            let state = naming::next_state(d.id_state);
            let id = naming::id_of(state);
            let drawn = DialogModel { id_state: state, ..d };
            if text::trimmed(answer) == "1"@ {
                asking(drawn, StageModel::RewardXp { index, id }, "Количество XP [10]: "@)
            } else if text::trimmed(answer) == "2"@ {
                asking(drawn, StageModel::RewardItem { index, id }, "ID предмета: "@)
            } else {
                to_menu(d, "Неизвестный тип награды.\n"@)
            }
        },
        StageModel::RewardXp { index, id } => match amount(answer, 10) {
            Some(amount) => reward_added(
                d,
                index,
                quest::RewardModel::Xp { id, amount, raw: None },
            ),
            None => counting_again(d, "Количество XP [10]: "@),
        },
        StageModel::RewardItem { index, id } => if is_blank(answer) {
            missing(d, "ID предмета"@)
        } else {
            asking(
                d,
                StageModel::RewardItemCount { index, id, item: answer },
                "Количество [1]: "@,
            )
        },
        StageModel::RewardItemCount { index, id, item } => match amount(answer, 1) {
            Some(count) => reward_added(
                d,
                index,
                quest::RewardModel::Item { id, item, count, raw: None },
            ),
            None => counting_again(d, "Количество [1]: "@),
        },
        _ => asking(d, d.stage, Seq::empty()),
    }
}

/// What comes of a line that was entered. A new quest would stand at the given place.
pub open spec fn reply(
    d: DialogModel,
    line: Seq<char>,
    x: quest::NumberModel,
    y: quest::NumberModel,
) -> Reply {
    let answer = line_of(line);
    match d.stage {
        StageModel::Title | StageModel::ChapterTitle { .. } | StageModel::Filename {
            ..
        } => opening_reply(d, answer),
        StageModel::Menu => menu_reply(d, answer),
        StageModel::QuestTitle | StageModel::QuestDescription { .. } => quest_reply(
            d,
            answer,
            x,
            y,
        ),
        StageModel::TaskQuest | StageModel::TaskKind { .. } | StageModel::TaskTitle {
            ..
        } | StageModel::TaskItem { .. } | StageModel::TaskItemCount {
            ..
        } | StageModel::TaskEntity { .. } | StageModel::TaskEntityCount { .. } => task_reply(
            d,
            answer,
        ),
        StageModel::DependentQuest | StageModel::RequiredQuest { .. } => dependency_reply(
            d,
            answer,
        ),
        StageModel::RewardQuest | StageModel::RewardKind { .. } | StageModel::RewardXp {
            ..
        } | StageModel::RewardItem { .. } | StageModel::RewardItemCount { .. } => reward_reply(
            d,
            answer,
        ),
        StageModel::Saving { .. } | StageModel::Over => Reply {
            dialog: d,
            output: Seq::empty(),
            action: ActionModel::Stop,
        },
    }
}

/// What comes of the book having been saved, or of the error.
pub open spec fn saved_reply(d: DialogModel, error: Option<EditorError>) -> Reply {
    match error {
        Some(e) => Reply {
            dialog: DialogModel { stage: StageModel::Over, ..d },
            output: Seq::empty(),
            action: ActionModel::Fail(e),
        },
        None => {
            let told = "Сохранено в "@ + d.quests_root + "\n"@;
            if d.stage == (StageModel::Saving { exit: true }) {
                Reply {
                    dialog: DialogModel { stage: StageModel::Over, ..d },
                    output: told,
                    action: ActionModel::Stop,
                }
            } else {
                to_menu(d, told)
            }
        },
    }
}

// ---------------------------------------------------------------------------
// Carrying it on
// ---------------------------------------------------------------------------

/// A book without chapters.
pub open spec fn no_book() -> editor::BookModel {
    editor::BookModel {
        title: Seq::empty(),
        grid_scale: quest::half(),
        groups: Seq::empty(),
        chapters: Seq::empty(),
        preserved_files: Seq::empty(),
        translations: translation::empty_catalog(),
    }
}

fn empty_book() -> (r: EditableBook)
    ensures
        r@ == no_book(),
{
    let r = EditableBook {
        title: String::new(),
        grid_scale: Number::half(),
        groups: Vec::new(),
        chapters: Vec::new(),
        preserved_files: Vec::new(),
        translations: TranslationCatalog::default(),
    };
    assert(r@ =~= no_book());
    r
}

/// Begins a dialog about a new book, unless there is one in the folder; what is asked first.
pub fn run_editor(quests_root: &str, already_exists: bool, ids: IdGenerator) -> (r: Result<
    (Dialog, Turn),
    EditorError,
>)
    ensures
        match r {
            Ok((dialog, turn)) => !already_exists && is_reply(
                dialog@,
                turn,
                asking(
                    DialogModel {
                        stage: StageModel::Title,
                        book: no_book(),
                        id_state: ids.state,
                        quests_root: quests_root@,
                    },
                    StageModel::Title,
                    "Создание новой книги FTB Quests\nНазвание книги: "@,
                ),
            ),
            Err(error) => already_exists && (error matches EditorError::ExistingBook(path) && path@
                == quests_root@),
        },
{
    if already_exists {
        return Err(EditorError::ExistingBook(quests_root.to_owned()));
    }
    let dialog = Dialog {
        stage: Stage::Title,
        book: empty_book(),
        ids,
        quests_root: quests_root.to_owned(),
    };
    let turn = Turn {
        output: "Создание новой книги FTB Quests\nНазвание книги: ".to_owned(),
        action: DialogAction::Read,
    };
    Ok((dialog, turn))
}

fn blank(answer: &str) -> (r: bool)
    ensures
        r == is_blank(answer@),
{
    text::is_blank(answer)
}

/// What an answer to the question for a quest says.
enum Chosen {
    Cancelled,
    Quest(usize),
    Wrong,
}

impl View for Chosen {
    type V = Choice;

    closed spec fn view(&self) -> Choice {
        match self {
            Chosen::Cancelled => Choice::Cancelled,
            Chosen::Quest(i) => Choice::Chosen(*i as int),
            Chosen::Wrong => Choice::Wrong,
        }
    }
}

fn read_amount(answer: &str, default: u32) -> (r: Option<u32>)
    ensures
        r == amount(answer@, default),
{
    if blank(answer) {
        return Some(default);
    }
    match parse_number(text::trim(answer).as_str(), u32::MAX as u64) {
        Some(n) => {
            if n > 0 {
                Some(n as u32)
            } else {
                None
            }
        },
        None => None,
    }
}

impl EditableBook {
    /// How many quests the first chapter has.
    pub fn first_quest_count(&self) -> (r: usize)
        ensures
            r == first_quests(self@).len(),
    {
        if self.chapters.len() > 0 {
            assert(self@.chapters[0] == self.chapters@[0]@);
            self.chapters[0].quests.len()
        } else {
            0
        }
    }

    fn quest_at(&self, i: usize) -> (r: &Quest)
        requires
            i < first_quests(self@).len(),
        ensures
            r@ == first_quests(self@)[i as int],
    {
        assert(self@.chapters[0] == self.chapters@[0]@);
        &self.chapters[0].quests[i]
    }

    fn change_quest(&mut self, i: usize, quest: Quest)
        ensures
            final(self)@ == with_changed(old(self)@, i as int, quest@),
    {
        if i < self.first_quest_count() {
            let ghost chapters = self.chapters@;
            let ghost quests = self.chapters@[0].quests@;
            let ghost model = quest@;
            assert(self@.chapters[0] == self.chapters@[0]@);
            self.chapters[0].quests[i] = quest;
            proof {
                let after = self.chapters@;
                assert(order::views(after[0].quests@) =~= order::views(quests).update(
                    i as int,
                    model,
                ));
                assert(order::views(after) =~= order::views(chapters).update(0, after[0]@));
            }
        }
    }

    fn add_first_quest(&mut self, quest: Quest)
        ensures
            final(self)@ == with_first_quests(old(self)@, first_quests(old(self)@).push(quest@)),
    {
        if self.chapters.len() > 0 {
            self.push_quest(0, quest);
        }
    }

    fn add_task(&mut self, index: usize, task: Task)
        ensures
            final(self)@ == with_task(old(self)@, index, task@),
    {
        if index < self.first_quest_count() {
            let mut quest = self.quest_at(index).copy();
            let ghost before = quest.tasks@;
            let ghost model = task@;
            quest.tasks.push(task);
            assert(order::views(quest.tasks@) =~= order::views(before).push(model));
            self.change_quest(index, quest);
        }
    }

    fn add_reward(&mut self, index: usize, reward: Reward)
        ensures
            final(self)@ == with_reward(old(self)@, index, reward@),
    {
        if index < self.first_quest_count() {
            let mut quest = self.quest_at(index).copy();
            let ghost before = quest.rewards@;
            let ghost model = reward@;
            quest.rewards.push(reward);
            assert(order::views(quest.rewards@) =~= order::views(before).push(model));
            self.change_quest(index, quest);
        }
    }

    fn add_requirement(&mut self, index: usize, required: usize)
        requires
            required < first_quests(old(self)@).len(),
        ensures
            final(self)@ == with_changed(
                old(self)@,
                index as int,
                session::depending(
                    first_quests(old(self)@)[index as int],
                    first_quests(old(self)@)[required as int].id,
                ),
            ),
    {
        if index < self.first_quest_count() {
            let id = self.quest_at(required).id.clone();
            let mut quest = self.quest_at(index).copy();
            if !holds_text(&quest.dependencies, id.as_str()) {
                let ghost before = quest.dependencies@;
                let ghost model = id@;
                quest.dependencies.push(id);
                assert(text::texts(quest.dependencies@) =~= text::texts(before).push(model));
            }
            self.change_quest(index, quest);
        }
    }

    fn quest_list(&self) -> (r: String)
        ensures
            r@ == quest_lines(self@, first_quests(self@).len() as int),
    {
        let n: usize = self.first_quest_count();
        let mut r = String::new();
        let mut i: usize = 0;
        while i < n
            invariant
                i <= n == first_quests(self@).len(),
                r@ == quest_lines(self@, i as int),
            decreases n - i,
        {
            let quest = self.quest_at(i);
            let mut line = "  ".to_owned();
            line.append(number(i as u128 + 1).as_str());
            line.append(". ");
            line.append(self.translations.resolve(quest.title.as_str()).as_str());
            line.append(" [");
            line.append(quest.id.as_str());
            line.append("]\n");
            r.append(line.as_str());
            i += 1;
        }
        r
    }

    fn summaries(&self) -> (r: String)
        ensures
            r@ == summary_lines(self@, first_quests(self@).len() as int),
    {
        let n: usize = self.first_quest_count();
        let mut r = String::new();
        let mut i: usize = 0;
        while i < n
            invariant
                i <= n == first_quests(self@).len(),
                r@ == summary_lines(self@, i as int),
            decreases n - i,
        {
            let quest = self.quest_at(i);
            let mut line = number(i as u128 + 1);
            line.append(". ");
            line.append(self.translations.resolve(quest.title.as_str()).as_str());
            line.append(" [");
            line.append(quest.id.as_str());
            line.append("] — задач: ");
            line.append(number(quest.tasks.len() as u128).as_str());
            line.append(", наград: ");
            line.append(number(quest.rewards.len() as u128).as_str());
            line.append(", зависимостей: ");
            line.append(number(quest.dependencies.len() as u128).as_str());
            line.append("\n");
            r.append(line.as_str());
            i += 1;
        }
        r
    }

    /// The book as it is shown.
    pub fn print_book(&self) -> (r: String)
        ensures
            r@ == book_text(self@),
    {
        let (title, filename) = if self.chapters.len() > 0 {
            assert(self@.chapters[0] == self.chapters@[0]@);
            (
                self.translations.resolve(self.chapters[0].title.as_str()),
                self.chapters[0].filename.clone(),
            )
        } else {
            (String::new(), String::new())
        };
        let mut r = "\nКнига: ".to_owned();
        r.append(self.translations.resolve(self.title.as_str()).as_str());
        r.append("\nГлава: ");
        r.append(title.as_str());
        r.append(" (");
        r.append(filename.as_str());
        r.append(")\n");
        if self.first_quest_count() == 0 {
            r.append("Квестов пока нет.\n");
        } else {
            r.append(self.summaries().as_str());
        }
        r
    }

    fn read_choice(&self, answer: &str) -> (r: Chosen)
        ensures
            r@ == choice(self@, answer@),
            r matches Chosen::Quest(i) ==> i < first_quests(self@).len(),
    {
        match parse_number(text::trim(answer).as_str(), usize::MAX as u64) {
            Some(n) => {
                if n == 0 {
                    Chosen::Cancelled
                } else if n <= self.first_quest_count() as u64 {
                    Chosen::Quest((n - 1) as usize)
                } else {
                    Chosen::Wrong
                }
            },
            None => Chosen::Wrong,
        }
    }
}

impl Dialog {
    fn ask(&mut self, stage: Stage, output: String) -> (r: Turn)
        ensures
            is_reply(final(self)@, r, asking(old(self)@, stage@, output@)),
    {
        self.stage = stage;
        Turn { output, action: DialogAction::Read }
    }

    fn ask_again(&mut self, output: String) -> (r: Turn)
        ensures
            is_reply(final(self)@, r, asking(old(self)@, old(self)@.stage, output@)),
    {
        Turn { output, action: DialogAction::Read }
    }

    fn menu(&mut self, output: &str) -> (r: Turn)
        ensures
            is_reply(final(self)@, r, to_menu(old(self)@, output@)),
    {
        let mut text = output.to_owned();
        text.append("\n1. Добавить квест\n2. Добавить задачу к квесту\n3. Связать квесты зависимостью\n4. Добавить награду\n5. Показать книгу\n6. Сохранить\n0. Сохранить и выйти\nВыбор: ");
        self.ask(Stage::Menu, text)
    }

    fn plain_menu(&mut self) -> (r: Turn)
        ensures
            is_reply(final(self)@, r, to_menu(old(self)@, Seq::empty())),
    {
        proof {
            reveal_strlit("");
            assert(""@ =~= Seq::<char>::empty());
        }
        self.menu("")
    }

    fn lack(&mut self, field: &str) -> (r: Turn)
        ensures
            is_reply(final(self)@, r, missing(old(self)@, field@)),
    {
        self.stage = Stage::Over;
        Turn {
            output: String::new(),
            action: DialogAction::Fail(EditorError::EmptyInput(field.to_owned())),
        }
    }

    fn offer(&mut self, stage: Stage, question: &str) -> (r: Turn)
        ensures
            is_reply(final(self)@, r, choosing(old(self)@, stage@, question@)),
    {
        if self.book.first_quest_count() == 0 {
            return self.menu("Сначала добавьте хотя бы один квест.\n");
        }
        let mut output = question.to_owned();
        output.append("\n");
        output.append(self.book.quest_list().as_str());
        output.append("Номер квеста (0 — отмена): ");
        self.ask(stage, output)
    }

    fn choose_again(&mut self) -> (r: Turn)
        ensures
            is_reply(final(self)@, r, choosing_again(old(self)@)),
    {
        self.ask_again("Введите номер из списка.\nНомер квеста (0 — отмена): ".to_owned())
    }

    fn count_again(&mut self, question: &str) -> (r: Turn)
        ensures
            is_reply(final(self)@, r, counting_again(old(self)@, question@)),
    {
        let mut output = "Введите положительное целое число.\n".to_owned();
        output.append(question);
        self.ask_again(output)
    }

    fn save_book(&mut self, exit: bool) -> (r: Turn)
        ensures
            is_reply(
                final(self)@,
                r,
                Reply {
                    dialog: DialogModel { stage: StageModel::Saving { exit }, ..old(self)@ },
                    output: Seq::empty(),
                    action: ActionModel::Save,
                },
            ),
    {
        self.stage = Stage::Saving { exit };
        Turn { output: String::new(), action: DialogAction::Save }
    }

    fn answer_menu(&mut self, answer: &str) -> (r: Turn)
        ensures
            is_reply(final(self)@, r, menu_reply(old(self)@, answer@)),
    {
        let command = text::trim(answer);
        if text::same(command.as_str(), "1") {
            self.ask(Stage::QuestTitle, "Название квеста: ".to_owned())
        } else if text::same(command.as_str(), "2") {
            self.offer(Stage::TaskQuest, "К какому квесту добавить задачу?")
        } else if text::same(command.as_str(), "3") {
            if self.book.first_quest_count() < 2 {
                self.menu("Для связи нужно хотя бы два квеста.\n")
            } else {
                self.offer(Stage::DependentQuest, "Какой квест будет зависимым?")
            }
        } else if text::same(command.as_str(), "4") {
            self.offer(Stage::RewardQuest, "К какому квесту добавить награду?")
        } else if text::same(command.as_str(), "5") {
            let shown = self.book.print_book();
            self.menu(shown.as_str())
        } else if text::same(command.as_str(), "6") {
            self.save_book(false)
        } else if text::same(command.as_str(), "0") {
            self.save_book(true)
        } else {
            self.menu("Неизвестный пункт меню.\n")
        }
    }

    fn finish_task(&mut self, index: usize, task: Task) -> (r: Turn)
        ensures
            is_reply(final(self)@, r, task_added(old(self)@, index, task@)),
    {
        self.book.add_task(index, task);
        self.menu("Задача добавлена.\n")
    }

    fn finish_reward(&mut self, index: usize, reward: Reward) -> (r: Turn)
        ensures
            is_reply(final(self)@, r, reward_added(old(self)@, index, reward@)),
    {
        self.book.add_reward(index, reward);
        self.menu("Награда добавлена.\n")
    }

    fn make_book(&mut self, title: String, chapter_title: String, answer: &str) -> (r: Turn)
        ensures
            is_reply(
                final(self)@,
                r,
                opening_reply(
                    DialogModel {
                        stage: StageModel::Filename { title: title@, chapter_title: chapter_title@ },
                        ..old(self)@
                    },
                    answer@,
                ),
            ),
    {
        let filename = if blank(answer) {
            slugify(chapter_title.as_str())
        } else {
            slugify(answer)
        };
        self.book = EditableBook::new(title, chapter_title, filename, &mut self.ids);
        self.plain_menu()
    }

    fn answer_task_title(&mut self, index: usize, kind: &str, answer: String) -> (r: Turn)
        ensures
            is_reply(
                final(self)@,
                r,
                task_reply(
                    DialogModel {
                        stage: StageModel::TaskTitle { index, kind: kind@ },
                        ..old(self)@
                    },
                    answer@,
                ),
            ),
    {
        if blank(answer.as_str()) {
            return self.lack("Название задачи");
        }
        let kind = text::trim(kind);
        if text::same(kind.as_str(), "1") {
            let id = self.ids.next_id();
            self.finish_task(index, Task::Checkmark { id, title: answer, raw: None })
        } else if text::same(kind.as_str(), "2") {
            let id = self.ids.next_id();
            self.ask(
                Stage::TaskItem { index, id, title: answer },
                "ID предмета (например minecraft:stone): ".to_owned(),
            )
        } else if text::same(kind.as_str(), "3") {
            let id = self.ids.next_id();
            self.ask(
                Stage::TaskEntity { index, id, title: answer },
                "ID сущности (например minecraft:zombie): ".to_owned(),
            )
        } else {
            self.menu("Неизвестный тип задачи.\n")
        }
    }

    fn answer_reward_kind(&mut self, index: usize, answer: &str) -> (r: Turn)
        ensures
            is_reply(
                final(self)@,
                r,
                reward_reply(
                    DialogModel { stage: StageModel::RewardKind { index }, ..old(self)@ },
                    answer@,
                ),
            ),
    {
        let kind = text::trim(answer);
        if text::same(kind.as_str(), "1") {
            let id = self.ids.next_id();
            self.ask(Stage::RewardXp { index, id }, "Количество XP [10]: ".to_owned())
        } else if text::same(kind.as_str(), "2") {
            let id = self.ids.next_id();
            self.ask(Stage::RewardItem { index, id }, "ID предмета: ".to_owned())
        } else {
            self.menu("Неизвестный тип награды.\n")
        }
    }

    fn finish_quest(&mut self, title: String, answer: String, x: Number, y: Number) -> (r: Turn)
        ensures
            is_reply(
                final(self)@,
                r,
                quest_reply(
                    DialogModel {
                        stage: StageModel::QuestDescription { title: title@ },
                        ..old(self)@
                    },
                    answer@,
                    x@,
                    y@,
                ),
            ),
    {
        let index: usize = self.book.first_quest_count();
        let id = self.ids.next_id();
        let mut told = "Добавлен квест #".to_owned();
        told.append(number(index as u128 + 1).as_str());
        told.append(" с ID ");
        told.append(id.as_str());
        told.append(".\n");
        self.book.add_first_quest(make_quest(id, title, answer, x, y));
        self.menu(told.as_str())
    }

    fn answer_required(&mut self, quest_index: usize, answer: &str) -> (r: Turn)
        ensures
            is_reply(
                final(self)@,
                r,
                dependency_reply(
                    DialogModel {
                        stage: StageModel::RequiredQuest { quest_index },
                        ..old(self)@
                    },
                    answer@,
                ),
            ),
    {
        match self.book.read_choice(answer) {
            Chosen::Cancelled => self.plain_menu(),
            Chosen::Quest(i) => {
                if i == quest_index {
                    self.menu("Квест не может зависеть от самого себя.\n")
                } else {
                    self.book.add_requirement(quest_index, i);
                    self.menu("Зависимость добавлена.\n")
                }
            },
            Chosen::Wrong => {
                self.stage = Stage::RequiredQuest { quest_index };
                self.choose_again()
            },
        }
    }

    /// What comes of a line that was entered. A new quest would stand at the given place.
    #[verifier::rlimit(60)]
    pub fn answer(&mut self, line: &str, x: Number, y: Number) -> (r: Turn)
        ensures
            is_reply(final(self)@, r, reply(old(self)@, line@, x@, y@)),
    {
        let ghost d = self@;
        let answer = trim_line_end(line);
        let mut stage = Stage::Over;
        std::mem::swap(&mut stage, &mut self.stage);
        let ghost e = self@;
        assert(e == (DialogModel { stage: StageModel::Over, ..d }));
        match stage {
            Stage::Title => {
                if blank(answer.as_str()) {
                    self.lack("Название книги")
                } else {
                    self.ask(
                        Stage::ChapterTitle { title: answer },
                        "Название первой главы: ".to_owned(),
                    )
                }
            },
            Stage::ChapterTitle { title } => {
                if blank(answer.as_str()) {
                    self.lack("Название главы")
                } else {
                    let mut output = "Имя файла главы [".to_owned();
                    output.append(slugify(answer.as_str()).as_str());
                    output.append("]: ");
                    self.ask(Stage::Filename { title, chapter_title: answer }, output)
                }
            },
            Stage::Filename { title, chapter_title } => self.make_book(
                title,
                chapter_title,
                answer.as_str(),
            ),
            Stage::Menu => self.answer_menu(answer.as_str()),
            Stage::QuestTitle => {
                if blank(answer.as_str()) {
                    self.lack("Название квеста")
                } else {
                    self.ask(
                        Stage::QuestDescription { title: answer },
                        "Описание (можно оставить пустым): ".to_owned(),
                    )
                }
            },
            Stage::QuestDescription { title } => self.finish_quest(title, answer, x, y),
            Stage::TaskQuest => {
                match self.book.read_choice(answer.as_str()) {
                    Chosen::Cancelled => self.plain_menu(),
                    Chosen::Quest(index) => self.ask(
                        Stage::TaskKind { index },
                        "Тип задачи: 1 — отметка, 2 — предмет, 3 — убийство\nТип: ".to_owned(),
                    ),
                    Chosen::Wrong => {
                        self.stage = Stage::TaskQuest;
                        self.choose_again()
                    },
                }
            },
            Stage::TaskKind { index } => self.ask(
                Stage::TaskTitle { index, kind: answer },
                "Название задачи: ".to_owned(),
            ),
            Stage::TaskTitle { index, kind } => self.answer_task_title(
                index,
                kind.as_str(),
                answer,
            ),
            Stage::TaskItem { index, id, title } => {
                if blank(answer.as_str()) {
                    self.lack("ID предмета")
                } else {
                    self.ask(
                        Stage::TaskItemCount { index, id, title, item: answer },
                        "Количество [1]: ".to_owned(),
                    )
                }
            },
            Stage::TaskItemCount { index, id, title, item } => {
                match read_amount(answer.as_str(), 1) {
                    Some(count) => self.finish_task(
                        index,
                        Task::Item { id, title, item, count, raw: None },
                    ),
                    None => {
                        self.stage = Stage::TaskItemCount { index, id, title, item };
                        self.count_again("Количество [1]: ")
                    },
                }
            },
            Stage::TaskEntity { index, id, title } => {
                if blank(answer.as_str()) {
                    self.lack("ID сущности")
                } else {
                    self.ask(
                        Stage::TaskEntityCount { index, id, title, entity: answer },
                        "Количество [1]: ".to_owned(),
                    )
                }
            },
            Stage::TaskEntityCount { index, id, title, entity } => {
                match read_amount(answer.as_str(), 1) {
                    Some(count) => self.finish_task(
                        index,
                        Task::Kill { id, title, entity, count, raw: None },
                    ),
                    None => {
                        self.stage = Stage::TaskEntityCount { index, id, title, entity };
                        self.count_again("Количество [1]: ")
                    },
                }
            },
            Stage::DependentQuest => {
                match self.book.read_choice(answer.as_str()) {
                    Chosen::Cancelled => self.plain_menu(),
                    Chosen::Quest(i) => self.offer(
                        Stage::RequiredQuest { quest_index: i },
                        "Какой квест нужно выполнить раньше?",
                    ),
                    Chosen::Wrong => {
                        self.stage = Stage::DependentQuest;
                        self.choose_again()
                    },
                }
            },
            Stage::RequiredQuest { quest_index } => self.answer_required(
                quest_index,
                answer.as_str(),
            ),
            Stage::RewardQuest => {
                match self.book.read_choice(answer.as_str()) {
                    Chosen::Cancelled => self.plain_menu(),
                    Chosen::Quest(index) => self.ask(
                        Stage::RewardKind { index },
                        "Тип награды: 1 — опыт, 2 — предмет\nТип: ".to_owned(),
                    ),
                    Chosen::Wrong => {
                        self.stage = Stage::RewardQuest;
                        self.choose_again()
                    },
                }
            },
            Stage::RewardKind { index } => self.answer_reward_kind(index, answer.as_str()),
            Stage::RewardXp { index, id } => {
                match read_amount(answer.as_str(), 10) {
                    Some(amount) => self.finish_reward(
                        index,
                        Reward::Xp { id, amount, raw: None },
                    ),
                    None => {
                        self.stage = Stage::RewardXp { index, id };
                        self.count_again("Количество XP [10]: ")
                    },
                }
            },
            Stage::RewardItem { index, id } => {
                if blank(answer.as_str()) {
                    self.lack("ID предмета")
                } else {
                    self.ask(
                        Stage::RewardItemCount { index, id, item: answer },
                        "Количество [1]: ".to_owned(),
                    )
                }
            },
            Stage::RewardItemCount { index, id, item } => {
                match read_amount(answer.as_str(), 1) {
                    Some(count) => self.finish_reward(
                        index,
                        Reward::Item { id, item, count, raw: None },
                    ),
                    None => {
                        self.stage = Stage::RewardItemCount { index, id, item };
                        self.count_again("Количество [1]: ")
                    },
                }
            },
            Stage::Saving { exit } => {
                self.stage = Stage::Saving { exit };
                Turn { output: String::new(), action: DialogAction::Stop }
            },
            Stage::Over => Turn { output: String::new(), action: DialogAction::Stop },
        }
    }

    /// What comes of the book having been saved, or of the error.
    pub fn saved(&mut self, error: Option<EditorError>) -> (r: Turn)
        ensures
            is_reply(final(self)@, r, saved_reply(old(self)@, error)),
    {
        match error {
            Some(e) => {
                self.stage = Stage::Over;
                Turn { output: String::new(), action: DialogAction::Fail(e) }
            },
            None => {
                let mut told = "Сохранено в ".to_owned();
                told.append(self.quests_root.as_str());
                told.append("\n");
                let exit = match &self.stage {
                    Stage::Saving { exit } => *exit,
                    _ => false,
                };
                if exit {
                    self.stage = Stage::Over;
                    Turn { output: told, action: DialogAction::Stop }
                } else {
                    self.menu(told.as_str())
                }
            },
        }
    }
}

/// The column and the row in which a quest stands that is added in a dialog.
pub fn grid_place(index: usize) -> (r: (usize, usize))
    ensures
        r.0 == index % 6,
        r.1 == index / 6,
{
    (index % 6, index / 6)
}

} // verus!
