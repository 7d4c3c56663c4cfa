//! A book that is being edited: what is selected, what is copied, and what the reader is told.

use crate::compose;
use crate::compose::{holds_text, number, split};
use crate::diagnostics;
use crate::diagnostics::{
    cycle_after_adding_dependency, find_broken_dependencies, find_dependency_cycles,
    DependencyCycle,
};
use crate::duplicate;
use crate::editor;
use crate::editor::{EditableBook, EditorError, ImportReport};
use crate::labels;
use crate::labels::{find_quest, group_display_title, locate_quest};
use crate::localize;
use crate::naming;
use crate::naming::IdGenerator;
use crate::order;
use crate::quest;
use crate::quest::{Chapter, Number, Quest, Reward, Task};
use crate::resources::ResourceKind;
use crate::search;
use crate::search::{find_group_title, SearchTarget};
use crate::table;
use crate::table::TextMap;
use crate::text;
use crate::translation;
use vstd::prelude::*;

verus! {

// ---------------------------------------------------------------------------
// The session
// ---------------------------------------------------------------------------

/// The most entries that the log keeps.
pub const MAX_LOG_ENTRIES: usize = 1000;

/// What is shown beside the book.
#[derive(Debug, Clone, Copy, PartialEq, Eq, Structural)]
pub enum RightTab {
    Inspector,
    Search,
    Logs,
    Languages,
}

/// What a click on a quest does.
#[derive(Debug, Clone, Copy, PartialEq, Eq, Structural)]
pub enum CanvasTool {
    Cursor,
    Connect,
    Select,
    Delete,
}

impl CanvasTool {
    /// The name of the tool.
    pub fn title(self) -> (r: &'static str)
        ensures
            r@ == match self {
                CanvasTool::Cursor => "Курсор"@,
                CanvasTool::Connect => "Связи"@,
                CanvasTool::Select => "Выделение"@,
                CanvasTool::Delete => "Удаление"@,
            },
    {
        match self {
            CanvasTool::Cursor => "Курсор",
            CanvasTool::Connect => "Связи",
            CanvasTool::Select => "Выделение",
            CanvasTool::Delete => "Удаление",
        }
    }
}

/// How much an entry of the log matters.
#[derive(Debug, Clone, Copy, PartialEq, Eq, Structural)]
pub enum LogLevel {
    Info,
    Warning,
    Error,
}

/// An entry of the log, with the seconds that had passed.
#[derive(Debug, Clone)]
pub struct LogEntry {
    pub elapsed: u64,
    pub level: LogLevel,
    pub message: String,
}

/// The mathematical form of an entry of the log.
#[verifier::ext_equal]
pub ghost struct LogModel {
    pub elapsed: u64,
    pub level: LogLevel,
    pub message: Seq<char>,
}

impl View for LogEntry {
    type V = LogModel;

    open spec fn view(&self) -> LogModel {
        LogModel { elapsed: self.elapsed, level: self.level, message: self.message@ }
    }
}

/// A book that is being edited.
pub struct Session {
    pub book: EditableBook,
    pub ids: IdGenerator,
    pub selected_chapter: usize,
    pub selected_quest: Option<String>,
    pub selected_quests: TextMap<()>,
    pub status: String,
    pub right_tab: RightTab,
    pub canvas_tool: CanvasTool,
    pub connection_start: Option<String>,
    pub quest_clipboard: Vec<Quest>,
    pub delete_confirmation: Option<Vec<String>>,
    pub logs: Vec<LogEntry>,
}

/// The mathematical form of a session.
#[verifier::ext_equal]
pub ghost struct SessionModel {
    pub book: editor::BookModel,
    pub id_state: u64,
    pub selected_chapter: usize,
    pub selected_quest: Option<Seq<char>>,
    pub selected: Seq<(Seq<char>, ())>,
    pub status: Seq<char>,
    pub right_tab: RightTab,
    pub canvas_tool: CanvasTool,
    pub connection_start: Option<Seq<char>>,
    pub clipboard: Seq<quest::QuestModel>,
    pub delete_confirmation: Option<Seq<Seq<char>>>,
    pub logs: Seq<LogModel>,
}

/// The mathematical form of texts that may be missing.
pub open spec fn opt_list(list: Option<Vec<String>>) -> Option<Seq<Seq<char>>> {
    match list {
        Some(texts) => Some(text::texts(texts@)),
        None => None,
    }
}

impl View for Session {
    type V = SessionModel;

    open spec fn view(&self) -> SessionModel {
        SessionModel {
            book: self.book@,
            id_state: self.ids.state,
            selected_chapter: self.selected_chapter,
            selected_quest: text::opt_text(self.selected_quest),
            selected: self.selected_quests@,
            status: self.status@,
            right_tab: self.right_tab,
            canvas_tool: self.canvas_tool,
            connection_start: text::opt_text(self.connection_start),
            clipboard: order::views(self.quest_clipboard@),
            delete_confirmation: opt_list(self.delete_confirmation),
            logs: order::views(self.logs@),
        }
    }
}

impl Session {
    /// A session with a book of which nothing is selected.
    pub fn new(book: EditableBook, ids: IdGenerator) -> (r: Session)
        ensures
            r@ == (SessionModel {
                book: book@,
                id_state: ids.state,
                selected_chapter: 0,
                selected_quest: None,
                selected: Seq::empty(),
                status: "Двойной клик по полотну создаёт квест."@,
                right_tab: RightTab::Inspector,
                canvas_tool: CanvasTool::Cursor,
                connection_start: None,
                clipboard: Seq::empty(),
                delete_confirmation: None,
                logs: Seq::empty(),
            }),
    {
        let r = Session {
            book,
            ids,
            selected_chapter: 0,
            selected_quest: None,
            selected_quests: TextMap::new(),
            status: "Двойной клик по полотну создаёт квест.".to_owned(),
            right_tab: RightTab::Inspector,
            canvas_tool: CanvasTool::Cursor,
            connection_start: None,
            quest_clipboard: Vec::new(),
            delete_confirmation: None,
            logs: Vec::new(),
        };
        assert(r@.clipboard =~= Seq::empty());
        assert(r@.logs =~= Seq::empty());
        r
    }
}

// ---------------------------------------------------------------------------
// The log
// ---------------------------------------------------------------------------

/// The log with one entry more; the oldest one goes where there is no room.
pub open spec fn log_with(logs: Seq<LogModel>, entry: LogModel) -> Seq<LogModel> {
    if logs.len() >= MAX_LOG_ENTRIES {
        logs.skip(1).push(entry)
    } else {
        logs.push(entry)
    }
}

/// The session with one entry of the log more.
pub open spec fn logged(
    s: SessionModel,
    level: LogLevel,
    message: Seq<char>,
    elapsed: u64,
) -> SessionModel {
    SessionModel { logs: log_with(s.logs, LogModel { elapsed, level, message }), ..s }
}

/// The session with another status, which goes to the log too.
pub open spec fn announced(
    s: SessionModel,
    level: LogLevel,
    message: Seq<char>,
    elapsed: u64,
) -> SessionModel {
    logged(SessionModel { status: message, ..s }, level, message, elapsed)
}

impl Session {
    /// Adds an entry to the log.
    pub fn push_log(&mut self, level: LogLevel, message: String, elapsed: u64)
        ensures
            final(self)@ == logged(old(self)@, level, message@, elapsed),
    {
        let ghost before = self.logs@;
        if self.logs.len() >= MAX_LOG_ENTRIES {
            self.logs.remove(0);
            assert(order::views(self.logs@) =~= order::views(before).skip(1));
        }
        let ghost shorter = self.logs@;
        let entry = LogEntry { elapsed, level, message };
        let ghost model = entry@;
        self.logs.push(entry);
        assert(order::views(self.logs@) =~= order::views(shorter).push(model));
    }

    /// Tells the reader something, in the status and in the log.
    pub fn announce(&mut self, level: LogLevel, message: String, elapsed: u64)
        ensures
            final(self)@ == announced(old(self)@, level, message@, elapsed),
    {
        self.status = message.clone();
        self.push_log(level, message, elapsed);
    }
}

/// The session with what is said of cycles.
pub open spec fn cycles_logged(s: SessionModel, cycles: Seq<Seq<Seq<char>>>, elapsed: u64) -> SessionModel
    decreases cycles.len(),
{
    if cycles.len() == 0 {
        s
    } else {
        let before = cycles_logged(s, cycles.drop_last(), elapsed);
        logged(
            before,
            LogLevel::Warning,
            labels::cycle_text(s.book, cycles.last(), "Обнаружен цикл"@),
            elapsed,
        )
    }
}

/// The session with what is said of broken dependencies.
pub open spec fn broken_logged(
    s: SessionModel,
    broken: Seq<(Seq<char>, Seq<char>)>,
    elapsed: u64,
) -> SessionModel
    decreases broken.len(),
{
    if broken.len() == 0 {
        s
    } else {
        let before = broken_logged(s, broken.drop_last(), elapsed);
        logged(
            before,
            LogLevel::Warning,
            labels::broken_text(s.book, broken.last()),
            elapsed,
        )
    }
}

/// How many cycles and broken dependencies there are.
pub open spec fn diagnosis_text(reason: Seq<char>, cycles: nat, broken: nat) -> Seq<char> {
    reason + ": циклов — "@ + compose::decimal(cycles) + ", битых зависимостей — "@
        + compose::decimal(broken) + "."@
}

/// The session after its book has been looked over.
pub open spec fn diagnosed(s: SessionModel, reason: Seq<char>, elapsed: u64) -> SessionModel {
    let cycles = diagnostics::sorted_cycles(diagnostics::book_table(s.book));
    let broken = diagnostics::sorted_missing(diagnostics::quests_of(s.book.chapters));
    let level = if cycles.len() == 0 && broken.len() == 0 {
        LogLevel::Info
    } else {
        LogLevel::Warning
    };
    let first = logged(s, level, diagnosis_text(reason, cycles.len(), broken.len()), elapsed);
    broken_logged(cycles_logged(first, cycles, elapsed), broken, elapsed)
}

proof fn lemma_cycles_keep_book(s: SessionModel, cycles: Seq<Seq<Seq<char>>>, elapsed: u64)
    ensures
        cycles_logged(s, cycles, elapsed).book == s.book,
    decreases cycles.len(),
{
    if cycles.len() > 0 {
        lemma_cycles_keep_book(s, cycles.drop_last(), elapsed);
    }
}

proof fn lemma_broken_keep_book(s: SessionModel, broken: Seq<(Seq<char>, Seq<char>)>, elapsed: u64)
    ensures
        broken_logged(s, broken, elapsed).book == s.book,
    decreases broken.len(),
{
    if broken.len() > 0 {
        lemma_broken_keep_book(s, broken.drop_last(), elapsed);
    }
}

impl Session {
    /// Tells the reader of a cycle.
    pub fn log_cycle(&mut self, cycle: &DependencyCycle, prefix: &str, elapsed: u64)
        ensures
            final(self)@ == logged(
                old(self)@,
                LogLevel::Warning,
                labels::cycle_text(old(self)@.book, cycle@, prefix@),
                elapsed,
            ),
    {
        let message = self.book.describe_cycle(cycle, prefix);
        self.push_log(LogLevel::Warning, message, elapsed);
    }

    /// Looks the book over, and tells the reader of its cycles and broken dependencies.
    pub fn run_diagnostics(&mut self, reason: &str, elapsed: u64)
        ensures
            final(self)@ == diagnosed(old(self)@, reason@, elapsed),
    {
        let cycles = find_dependency_cycles(&self.book);
        let broken = find_broken_dependencies(&self.book);
        let ghost all_cycles = order::views(cycles@);
        let ghost all_broken = order::views(broken@);
        let level = if cycles.len() == 0 && broken.len() == 0 {
            LogLevel::Info
        } else {
            LogLevel::Warning
        };
        let mut message = reason.to_owned();
        message.append(": циклов — ");
        message.append(number(cycles.len() as u128).as_str());
        message.append(", битых зависимостей — ");
        message.append(number(broken.len() as u128).as_str());
        message.append(".");
        self.push_log(level, message, elapsed);
        let ghost first = self@;
        let mut i: usize = 0;
        assert(all_cycles.take(0) =~= Seq::empty());
        while i < cycles.len()
            invariant
                i <= cycles@.len(),
                all_cycles == order::views(cycles@),
                self@ == cycles_logged(first, all_cycles.take(i as int), elapsed),
            decreases cycles@.len() - i,
        {
            proof {
                assert(all_cycles.take(i + 1).drop_last() =~= all_cycles.take(i as int));
                assert(all_cycles.take(i + 1).last() == cycles@[i as int]@);
                lemma_cycles_keep_book(first, all_cycles.take(i as int), elapsed);
            }
            self.log_cycle(&cycles[i], "Обнаружен цикл", elapsed);
            i += 1;
        }
        assert(all_cycles.take(i as int) =~= all_cycles);
        let ghost second = self@;
        let mut k: usize = 0;
        assert(all_broken.take(0) =~= Seq::empty());
        while k < broken.len()
            invariant
                k <= broken@.len(),
                all_broken == order::views(broken@),
                self@ == broken_logged(second, all_broken.take(k as int), elapsed),
            decreases broken@.len() - k,
        {
            proof {
                assert(all_broken.take(k + 1).drop_last() =~= all_broken.take(k as int));
                assert(all_broken.take(k + 1).last() == broken@[k as int]@);
                lemma_broken_keep_book(second, all_broken.take(k as int), elapsed);
            }
            let message = self.book.describe_broken(&broken[k]);
            self.push_log(LogLevel::Warning, message, elapsed);
            k += 1;
        }
        assert(all_broken.take(k as int) =~= all_broken);
    }
}

// ---------------------------------------------------------------------------
// Selecting
// ---------------------------------------------------------------------------

/// Nothing is selected.
pub open spec fn unselected(s: SessionModel) -> SessionModel {
    SessionModel { selected_quest: None, selected: Seq::empty(), ..s }
}

/// One quest alone is selected.
pub open spec fn only_selected(s: SessionModel, id: Seq<char>) -> SessionModel {
    SessionModel { selected_quest: Some(id), selected: seq![(id, ())], ..s }
}

/// One quest more is selected.
pub open spec fn also_selected(s: SessionModel, id: Seq<char>) -> SessionModel {
    SessionModel {
        selected_quest: Some(id),
        selected: table::upsert(s.selected, id, ()),
        ..s
    }
}

/// The first of what is selected.
pub open spec fn first_selected(selected: Seq<(Seq<char>, ())>) -> Option<Seq<char>> {
    if selected.len() == 0 {
        None
    } else {
        Some(selected[0].0)
    }
}

/// A quest that was selected is not, and the other way round.
pub open spec fn toggled(s: SessionModel, id: Seq<char>) -> SessionModel {
    if table::has_key(s.selected, id) {
        let left = table::without(s.selected, id);
        SessionModel {
            selected: left,
            selected_quest: if s.selected_quest == Some(id) {
                first_selected(left)
            } else {
                s.selected_quest
            },
            ..s
        }
    } else {
        also_selected(s, id)
    }
}

/// Several quests more are selected.
pub open spec fn all_selected(s: SessionModel, ids: Seq<Seq<char>>) -> SessionModel
    decreases ids.len(),
{
    if ids.len() == 0 {
        s
    } else {
        also_selected(all_selected(s, ids.drop_last()), ids.last())
    }
}

/// The place of the selected quest in the selected chapter.
pub open spec fn selected_index(s: SessionModel) -> Option<int> {
    match s.selected_quest {
        Some(id) => if s.selected_chapter < s.book.chapters.len() {
            labels::place_in(s.book.chapters[s.selected_chapter as int].quests, id, 0)
        } else {
            None
        },
        None => None,
    }
}

fn is_text(value: &Option<String>, other: &str) -> (r: bool)
    ensures
        r == (text::opt_text(*value) == Some(other@)),
{
    match value {
        Some(s) => text::same(s.as_str(), other),
        None => false,
    }
}

impl Session {
    /// The place of the selected quest in the selected chapter.
    pub fn selected_quest_index(&self) -> (r: Option<usize>)
        ensures
            match r {
                Some(i) => selected_index(self@) == Some(i as int),
                None => selected_index(self@) is None,
            },
    {
        match &self.selected_quest {
            Some(id) => {
                if self.selected_chapter < self.book.chapters.len() {
                    assert(self@.book.chapters[self.selected_chapter as int]
                        == self.book.chapters@[self.selected_chapter as int]@);
                    find_quest(&self.book.chapters[self.selected_chapter].quests, id.as_str())
                } else {
                    None
                }
            },
            None => None,
        }
    }

    /// Selects nothing.
    pub fn clear_quest_selection(&mut self)
        ensures
            final(self)@ == unselected(old(self)@),
    {
        self.selected_quest = None;
        self.selected_quests.clear();
    }

    /// Selects one quest alone.
    pub fn select_only(&mut self, quest_id: String)
        ensures
            final(self)@ == only_selected(old(self)@, quest_id@),
    {
        self.selected_quests.clear();
        proof {
            table::lemma_place_upsert(
                Seq::<(Seq<char>, ())>::empty(),
                quest_id@,
                (),
                0,
            );
        }
        self.selected_quests.insert(quest_id.clone(), ());
        assert(self.selected_quests@ =~= seq![(quest_id@, ())]);
        self.selected_quest = Some(quest_id);
    }

    /// Selects one quest more.
    pub fn select_also(&mut self, quest_id: String)
        ensures
            final(self)@ == also_selected(old(self)@, quest_id@),
    {
        self.selected_quests.insert(quest_id.clone(), ());
        self.selected_quest = Some(quest_id);
    }

    /// Selects a quest, or takes it from the selected ones.
    pub fn toggle_selection(&mut self, quest_id: String)
        ensures
            final(self)@ == toggled(old(self)@, quest_id@),
    {
        if !self.selected_quests.remove(quest_id.as_str()) {
            self.select_also(quest_id);
        } else if is_text(&self.selected_quest, quest_id.as_str()) {
            self.selected_quest = if self.selected_quests.len() == 0 {
                None
            } else {
                Some(self.selected_quests.key_at(0).to_owned())
            };
        }
    }

    /// Selects the quests of an area, beside what is selected or in its place.
    pub fn select_area(&mut self, ids: &Vec<String>, additive: bool)
        ensures
            final(self)@ == all_selected(
                if additive {
                    old(self)@
                } else {
                    unselected(old(self)@)
                },
                text::texts(ids@),
            ),
    {
        if !additive {
            self.clear_quest_selection();
        }
        let ghost start = self@;
        let ghost all = text::texts(ids@);
        let mut i: usize = 0;
        assert(all.take(0) =~= Seq::empty());
        while i < ids.len()
            invariant
                i <= ids@.len(),
                all == text::texts(ids@),
                self@ == all_selected(start, all.take(i as int)),
            decreases ids@.len() - i,
        {
            proof {
                assert(all.take(i + 1).drop_last() =~= all.take(i as int));
                assert(all.take(i + 1).last() == ids@[i as int]@);
            }
            self.select_also(ids[i].clone());
            i += 1;
        }
        assert(all.take(i as int) =~= all);
    }

    /// Takes another tool.
    pub fn choose_tool(&mut self, tool: CanvasTool)
        ensures
            final(self)@ == (SessionModel {
                canvas_tool: tool,
                connection_start: None,
                ..old(self)@
            }),
    {
        self.canvas_tool = tool;
        self.connection_start = None;
    }

    /// Shows a chapter.
    pub fn choose_chapter(&mut self, index: usize)
        ensures
            final(self)@ == unselected(
                SessionModel { selected_chapter: index, ..old(self)@ },
            ),
    {
        self.selected_chapter = index;
        self.clear_quest_selection();
    }
}

// ---------------------------------------------------------------------------
// Copying, pasting and deleting
// ---------------------------------------------------------------------------

/// The quests that are selected.
pub open spec fn chosen(quests: Seq<quest::QuestModel>, selected: Seq<(Seq<char>, ())>) -> Seq<
    quest::QuestModel,
>
    decreases quests.len(),
{
    if quests.len() == 0 {
        Seq::empty()
    } else {
        let front = chosen(quests.drop_last(), selected);
        if table::has_key(selected, quests.last().id) {
            front.push(quests.last())
        } else {
            front
        }
    }
}

/// A text with a number in it.
pub open spec fn counted(before: Seq<char>, n: nat, after: Seq<char>) -> Seq<char> {
    before + compose::decimal(n) + after
}

/// The session after the selected quests of the selected chapter have been copied.
pub open spec fn copied(s: SessionModel) -> SessionModel {
    if s.selected_chapter < s.book.chapters.len() {
        let quests = chosen(s.book.chapters[s.selected_chapter as int].quests, s.selected);
        SessionModel {
            clipboard: quests,
            status: counted("Скопировано квестов: "@, quests.len(), "."@),
            ..s
        }
    } else {
        s
    }
}

/// The session after copies have been put into the book.
pub open spec fn pasted(s: SessionModel, positions: Seq<(Number, Number)>) -> SessionModel {
    if s.clipboard.len() == 0 {
        SessionModel { status: "Буфер квестов пуст."@, ..s }
    } else if s.selected_chapter < s.book.chapters.len() {
        let chapter = s.book.chapters[s.selected_chapter as int];
        let copies = duplicate::all_copied(s.clipboard, positions, s.id_state);
        let placed = SessionModel {
            book: editor::with_chapters(
                s.book,
                s.book.chapters.update(
                    s.selected_chapter as int,
                    editor::with_quests(chapter, chapter.quests + copies),
                ),
            ),
            id_state: naming::state_after(
                s.id_state,
                s.clipboard.len() + duplicate::ids_taken(s.clipboard),
            ),
            ..s
        };
        SessionModel {
            status: counted("Вставлено квестов: "@, copies.len(), "."@),
            ..all_selected(unselected(placed), duplicate::ids_of(copies))
        }
    } else {
        SessionModel {
            status: counted("Вставлено квестов: "@, 0, "."@),
            ..unselected(s)
        }
    }
}

fn counted_text(before: &str, n: usize, after: &str) -> (r: String)
    ensures
        r@ == counted(before@, n as nat, after@),
{
    let mut r = before.to_owned();
    r.append(number(n as u128).as_str());
    r.append(after);
    r
}

/// The ids that are selected.
pub open spec fn selected_ids(selected: Seq<(Seq<char>, ())>) -> Seq<Seq<char>> {
    Seq::new(selected.len(), |i: int| selected[i].0)
}

impl Session {
    /// Copies the selected quests of the selected chapter.
    pub fn copy_selected_quests(&mut self)
        ensures
            final(self)@ == copied(old(self)@),
    {
        if self.selected_chapter >= self.book.chapters.len() {
            return;
        }
        let ghost chapter = self@.book.chapters[self.selected_chapter as int];
        assert(chapter == self.book.chapters@[self.selected_chapter as int]@);
        let quests = &self.book.chapters[self.selected_chapter].quests;
        let ghost all = chapter.quests;
        let mut found: Vec<Quest> = Vec::new();
        let mut i: usize = 0;
        assert(all.take(0) =~= Seq::empty());
        assert(order::views(found@) =~= Seq::empty());
        while i < quests.len()
            invariant
                i <= quests@.len(),
                all == order::views(quests@),
                order::views(found@) == chosen(all.take(i as int), self.selected_quests@),
            decreases quests@.len() - i,
        {
            proof {
                assert(all.take(i + 1).drop_last() =~= all.take(i as int));
                assert(all.take(i + 1).last() == quests@[i as int]@);
            }
            if self.selected_quests.contains_key(quests[i].id.as_str()) {
                let ghost before = found@;
                let quest = quests[i].copy();
                let ghost model = quest@;
                found.push(quest);
                assert(order::views(found@) =~= order::views(before).push(model));
            }
            i += 1;
        }
        assert(all.take(i as int) =~= all);
        self.status = counted_text("Скопировано квестов: ", found.len(), ".");
        self.quest_clipboard = found;
    }

    /// Puts copies of the copied quests into the selected chapter, at the given places, and selects
    /// them.
    pub fn paste_quests(&mut self, positions: &Vec<(Number, Number)>)
        ensures
            final(self)@ == pasted(old(self)@, positions@),
    {
        if self.quest_clipboard.len() == 0 {
            self.status = "Буфер квестов пуст.".to_owned();
            return;
        }
        let ghost s = self@;
        let new_ids = self.book.duplicate_quests(
            self.selected_chapter,
            &self.quest_clipboard,
            positions,
            &mut self.ids,
        );
        let ghost added = self@;
        self.select_area(&new_ids, false);
        self.status = counted_text("Вставлено квестов: ", new_ids.len(), ".");
        proof {
            if s.selected_chapter >= s.book.chapters.len() {
                assert(text::texts(new_ids@) =~= Seq::empty());
            } else {
                let copies = duplicate::all_copied(s.clipboard, positions@, s.id_state);
                assert(text::texts(new_ids@).len() == copies.len());
            }
        }
    }

    /// Asks whether the selected quests are to be deleted.
    pub fn request_delete_selected(&mut self)
        ensures
            final(self)@ == if old(self)@.selected.len() > 0 {
                (SessionModel {
                    delete_confirmation: Some(selected_ids(old(self)@.selected)),
                    ..old(self)@
                })
            } else {
                old(self)@
            },
    {
        let n: usize = self.selected_quests.len();
        if n == 0 {
            return;
        }
        let mut ids: Vec<String> = Vec::new();
        let mut i: usize = 0;
        while i < n
            invariant
                i <= n == self.selected_quests@.len(),
                ids@.len() == i,
                forall|j: int| 0 <= j < i ==> (#[trigger] ids@[j])@ == self.selected_quests@[j].0,
            decreases n - i,
        {
            ids.push(self.selected_quests.key_at(i).to_owned());
            i += 1;
        }
        assert(text::texts(ids@) =~= selected_ids(self.selected_quests@));
        self.delete_confirmation = Some(ids);
    }
}

/// The ids without those that are removed.
pub open spec fn ids_without(ids: Seq<Seq<char>>, removed: Seq<Seq<char>>) -> Seq<Seq<char>>
    decreases ids.len(),
{
    if ids.len() == 0 {
        Seq::empty()
    } else {
        let front = ids_without(ids.drop_last(), removed);
        if removed.contains(ids.last()) {
            front
        } else {
            front.push(ids.last())
        }
    }
}

/// The quest without dependencies on what is removed.
pub open spec fn freed(quest: quest::QuestModel, removed: Seq<Seq<char>>) -> quest::QuestModel {
    quest::QuestModel { dependencies: ids_without(quest.dependencies, removed), ..quest }
}

/// The quests that are not removed, without dependencies on those that are.
pub open spec fn quests_without(
    quests: Seq<quest::QuestModel>,
    removed: Seq<Seq<char>>,
) -> Seq<quest::QuestModel>
    decreases quests.len(),
{
    if quests.len() == 0 {
        Seq::empty()
    } else {
        let front = quests_without(quests.drop_last(), removed);
        if removed.contains(quests.last().id) {
            front
        } else {
            front.push(freed(quests.last(), removed))
        }
    }
}

/// The chapters without quests that are removed.
pub open spec fn chapters_without(
    chapters: Seq<quest::ChapterModel>,
    removed: Seq<Seq<char>>,
) -> Seq<quest::ChapterModel> {
    Seq::new(
        chapters.len(),
        |i: int|
            editor::with_quests(chapters[i], quests_without(chapters[i].quests, removed)),
    )
}

/// The session after quests have been deleted.
pub open spec fn deleted(s: SessionModel, removed: Seq<Seq<char>>) -> SessionModel {
    SessionModel {
        book: editor::with_chapters(s.book, chapters_without(s.book.chapters, removed)),
        connection_start: None,
        status: counted("Удалено квестов: "@, crate::book::different(removed), "."@),
        ..unselected(s)
    }
}

fn remove_ids(ids: &Vec<String>, removed: &Vec<String>) -> (r: Vec<String>)
    ensures
        text::texts(r@) == ids_without(text::texts(ids@), text::texts(removed@)),
{
    let ghost all = text::texts(ids@);
    let mut r: Vec<String> = Vec::new();
    let mut i: usize = 0;
    assert(all.take(0) =~= Seq::empty());
    assert(text::texts(r@) =~= Seq::empty());
    while i < ids.len()
        invariant
            i <= ids@.len(),
            all == text::texts(ids@),
            text::texts(r@) == ids_without(all.take(i as int), text::texts(removed@)),
        decreases ids@.len() - i,
    {
        proof {
            assert(all.take(i + 1).drop_last() =~= all.take(i as int));
            assert(all.take(i + 1).last() == ids@[i as int]@);
        }
        if !holds_text(removed, ids[i].as_str()) {
            let ghost before = r@;
            r.push(ids[i].clone());
            assert(text::texts(r@) =~= text::texts(before).push(ids@[i as int]@));
        }
        i += 1;
    }
    assert(all.take(i as int) =~= all);
    r
}

fn remove_quests(quests: &Vec<Quest>, removed: &Vec<String>) -> (r: Vec<Quest>)
    ensures
        order::views(r@) == quests_without(order::views(quests@), text::texts(removed@)),
{
    let ghost all = order::views(quests@);
    let mut r: Vec<Quest> = Vec::new();
    let mut i: usize = 0;
    assert(all.take(0) =~= Seq::empty());
    assert(order::views(r@) =~= Seq::empty());
    while i < quests.len()
        invariant
            i <= quests@.len(),
            all == order::views(quests@),
            order::views(r@) == quests_without(all.take(i as int), text::texts(removed@)),
        decreases quests@.len() - i,
    {
        proof {
            assert(all.take(i + 1).drop_last() =~= all.take(i as int));
            assert(all.take(i + 1).last() == quests@[i as int]@);
        }
        if !holds_text(removed, quests[i].id.as_str()) {
            let ghost before = r@;
            let mut quest = quests[i].copy();
            quest.dependencies = remove_ids(&quests[i].dependencies, removed);
            let ghost model = quest@;
            r.push(quest);
            assert(order::views(r@) =~= order::views(before).push(model));
        }
        i += 1;
    }
    assert(all.take(i as int) =~= all);
    r
}

fn count_ids(ids: &Vec<String>) -> (r: usize)
    ensures
        r == crate::book::different(text::texts(ids@)),
{
    let ghost all = text::texts(ids@);
    let mut seen: Vec<String> = Vec::new();
    let mut r: usize = 0;
    let mut i: usize = 0;
    assert(all.take(0) =~= Seq::empty());
    assert(text::texts(seen@) =~= Seq::empty());
    while i < ids.len()
        invariant
            i <= ids@.len(),
            r <= i,
            all == text::texts(ids@),
            text::texts(seen@) == all.take(i as int),
            r == crate::book::different(all.take(i as int)),
        decreases ids@.len() - i,
    {
        proof {
            assert(all.take(i + 1).drop_last() =~= all.take(i as int));
            assert(all.take(i + 1).last() == ids@[i as int]@);
        }
        if !holds_text(&seen, ids[i].as_str()) {
            r += 1;
        }
        let ghost before = seen@;
        seen.push(ids[i].clone());
        assert(text::texts(seen@) =~= text::texts(before).push(ids@[i as int]@));
        assert(text::texts(seen@) =~= all.take(i + 1));
        i += 1;
    }
    assert(all.take(i as int) =~= all);
    r
}

impl Session {
    /// Deletes quests, and the dependencies on them.
    pub fn delete_quests(&mut self, ids: &Vec<String>)
        ensures
            final(self)@ == deleted(old(self)@, text::texts(ids@)),
    {
        let ghost all = self@.book.chapters;
        let ghost removed = text::texts(ids@);
        let n: usize = self.book.chapters.len();
        let mut i: usize = 0;
        while i < n
            invariant
                i <= n == self.book.chapters@.len() == all.len(),
                removed == text::texts(ids@),
                all == old(self)@.book.chapters,
                self@ == (SessionModel {
                    book: editor::with_chapters(old(self)@.book, self@.book.chapters),
                    ..old(self)@
                }),
                forall|j: int|
                    0 <= j < i ==> (#[trigger] self.book.chapters@[j])@ == editor::with_quests(
                        all[j],
                        quests_without(all[j].quests, removed),
                    ),
                forall|j: int| i <= j < n ==> (#[trigger] self.book.chapters@[j])@ == all[j],
            decreases n - i,
        {
            let quests = remove_quests(&self.book.chapters[i].quests, ids);
            self.book.chapters[i].quests = quests;
            i += 1;
        }
        assert(self@.book.chapters =~= chapters_without(all, removed));
        self.clear_quest_selection();
        self.connection_start = None;
        self.status = counted_text("Удалено квестов: ", count_ids(ids), ".");
    }

    /// Deletes the quests of which it was asked whether they are to be deleted.
    pub fn confirm_delete(&mut self)
        ensures
            final(self)@ == match old(self)@.delete_confirmation {
                Some(ids) => (SessionModel {
                    delete_confirmation: None,
                    ..deleted(old(self)@, ids)
                }),
                None => old(self)@,
            },
    {
        let mut asked: Option<Vec<String>> = None;
        std::mem::swap(&mut asked, &mut self.delete_confirmation);
        match asked {
            Some(ids) => {
                self.delete_quests(&ids);
            },
            None => {},
        }
    }
}

// ---------------------------------------------------------------------------
// Dependencies
// ---------------------------------------------------------------------------

/// The book with another quest at a place.
pub open spec fn with_quest(
    book: editor::BookModel,
    c: int,
    i: int,
    quest: quest::QuestModel,
) -> editor::BookModel {
    editor::with_chapters(
        book,
        book.chapters.update(
            c,
            editor::with_quests(book.chapters[c], book.chapters[c].quests.update(i, quest)),
        ),
    )
}

/// Chapters in which one quest was changed.
proof fn lemma_quest_changed(before: Seq<Chapter>, after: Seq<Chapter>, c: int, i: int)
    requires
        0 <= c < before.len(),
        after.len() == before.len(),
        forall|k: int| 0 <= k < before.len() && k != c ==> #[trigger] after[k] == before[k],
        after[c] == (Chapter { quests: after[c].quests, ..before[c] }),
        0 <= i < before[c].quests@.len(),
        after[c].quests@.len() == before[c].quests@.len(),
        forall|k: int|
            0 <= k < before[c].quests@.len() && k != i ==> #[trigger] after[c].quests@[k]
                == before[c].quests@[k],
    ensures
        order::views(after) == order::views(before).update(
            c,
            editor::with_quests(
                before[c]@,
                before[c]@.quests.update(i, after[c].quests@[i]@),
            ),
        ),
{
    assert(order::views(after[c].quests@) =~= order::views(before[c].quests@).update(
        i,
        after[c].quests@[i]@,
    ));
    assert(order::views(after) =~= order::views(before).update(c, after[c]@));
}

/// The quest with one dependency more, where it has not got it.
pub open spec fn depending(quest: quest::QuestModel, id: Seq<char>) -> quest::QuestModel {
    if quest.dependencies.contains(id) {
        quest
    } else {
        quest::QuestModel { dependencies: quest.dependencies.push(id), ..quest }
    }
}

/// The quest without a dependency.
pub open spec fn not_depending(quest: quest::QuestModel, id: Seq<char>) -> quest::QuestModel {
    quest::QuestModel { dependencies: ids_without(quest.dependencies, seq![id]), ..quest }
}

impl EditableBook {
    /// Adds a dependency to a quest that has not got it.
    pub fn add_dependency(&mut self, c: usize, i: usize, id: String)
        requires
            c < old(self)@.chapters.len(),
            i < old(self)@.chapters[c as int].quests.len(),
        ensures
            final(self)@ == with_quest(
                old(self)@,
                c as int,
                i as int,
                depending(old(self)@.chapters[c as int].quests[i as int], id@),
            ),
    {
        let ghost chapters = self.chapters@;
        let ghost quests = self.chapters@[c as int].quests@;
        let ghost quest = quests[i as int];
        proof {
            assert(self@.chapters[c as int] == chapters[c as int]@);
            assert(self@.chapters[c as int].quests[i as int] == quest@);
        }
        if !holds_text(&self.chapters[c].quests[i].dependencies, id.as_str()) {
            let ghost model = id@;
            self.chapters[c].quests[i].dependencies.push(id);
            proof {
                let after = self.chapters@[c as int].quests@[i as int];
                assert(text::texts(after.dependencies@) =~= text::texts(quest.dependencies@).push(
                    model,
                ));
            }
        }
        proof {
            lemma_quest_changed(chapters, self.chapters@, c as int, i as int);
        }
    }

    /// Takes a dependency from a quest.
    pub fn remove_dependency(&mut self, c: usize, i: usize, id: &str)
        requires
            c < old(self)@.chapters.len(),
            i < old(self)@.chapters[c as int].quests.len(),
        ensures
            final(self)@ == with_quest(
                old(self)@,
                c as int,
                i as int,
                not_depending(old(self)@.chapters[c as int].quests[i as int], id@),
            ),
    {
        let ghost chapters = self.chapters@;
        let mut removed: Vec<String> = Vec::new();
        removed.push(id.to_owned());
        assert(text::texts(removed@) =~= seq![id@]);
        let left = remove_ids(&self.chapters[c].quests[i].dependencies, &removed);
        self.chapters[c].quests[i].dependencies = left;
        proof {
            lemma_quest_changed(chapters, self.chapters@, c as int, i as int);
        }
    }
}

/// The session after a dependency that would close a cycle has been refused.
pub open spec fn refused(
    s: SessionModel,
    cycle: Seq<Seq<char>>,
    status: Seq<char>,
    elapsed: u64,
) -> SessionModel {
    SessionModel {
        right_tab: RightTab::Logs,
        ..logged(
            SessionModel { status, ..s },
            LogLevel::Warning,
            labels::cycle_text(s.book, cycle, "Отклонена новая зависимость"@),
            elapsed,
        )
    }
}

/// The session after a quest has been clicked to be connected: the first click chooses what is
/// required, the second one what requires it.
pub open spec fn connected(s: SessionModel, id: Seq<char>, elapsed: u64) -> SessionModel {
    match s.connection_start {
        None => SessionModel {
            status: "Выберите зависимый квест: связь строится от требования к результату."@,
            ..only_selected(SessionModel { connection_start: Some(id), ..s }, id)
        },
        Some(start) => {
            let t = SessionModel { connection_start: None, ..s };
            if start == id {
                SessionModel { status: "Квест не может зависеть от самого себя."@, ..t }
            } else {
                match diagnostics::closed_cycle(diagnostics::book_table(s.book), id, start) {
                    Some(cycle) => refused(
                        t,
                        cycle,
                        "Связь отклонена: она создаёт цикл."@,
                        elapsed,
                    ),
                    None => SessionModel {
                        status: "Зависимость создана."@,
                        ..only_selected(
                            SessionModel { book: with_link(s.book, s.selected_chapter, id, start), ..t },
                            id,
                        )
                    },
                }
            }
        },
    }
}

/// The book in which a quest of a chapter depends on another one.
pub open spec fn with_link(
    book: editor::BookModel,
    chapter: usize,
    id: Seq<char>,
    required: Seq<char>,
) -> editor::BookModel {
    if chapter < book.chapters.len() {
        match labels::place_in(book.chapters[chapter as int].quests, id, 0) {
            Some(i) => with_quest(
                book,
                chapter as int,
                i,
                depending(book.chapters[chapter as int].quests[i], required),
            ),
            None => book,
        }
    } else {
        book
    }
}

/// The session after a dependency has been switched on or off.
pub open spec fn switched(
    s: SessionModel,
    c: int,
    i: int,
    id: Seq<char>,
    enabled: bool,
    elapsed: u64,
) -> SessionModel {
    let quest = s.book.chapters[c].quests[i];
    if enabled {
        match diagnostics::closed_cycle(diagnostics::book_table(s.book), quest.id, id) {
            Some(cycle) => refused(
                s,
                cycle,
                "Зависимость не добавлена: получился бы циклический маршрут."@,
                elapsed,
            ),
            None => SessionModel { book: with_quest(s.book, c, i, depending(quest, id)), ..s },
        }
    } else {
        SessionModel { book: with_quest(s.book, c, i, not_depending(quest, id)), ..s }
    }
}

impl Session {
    fn refuse(&mut self, cycle: &DependencyCycle, status: &str, elapsed: u64)
        ensures
            final(self)@ == refused(old(self)@, cycle@, status@, elapsed),
    {
        self.status = status.to_owned();
        self.log_cycle(cycle, "Отклонена новая зависимость", elapsed);
        self.right_tab = RightTab::Logs;
    }

    /// Chooses a quest to be connected, or connects it with the one that was chosen.
    pub fn handle_connection_click(&mut self, quest_id: String, elapsed: u64)
        ensures
            final(self)@ == connected(old(self)@, quest_id@, elapsed),
    {
        let ghost s = self@;
        let mut start: Option<String> = None;
        std::mem::swap(&mut start, &mut self.connection_start);
        let start_id = match start {
            None => {
                self.connection_start = Some(quest_id.clone());
                self.select_only(quest_id);
                self.status =
                "Выберите зависимый квест: связь строится от требования к результату.".to_owned();
                return;
            },
            Some(start_id) => start_id,
        };
        if text::same(start_id.as_str(), quest_id.as_str()) {
            self.status = "Квест не может зависеть от самого себя.".to_owned();
            return;
        }
        match cycle_after_adding_dependency(&self.book, quest_id.as_str(), start_id.as_str()) {
            Some(cycle) => {
                self.refuse(&cycle, "Связь отклонена: она создаёт цикл.", elapsed);
                return;
            },
            None => {},
        }
        if self.selected_chapter < self.book.chapters.len() {
            assert(self@.book.chapters[self.selected_chapter as int]
                == self.book.chapters@[self.selected_chapter as int]@);
            match find_quest(
                &self.book.chapters[self.selected_chapter].quests,
                quest_id.as_str(),
            ) {
                Some(i) => {
                    self.book.add_dependency(self.selected_chapter, i, start_id);
                },
                None => {},
            }
        }
        self.select_only(quest_id);
        self.status = "Зависимость создана.".to_owned();
    }

    /// Switches a dependency of a quest on or off.
    pub fn set_dependency(
        &mut self,
        c: usize,
        i: usize,
        dependency_id: &str,
        enabled: bool,
        elapsed: u64,
    )
        requires
            c < old(self)@.book.chapters.len(),
            i < old(self)@.book.chapters[c as int].quests.len(),
        ensures
            final(self)@ == switched(
                old(self)@,
                c as int,
                i as int,
                dependency_id@,
                enabled,
                elapsed,
            ),
    {
        let quest_id = self.book.chapters[c].quests[i].id.clone();
        proof {
            assert(self@.book.chapters[c as int] == self.book.chapters@[c as int]@);
            assert(self@.book.chapters[c as int].quests[i as int]
                == self.book.chapters@[c as int].quests@[i as int]@);
        }
        if enabled {
            match cycle_after_adding_dependency(&self.book, quest_id.as_str(), dependency_id) {
                Some(cycle) => {
                    self.refuse(
                        &cycle,
                        "Зависимость не добавлена: получился бы циклический маршрут.",
                        elapsed,
                    );
                    return;
                },
                None => {},
            }
            self.book.add_dependency(c, i, dependency_id.to_owned());
        } else {
            self.book.remove_dependency(c, i, dependency_id);
        }
    }

    /// What a click on a quest does with the tool that is taken.
    pub fn click_quest(&mut self, quest_id: String, shift: bool, elapsed: u64)
        ensures
            final(self)@ == match old(self)@.canvas_tool {
                CanvasTool::Cursor => if shift {
                    toggled(old(self)@, quest_id@)
                } else {
                    only_selected(old(self)@, quest_id@)
                },
                CanvasTool::Select => toggled(old(self)@, quest_id@),
                CanvasTool::Connect => connected(old(self)@, quest_id@, elapsed),
                CanvasTool::Delete => (SessionModel {
                    delete_confirmation: Some(seq![quest_id@]),
                    ..old(self)@
                }),
            },
    {
        match self.canvas_tool {
            CanvasTool::Cursor => {
                if shift {
                    self.toggle_selection(quest_id);
                } else {
                    self.select_only(quest_id);
                }
            },
            CanvasTool::Select => {
                self.toggle_selection(quest_id);
            },
            CanvasTool::Connect => {
                self.handle_connection_click(quest_id, elapsed);
            },
            CanvasTool::Delete => {
                let mut ids: Vec<String> = Vec::new();
                let ghost id = quest_id@;
                ids.push(quest_id);
                assert(text::texts(ids@) =~= seq![id]);
                self.delete_confirmation = Some(ids);
            },
        }
    }

    /// What a click beside all quests does.
    pub fn click_canvas(&mut self)
        ensures
            final(self)@ == if old(self)@.canvas_tool == CanvasTool::Connect {
                (SessionModel { connection_start: None, ..old(self)@ })
            } else {
                unselected(old(self)@)
            },
    {
        if self.canvas_tool == CanvasTool::Connect {
            self.connection_start = None;
        } else {
            self.clear_quest_selection();
        }
    }
}

// ---------------------------------------------------------------------------
// Groups, chapters and quests
// ---------------------------------------------------------------------------

/// The first chapter with an id, from the `i`th on.
pub open spec fn chapter_place(chapters: Seq<quest::ChapterModel>, id: Seq<char>, i: int) -> Option<
    int,
>
    decreases chapters.len() - i,
{
    if i < 0 || i >= chapters.len() {
        None
    } else if chapters[i].id == id {
        Some(i)
    } else {
        chapter_place(chapters, id, i + 1)
    }
}

/// The first chapter of a group, from the `i`th on.
pub open spec fn grouped_place(
    chapters: Seq<quest::ChapterModel>,
    group: Seq<char>,
    i: int,
) -> Option<int>
    decreases chapters.len() - i,
{
    if i < 0 || i >= chapters.len() {
        None
    } else if chapters[i].group == Some(group) {
        Some(i)
    } else {
        grouped_place(chapters, group, i + 1)
    }
}

/// What is said of a chapter that got another group.
pub open spec fn moved_text(
    book: editor::BookModel,
    title: Seq<char>,
    group: Option<Seq<char>>,
) -> Seq<char> {
    let chapter = translation::shown(book.translations, title);
    match group {
        Some(id) => "Глава «"@ + chapter + "» перенесена в «"@ + (match search::group_title(
            book.groups,
            id,
            0,
        ) {
            Some(found) => translation::shown(book.translations, found),
            None => "неизвестную группу"@,
        }) + "»."@,
        None => "Глава «"@ + chapter + "» перенесена в раздел без группы."@,
    }
}

/// The session after a chapter has been given another group.
pub open spec fn regrouped(s: SessionModel, id: Seq<char>, group: Option<Seq<char>>) -> SessionModel {
    match chapter_place(s.book.chapters, id, 0) {
        Some(i) => SessionModel {
            book: editor::with_chapters(
                s.book,
                s.book.chapters.update(i, quest::ChapterModel { group, ..s.book.chapters[i] }),
            ),
            status: moved_text(s.book, s.book.chapters[i].title, group),
            ..s
        },
        None => s,
    }
}

/// The groups without one.
pub open spec fn groups_without(groups: Seq<quest::GroupModel>, id: Seq<char>) -> Seq<
    quest::GroupModel,
>
    decreases groups.len(),
{
    if groups.len() == 0 {
        Seq::empty()
    } else {
        let front = groups_without(groups.drop_last(), id);
        if groups.last().id == id {
            front
        } else {
            front.push(groups.last())
        }
    }
}

/// The chapter without its group, where that is removed.
pub open spec fn ungrouped(chapter: quest::ChapterModel, id: Seq<char>) -> quest::ChapterModel {
    if chapter.group == Some(id) {
        quest::ChapterModel { group: None, ..chapter }
    } else {
        chapter
    }
}

/// The book without a group.
pub open spec fn without_group(book: editor::BookModel, id: Seq<char>) -> editor::BookModel {
    editor::BookModel {
        groups: groups_without(book.groups, id),
        chapters: Seq::new(book.chapters.len(), |i: int| ungrouped(book.chapters[i], id)),
        ..book
    }
}

fn find_chapter(chapters: &Vec<quest::Chapter>, id: &str) -> (r: Option<usize>)
    ensures
        match r {
            Some(i) => i < chapters@.len() && chapter_place(order::views(chapters@), id@, 0)
                == Some(i as int),
            None => chapter_place(order::views(chapters@), id@, 0) is None,
        },
{
    let ghost all = order::views(chapters@);
    let mut i: usize = 0;
    while i < chapters.len()
        invariant
            i <= chapters@.len(),
            all == order::views(chapters@),
            chapter_place(all, id@, 0) == chapter_place(all, id@, i as int),
        decreases chapters@.len() - i,
    {
        assert(all[i as int] == chapters@[i as int]@);
        if text::same(chapters[i].id.as_str(), id) {
            return Some(i);
        }
        i += 1;
    }
    None
}

impl EditableBook {
    /// Takes a group away; its chapters are in no group then.
    pub fn remove_group(&mut self, id: &str)
        ensures
            final(self)@ == without_group(old(self)@, id@),
    {
        let ghost book = self@;
        let ghost all = self@.groups;
        let mut groups: Vec<quest::ChapterGroup> = Vec::new();
        let mut i: usize = 0;
        assert(all.take(0) =~= Seq::empty());
        assert(order::views(groups@) =~= Seq::empty());
        while i < self.groups.len()
            invariant
                i <= self.groups@.len(),
                all == order::views(self.groups@),
                order::views(groups@) == groups_without(all.take(i as int), id@),
            decreases self.groups@.len() - i,
        {
            proof {
                assert(all.take(i + 1).drop_last() =~= all.take(i as int));
                assert(all.take(i + 1).last() == self.groups@[i as int]@);
            }
            if !text::same(self.groups[i].id.as_str(), id) {
                let ghost before = groups@;
                groups.push(self.groups[i].copy());
                assert(order::views(groups@) =~= order::views(before).push(
                    self.groups@[i as int]@,
                ));
            }
            i += 1;
        }
        assert(all.take(i as int) =~= all);
        self.groups = groups;
        let n: usize = self.chapters.len();
        let mut c: usize = 0;
        while c < n
            invariant
                c <= n == self.chapters@.len() == book.chapters.len(),
                self@ == (editor::BookModel {
                    groups: groups_without(book.groups, id@),
                    chapters: self@.chapters,
                    ..book
                }),
                forall|j: int|
                    0 <= j < c ==> (#[trigger] self.chapters@[j])@ == ungrouped(
                        book.chapters[j],
                        id@,
                    ),
                forall|j: int| c <= j < n ==> (#[trigger] self.chapters@[j])@ == book.chapters[j],
            decreases n - c,
        {
            if is_text(&self.chapters[c].group, id) {
                self.chapters[c].group = None;
            }
            c += 1;
        }
        assert(self@.chapters =~= without_group(book, id@).chapters);
    }

    /// Takes a chapter away.
    pub fn remove_chapter(&mut self, index: usize)
        requires
            index < old(self)@.chapters.len(),
        ensures
            final(self)@ == editor::with_chapters(
                old(self)@,
                old(self)@.chapters.remove(index as int),
            ),
    {
        let ghost before = self.chapters@;
        self.chapters.remove(index);
        assert(order::views(self.chapters@) =~= order::views(before).remove(index as int));
    }
}

/// The session after the selected chapter has been taken away, if there is another one.
pub open spec fn chapter_removed(s: SessionModel) -> SessionModel {
    let n = s.book.chapters.len();
    if n > 1 && s.selected_chapter < n {
        unselected(
            SessionModel {
                book: editor::with_chapters(
                    s.book,
                    s.book.chapters.remove(s.selected_chapter as int),
                ),
                selected_chapter: if s.selected_chapter <= n - 2 {
                    s.selected_chapter
                } else {
                    (n - 2) as usize
                },
                ..s
            },
        )
    } else {
        s
    }
}

impl Session {
    /// Gives a chapter another group.
    pub fn move_chapter_to_group(&mut self, chapter_id: &str, group_id: Option<&str>)
        ensures
            final(self)@ == regrouped(old(self)@, chapter_id@, text::opt_str(group_id)),
    {
        let ghost s = self@;
        let index: usize = match find_chapter(&self.book.chapters, chapter_id) {
            Some(index) => index,
            None => {
                return;
            },
        };
        let ghost chapters = self.book.chapters@;
        assert(s.book.chapters[index as int] == chapters[index as int]@);
        let title = self.book.translations.resolve(self.book.chapters[index].title.as_str());
        let mut status = "Глава «".to_owned();
        status.append(title.as_str());
        match group_id {
            Some(id) => {
                status.append("» перенесена в «");
                let name = match find_group_title(&self.book.groups, id) {
                    Some(found) => group_display_title(&self.book.translations, found),
                    None => "неизвестную группу".to_owned(),
                };
                status.append(name.as_str());
                status.append("».");
            },
            None => {
                status.append("» перенесена в раздел без группы.");
            },
        }
        self.book.chapters[index].group = match group_id {
            Some(id) => Some(id.to_owned()),
            None => None,
        };
        proof {
            assert(order::views(self.book.chapters@) =~= order::views(chapters).update(
                index as int,
                self.book.chapters@[index as int]@,
            ));
        }
        self.status = status;
    }

    /// Adds a chapter and shows it.
    pub fn add_chapter(&mut self, title: String, group: Option<String>)
        ensures
            exists|k: nat|
                #![trigger naming::candidate(naming::slug(title@), k)]
                naming::is_first_free(old(self)@.book.chapters, naming::slug(title@), k) && final(
                    self)@ == unselected(
                    SessionModel {
                        id_state: naming::next_state(old(self)@.id_state),
                        selected_chapter: old(self)@.book.chapters.len() as usize,
                        book: editor::with_chapters(
                            old(self)@.book,
                            old(self)@.book.chapters.push(
                                editor::empty_chapter(
                                    naming::id_of(naming::next_state(old(self)@.id_state)),
                                    naming::candidate(naming::slug(title@), k),
                                    title@,
                                    text::opt_text(group),
                                    (old(self)@.book.chapters.len() as usize) as i32,
                                ),
                            ),
                        ),
                        ..old(self)@
                    },
                ),
    {
        self.selected_chapter = self.book.add_chapter(title, group, &mut self.ids);
        self.clear_quest_selection();
    }

    /// Takes the selected chapter away, if there is another one.
    pub fn remove_selected_chapter(&mut self)
        ensures
            final(self)@ == chapter_removed(old(self)@),
    {
        if self.book.chapters.len() > 1 && self.selected_chapter < self.book.chapters.len() {
            self.book.remove_chapter(self.selected_chapter);
            let last: usize = self.book.chapters.len() - 1;
            if self.selected_chapter > last {
                self.selected_chapter = last;
            }
            self.clear_quest_selection();
        }
    }

    /// Adds a quest to the selected chapter and selects it.
    pub fn add_quest(&mut self, position: (Number, Number))
        ensures
            final(self)@ == if old(self)@.selected_chapter < old(self)@.book.chapters.len() {
                let s = old(self)@;
                let id = naming::id_of(naming::next_state(s.id_state));
                let chapter = s.book.chapters[s.selected_chapter as int];
                only_selected(
                    SessionModel {
                        id_state: naming::next_state(s.id_state),
                        book: editor::with_chapters(
                            s.book,
                            s.book.chapters.update(
                                s.selected_chapter as int,
                                editor::with_quests(
                                    chapter,
                                    chapter.quests.push(
                                        editor::new_quest(
                                            id,
                                            "Новый квест"@,
                                            Seq::empty(),
                                            position.0@,
                                            position.1@,
                                        ),
                                    ),
                                ),
                            ),
                        ),
                        ..s
                    },
                    id,
                )
            } else {
                old(self)@
            },
    {
        if self.selected_chapter >= self.book.chapters.len() {
            return;
        }
        let ghost c = self.selected_chapter as int;
        let ghost before = self@.book.chapters[c].quests;
        self.book.add_quest(self.selected_chapter, position, &mut self.ids);
        assert(self.book@.chapters.len() == self.book.chapters@.len());
        let quests = &self.book.chapters[self.selected_chapter].quests;
        proof {
            assert(self@.book.chapters[c] == self.book.chapters@[c]@);
            assert(order::views(quests@).len() == before.len() + 1);
            assert(quests@[quests@.len() - 1]@ == order::views(quests@)[quests@.len() - 1]);
        }
        let id = quests[quests.len() - 1].id.clone();
        self.select_only(id);
    }
}

// ---------------------------------------------------------------------------
// Tasks, rewards and resources
// ---------------------------------------------------------------------------

/// A task that can be added to a quest.
#[derive(Debug, Clone, Copy, PartialEq, Eq, Structural)]
pub enum NewTask {
    Checkmark,
    Item,
    Kill,
}

/// A reward that can be added to a quest.
#[derive(Debug, Clone, Copy, PartialEq, Eq, Structural)]
pub enum NewReward {
    Xp,
    Item,
}

/// A new task.
pub open spec fn new_task(kind: NewTask, id: Seq<char>) -> quest::TaskModel {
    match kind {
        NewTask::Checkmark => quest::TaskModel::Checkmark { id, title: "Выполнить"@, raw: None },
        NewTask::Item => quest::TaskModel::Item {
            id,
            title: "Получить предмет"@,
            item: "minecraft:stone"@,
            count: 1,
            raw: None,
        },
        NewTask::Kill => quest::TaskModel::Kill {
            id,
            title: "Убить существо"@,
            entity: "minecraft:zombie"@,
            count: 1,
            raw: None,
        },
    }
}

/// A new reward.
pub open spec fn new_reward(kind: NewReward, id: Seq<char>) -> quest::RewardModel {
    match kind {
        NewReward::Xp => quest::RewardModel::Xp { id, amount: 10, raw: None },
        NewReward::Item => quest::RewardModel::Item {
            id,
            item: "minecraft:diamond"@,
            count: 1,
            raw: None,
        },
    }
}

/// A new task with the next id.
pub fn make_task(kind: NewTask, ids: &mut IdGenerator) -> (r: Task)
    ensures
        final(ids).state == naming::next_state(old(ids).state),
        r@ == new_task(kind, naming::id_of(final(ids).state)),
{
    let id = ids.next_id();
    match kind {
        NewTask::Checkmark => Task::Checkmark { id, title: "Выполнить".to_owned(), raw: None },
        NewTask::Item => Task::Item {
            id,
            title: "Получить предмет".to_owned(),
            item: "minecraft:stone".to_owned(),
            count: 1,
            raw: None,
        },
        NewTask::Kill => Task::Kill {
            id,
            title: "Убить существо".to_owned(),
            entity: "minecraft:zombie".to_owned(),
            count: 1,
            raw: None,
        },
    }
}

/// A new reward with the next id.
pub fn make_reward(kind: NewReward, ids: &mut IdGenerator) -> (r: Reward)
    ensures
        final(ids).state == naming::next_state(old(ids).state),
        r@ == new_reward(kind, naming::id_of(final(ids).state)),
{
    let id = ids.next_id();
    match kind {
        NewReward::Xp => Reward::Xp { id, amount: 10, raw: None },
        NewReward::Item => Reward::Item {
            id,
            item: "minecraft:diamond".to_owned(),
            count: 1,
            raw: None,
        },
    }
}

/// What a resource is chosen for.
#[derive(Debug, Clone)]
pub enum ResourcePickerTarget {
    QuestIcon { quest_id: String },
    TaskItem { quest_id: String, index: usize },
    TaskEntity { quest_id: String, index: usize },
    RewardItem { quest_id: String, index: usize },
}

impl ResourcePickerTarget {
    /// What kind of resource it is.
    pub fn kind(&self) -> (r: ResourceKind)
        ensures
            r == if self is TaskEntity {
                ResourceKind::Entity
            } else {
                ResourceKind::Item
            },
    {
        match self {
            ResourcePickerTarget::TaskEntity { .. } => ResourceKind::Entity,
            _ => ResourceKind::Item,
        }
    }

    pub open spec fn for_quest(&self) -> Seq<char> {
        match self {
            ResourcePickerTarget::QuestIcon { quest_id } => quest_id@,
            ResourcePickerTarget::TaskItem { quest_id, .. } => quest_id@,
            ResourcePickerTarget::TaskEntity { quest_id, .. } => quest_id@,
            ResourcePickerTarget::RewardItem { quest_id, .. } => quest_id@,
        }
    }

    /// The quest that it is chosen for.
    pub fn quest_id(&self) -> (r: &str)
        ensures
            r@ == self.for_quest(),
    {
        match self {
            ResourcePickerTarget::QuestIcon { quest_id } => quest_id.as_str(),
            ResourcePickerTarget::TaskItem { quest_id, .. } => quest_id.as_str(),
            ResourcePickerTarget::TaskEntity { quest_id, .. } => quest_id.as_str(),
            ResourcePickerTarget::RewardItem { quest_id, .. } => quest_id.as_str(),
        }
    }
}

/// The task with another item, where it has one.
pub open spec fn task_with_item(task: quest::TaskModel, resource: Seq<char>) -> quest::TaskModel {
    match task {
        quest::TaskModel::Item { id, title, item, count, raw } => quest::TaskModel::Item {
            id,
            title,
            item: resource,
            count,
            raw,
        },
        other => other,
    }
}

/// The task with another entity, where it has one.
pub open spec fn task_with_entity(task: quest::TaskModel, resource: Seq<char>) -> quest::TaskModel {
    match task {
        quest::TaskModel::Kill { id, title, entity, count, raw } => quest::TaskModel::Kill {
            id,
            title,
            entity: resource,
            count,
            raw,
        },
        other => other,
    }
}

/// The reward with another item, where it has one.
pub open spec fn reward_with_item(
    reward: quest::RewardModel,
    resource: Seq<char>,
) -> quest::RewardModel {
    match reward {
        quest::RewardModel::Item { id, item, count, raw } => quest::RewardModel::Item {
            id,
            item: resource,
            count,
            raw,
        },
        other => other,
    }
}

/// The quest with a resource in the place for which it was chosen.
pub open spec fn quest_with_resource(
    quest: quest::QuestModel,
    target: ResourcePickerTarget,
    resource: Seq<char>,
) -> quest::QuestModel {
    match target {
        ResourcePickerTarget::QuestIcon { .. } => quest::QuestModel { icon: resource, ..quest },
        ResourcePickerTarget::TaskItem { index, .. } => if index < quest.tasks.len() {
            quest::QuestModel {
                tasks: quest.tasks.update(
                    index as int,
                    task_with_item(quest.tasks[index as int], resource),
                ),
                ..quest
            }
        } else {
            quest
        },
        ResourcePickerTarget::TaskEntity { index, .. } => if index < quest.tasks.len() {
            quest::QuestModel {
                tasks: quest.tasks.update(
                    index as int,
                    task_with_entity(quest.tasks[index as int], resource),
                ),
                ..quest
            }
        } else {
            quest
        },
        ResourcePickerTarget::RewardItem { index, .. } => if index < quest.rewards.len() {
            quest::QuestModel {
                rewards: quest.rewards.update(
                    index as int,
                    reward_with_item(quest.rewards[index as int], resource),
                ),
                ..quest
            }
        } else {
            quest
        },
    }
}

fn set_item(task: &mut Task, resource: String)
    ensures
        final(task)@ == task_with_item(old(task)@, resource@),
{
    match task {
        Task::Item { item, .. } => {
            *item = resource;
        },
        _ => {},
    }
}

fn set_entity(task: &mut Task, resource: String)
    ensures
        final(task)@ == task_with_entity(old(task)@, resource@),
{
    match task {
        Task::Kill { entity, .. } => {
            *entity = resource;
        },
        _ => {},
    }
}

fn set_reward_item(reward: &mut Reward, resource: String)
    ensures
        final(reward)@ == reward_with_item(old(reward)@, resource@),
{
    match reward {
        Reward::Item { item, .. } => {
            *item = resource;
        },
        _ => {},
    }
}

fn set_resource(quest: &mut Quest, target: &ResourcePickerTarget, resource: String)
    ensures
        final(quest)@ == quest_with_resource(old(quest)@, *target, resource@),
{
    let ghost tasks = quest.tasks@;
    let ghost rewards = quest.rewards@;
    match target {
        ResourcePickerTarget::QuestIcon { .. } => {
            quest.icon = resource;
        },
        ResourcePickerTarget::TaskItem { index, .. } => {
            if *index < quest.tasks.len() {
                set_item(&mut quest.tasks[*index], resource);
                assert(order::views(quest.tasks@) =~= order::views(tasks).update(
                    *index as int,
                    quest.tasks@[*index as int]@,
                ));
            }
        },
        ResourcePickerTarget::TaskEntity { index, .. } => {
            if *index < quest.tasks.len() {
                set_entity(&mut quest.tasks[*index], resource);
                assert(order::views(quest.tasks@) =~= order::views(tasks).update(
                    *index as int,
                    quest.tasks@[*index as int]@,
                ));
            }
        },
        ResourcePickerTarget::RewardItem { index, .. } => {
            if *index < quest.rewards.len() {
                set_reward_item(&mut quest.rewards[*index], resource);
                assert(order::views(quest.rewards@) =~= order::views(rewards).update(
                    *index as int,
                    quest.rewards@[*index as int]@,
                ));
            }
        },
    }
}

impl Session {
    /// Puts a resource in the place for which it was chosen.
    pub fn apply_resource_choice(&mut self, target: &ResourcePickerTarget, id: String)
        ensures
            final(self)@ == match labels::quest_place(
                old(self)@.book.chapters,
                target.for_quest(),
                0,
            ) {
                Some((c, i)) => (SessionModel {
                    book: with_quest(
                        old(self)@.book,
                        c,
                        i,
                        quest_with_resource(
                            old(self)@.book.chapters[c].quests[i],
                            *target,
                            id@,
                        ),
                    ),
                    ..old(self)@
                }),
                None => old(self)@,
            },
    {
        match locate_quest(&self.book.chapters, target.quest_id()) {
            Some((c, i)) => {
                let ghost chapters = self.book.chapters@;
                set_resource(&mut self.book.chapters[c].quests[i], target, id);
                proof {
                    lemma_quest_changed(chapters, self.book.chapters@, c as int, i as int);
                }
            },
            None => {},
        }
    }
}

/// The tags that a text names, with commas between them.
pub open spec fn tags_in(pieces: Seq<Seq<char>>) -> Seq<Seq<char>>
    decreases pieces.len(),
{
    if pieces.len() == 0 {
        Seq::empty()
    } else {
        let front = tags_in(pieces.drop_last());
        let tag = text::trimmed(pieces.last());
        if tag.len() == 0 {
            front
        } else {
            front.push(tag)
        }
    }
}

/// The tags that a text names, with commas between them.
pub fn split_tags(value: &str) -> (r: Vec<String>)
    ensures
        text::texts(r@) == tags_in(compose::pieces(value@, ',')),
{
    let pieces = split(value, ',');
    let ghost all = text::texts(pieces@);
    let mut r: Vec<String> = Vec::new();
    let mut i: usize = 0;
    assert(all.take(0) =~= Seq::empty());
    assert(text::texts(r@) =~= Seq::empty());
    while i < pieces.len()
        invariant
            i <= pieces@.len(),
            all == text::texts(pieces@),
            text::texts(r@) == tags_in(all.take(i as int)),
        decreases pieces@.len() - i,
    {
        proof {
            assert(all.take(i + 1).drop_last() =~= all.take(i as int));
            assert(all.take(i + 1).last() == pieces@[i as int]@);
        }
        if !text::is_blank(pieces[i].as_str()) {
            let tag = text::trim(pieces[i].as_str());
            let ghost before = r@;
            let ghost model = tag@;
            r.push(tag);
            assert(text::texts(r@) =~= text::texts(before).push(model));
        }
        i += 1;
    }
    assert(all.take(i as int) =~= all);
    r
}

// ---------------------------------------------------------------------------
// Opening what was found
// ---------------------------------------------------------------------------

/// The session after something that was found has been opened.
pub open spec fn opened(s: SessionModel, target: search::TargetModel) -> SessionModel {
    let t = SessionModel { right_tab: RightTab::Inspector, ..s };
    match target {
        search::TargetModel::Quest(c, id) => only_selected(
            SessionModel { selected_chapter: c as usize, ..t },
            id,
        ),
        search::TargetModel::Chapter(c) => unselected(
            SessionModel { selected_chapter: c as usize, ..t },
        ),
        search::TargetModel::Group(id) => match grouped_place(s.book.chapters, id, 0) {
            Some(c) => unselected(SessionModel { selected_chapter: c as usize, ..t }),
            None => s,
        },
    }
}

/// The quest that something that was found is about: its chapter, and its place there.
pub open spec fn opened_quest(s: SessionModel, target: search::TargetModel) -> Option<(int, int)> {
    match target {
        search::TargetModel::Quest(c, id) => if 0 <= c < s.book.chapters.len() {
            match labels::place_in(s.book.chapters[c].quests, id, 0) {
                Some(i) => Some((c, i)),
                None => None,
            }
        } else {
            None
        },
        _ => None,
    }
}

fn find_grouped(chapters: &Vec<quest::Chapter>, group: &str) -> (r: Option<usize>)
    ensures
        match r {
            Some(i) => grouped_place(order::views(chapters@), group@, 0) == Some(i as int),
            None => grouped_place(order::views(chapters@), group@, 0) is None,
        },
{
    let ghost all = order::views(chapters@);
    let mut i: usize = 0;
    while i < chapters.len()
        invariant
            i <= chapters@.len(),
            all == order::views(chapters@),
            grouped_place(all, group@, 0) == grouped_place(all, group@, i as int),
        decreases chapters@.len() - i,
    {
        assert(all[i as int] == chapters@[i as int]@);
        if is_text(&chapters[i].group, group) {
            return Some(i);
        }
        i += 1;
    }
    None
}

impl Session {
    /// Opens what was found; where the quest stands that it is about.
    pub fn open_search_target(&mut self, target: SearchTarget) -> (r: Option<(usize, usize)>)
        ensures
            final(self)@ == opened(old(self)@, target@),
            match r {
                Some((c, i)) => opened_quest(old(self)@, target@) == Some((c as int, i as int)),
                None => opened_quest(old(self)@, target@) is None,
            },
    {
        match target {
            SearchTarget::Quest { chapter_index, quest_id } => {
                self.selected_chapter = chapter_index;
                let found = if chapter_index < self.book.chapters.len() {
                    assert(self@.book.chapters[chapter_index as int]
                        == self.book.chapters@[chapter_index as int]@);
                    match find_quest(
                        &self.book.chapters[chapter_index].quests,
                        quest_id.as_str(),
                    ) {
                        Some(i) => Some((chapter_index, i)),
                        None => None,
                    }
                } else {
                    None
                };
                self.select_only(quest_id);
                self.right_tab = RightTab::Inspector;
                found
            },
            SearchTarget::Chapter { chapter_index } => {
                self.choose_chapter(chapter_index);
                self.right_tab = RightTab::Inspector;
                None
            },
            SearchTarget::Group { group_id } => {
                match find_grouped(&self.book.chapters, group_id.as_str()) {
                    Some(c) => {
                        self.choose_chapter(c);
                        self.right_tab = RightTab::Inspector;
                    },
                    None => {},
                }
                None
            },
        }
    }

    /// Whether opening what was found leaves no quest selected.
    pub fn clears_selection(&self, target: &SearchTarget) -> (r: bool)
        ensures
            r == match target@ {
                search::TargetModel::Quest(_, _) => false,
                search::TargetModel::Chapter(_) => true,
                search::TargetModel::Group(id) => grouped_place(
                    self@.book.chapters,
                    id,
                    0,
                ) is Some,
            },
    {
        match target {
            SearchTarget::Quest { .. } => false,
            SearchTarget::Chapter { .. } => true,
            SearchTarget::Group { group_id } => {
                match find_grouped(&self.book.chapters, group_id.as_str()) {
                    Some(_) => true,
                    None => false,
                }
            },
        }
    }

    /// Whether what was found is what is shown.
    pub fn is_shown(&self, target: &SearchTarget) -> (r: bool)
        ensures
            r == match target@ {
                search::TargetModel::Quest(c, id) => self@.selected_chapter == c
                    && self@.selected_quest == Some(id),
                search::TargetModel::Chapter(c) => self@.selected_chapter == c
                    && self@.selected_quest is None,
                search::TargetModel::Group(_) => false,
            },
    {
        match target {
            SearchTarget::Quest { chapter_index, quest_id } => self.selected_chapter
                == *chapter_index && is_text(&self.selected_quest, quest_id.as_str()),
            SearchTarget::Chapter { chapter_index } => self.selected_chapter == *chapter_index
                && self.selected_quest.is_none(),
            SearchTarget::Group { .. } => false,
        }
    }
}

// ---------------------------------------------------------------------------
// Projects
// ---------------------------------------------------------------------------

/// How many quests chapters have.
pub open spec fn quest_count(chapters: Seq<quest::ChapterModel>) -> nat
    decreases chapters.len(),
{
    if chapters.len() == 0 {
        0
    } else {
        quest_count(chapters.drop_last()) + chapters.last().quests.len()
    }
}

/// How many groups, chapters and quests a book has.
pub open spec fn size_text(book: editor::BookModel) -> Seq<char> {
    compose::decimal(book.groups.len()) + " групп, "@ + compose::decimal(book.chapters.len())
        + " глав, "@ + compose::decimal(crate::import::capped(quest_count(book.chapters)) as nat)
        + " квестов"@
}

/// What is said of a book that was imported.
pub open spec fn imported_text(
    book: editor::BookModel,
    report: ImportReport,
    destination: Seq<char>,
) -> Seq<char> {
    let first = "Импортировано: "@ + size_text(book) + ", "@ + compose::decimal(
        report.imported_languages as nat,
    ) + " языков. Экспорт: "@ + destination;
    if report.preserved_tasks + report.preserved_rewards > 0 {
        first + " Сохранено без потерь в режиме только чтения: "@ + compose::decimal(
            report.preserved_tasks as nat,
        ) + " задач, "@ + compose::decimal(report.preserved_rewards as nat) + " наград."@
    } else {
        first
    }
}

/// The session with another book, of which nothing is selected.
pub open spec fn reopened(s: SessionModel, book: editor::BookModel) -> SessionModel {
    unselected(SessionModel { book, selected_chapter: 0, ..s })
}

/// The session after a book has been imported.
pub open spec fn imported(
    s: SessionModel,
    book: editor::BookModel,
    report: ImportReport,
    destination: Seq<char>,
    elapsed: u64,
) -> SessionModel {
    diagnosed(
        announced(
            reopened(s, book),
            LogLevel::Info,
            imported_text(book, report, destination),
            elapsed,
        ),
        "Диагностика после импорта"@,
        elapsed,
    )
}

impl EditableBook {
    fn describe_size(&self) -> (r: String)
        ensures
            r@ == size_text(self@),
    {
        let ghost all = self@.chapters;
        let mut quests: usize = 0;
        let mut i: usize = 0;
        assert(all.take(0) =~= Seq::empty());
        while i < self.chapters.len()
            invariant
                i <= self.chapters@.len(),
                all == order::views(self.chapters@),
                quests == crate::import::capped(quest_count(all.take(i as int))),
            decreases self.chapters@.len() - i,
        {
            proof {
                assert(all.take(i + 1).drop_last() =~= all.take(i as int));
                assert(all.take(i + 1).last() == self.chapters@[i as int]@);
            }
            quests = quests.saturating_add(self.chapters[i].quests.len());
            i += 1;
        }
        assert(all.take(i as int) =~= all);
        let mut r = number(self.groups.len() as u128);
        r.append(" групп, ");
        r.append(number(self.chapters.len() as u128).as_str());
        r.append(" глав, ");
        r.append(number(quests as u128).as_str());
        r.append(" квестов");
        r
    }
}

/// What is to be done when a book is to be saved.
#[derive(Debug, Clone, Copy, PartialEq, Eq, Structural)]
pub enum SaveDecision {
    /// There is no folder.
    NoFolder,
    /// The folder holds a book that was not saved there before.
    Occupied,
    /// The book is saved.
    Save,
}

/// What is to be done when a book is to be saved in a folder, where it is known whether the folder
/// holds a book, and whether this book was saved there before.
pub fn decide_save(destination: &str, already_exists: bool, is_our_destination: bool) -> (r:
    SaveDecision)
    ensures
        r == if text::trimmed(destination@).len() == 0 {
            SaveDecision::NoFolder
        } else if already_exists && !is_our_destination {
            SaveDecision::Occupied
        } else {
            SaveDecision::Save
        },
{
    if text::is_blank(destination) {
        SaveDecision::NoFolder
    } else if already_exists && !is_our_destination {
        SaveDecision::Occupied
    } else {
        SaveDecision::Save
    }
}

/// What the reader is told of an attempt to save.
pub open spec fn save_message(
    book: editor::BookModel,
    decision: SaveDecision,
    quests_root: Seq<char>,
    error: Option<Seq<char>>,
) -> (LogLevel, Seq<char>) {
    match decision {
        SaveDecision::NoFolder => (LogLevel::Error, "Укажите папку для сохранения."@),
        SaveDecision::Occupied => (
            LogLevel::Error,
            "Сохранение отменено: "@ + quests_root
                + " уже содержит книгу. Выберите пустую папку."@,
        ),
        SaveDecision::Save => match error {
            Some(message) => (LogLevel::Error, "Ошибка сохранения: "@ + message),
            None => (LogLevel::Info, "Сохранено: "@ + size_text(book) + "."@),
        },
    }
}

impl Session {
    /// Begins a new book.
    pub fn reset_project(&mut self, elapsed: u64)
        ensures
            final(self)@ == announced(
                reopened(
                    SessionModel {
                        id_state: naming::next_state(old(self)@.id_state),
                        ..old(self)@
                    },
                    editor::new_book(
                        "Новая книга"@,
                        "Первая глава"@,
                        "first_chapter"@,
                        naming::id_of(naming::next_state(old(self)@.id_state)),
                    ),
                ),
                LogLevel::Info,
                "Создан новый проект."@,
                elapsed,
            ),
    {
        self.book = EditableBook::blank(&mut self.ids);
        self.choose_chapter(0);
        self.announce(LogLevel::Info, "Создан новый проект.".to_owned(), elapsed);
    }

    /// Takes a book that was imported, and tells the reader of it, or why there is none.
    pub fn import_project(
        &mut self,
        loaded: Result<(EditableBook, ImportReport), EditorError>,
        destination: &str,
        elapsed: u64,
    )
        ensures
            final(self)@ == match loaded {
                Ok((book, report)) => imported(
                    old(self)@,
                    book@,
                    report,
                    destination@,
                    elapsed,
                ),
                Err(error) => announced(
                    old(self)@,
                    LogLevel::Error,
                    "Ошибка импорта: "@ + editor::error_message(error),
                    elapsed,
                ),
            },
    {
        match loaded {
            Ok((book, report)) => {
                self.book = book;
                self.choose_chapter(0);
                let mut message = "Импортировано: ".to_owned();
                message.append(self.book.describe_size().as_str());
                message.append(", ");
                message.append(number(report.imported_languages as u128).as_str());
                message.append(" языков. Экспорт: ");
                message.append(destination);
                if report.preserved_total() > 0 {
                    message.append(" Сохранено без потерь в режиме только чтения: ");
                    message.append(number(report.preserved_tasks as u128).as_str());
                    message.append(" задач, ");
                    message.append(number(report.preserved_rewards as u128).as_str());
                    message.append(" наград.");
                }
                self.announce(LogLevel::Info, message, elapsed);
                self.run_diagnostics("Диагностика после импорта", elapsed);
            },
            Err(error) => {
                let mut message = "Ошибка импорта: ".to_owned();
                message.append(error.message().as_str());
                self.announce(LogLevel::Error, message, elapsed);
            },
        }
    }

    /// Tells the reader what came of an attempt to save.
    pub fn note_save(
        &mut self,
        decision: SaveDecision,
        quests_root: &str,
        error: Option<&str>,
        elapsed: u64,
    )
        ensures
            ({
                let (level, message) = save_message(
                    old(self)@.book,
                    decision,
                    quests_root@,
                    text::opt_str(error),
                );
                final(self)@ == announced(old(self)@, level, message, elapsed)
            }),
    {
        match decision {
            SaveDecision::NoFolder => {
                self.announce(LogLevel::Error, "Укажите папку для сохранения.".to_owned(), elapsed);
            },
            SaveDecision::Occupied => {
                let mut message = "Сохранение отменено: ".to_owned();
                message.append(quests_root);
                message.append(" уже содержит книгу. Выберите пустую папку.");
                self.announce(LogLevel::Error, message, elapsed);
            },
            SaveDecision::Save => {
                match error {
                    Some(text) => {
                        let mut message = "Ошибка сохранения: ".to_owned();
                        message.append(text);
                        self.announce(LogLevel::Error, message, elapsed);
                    },
                    None => {
                        let mut message = "Сохранено: ".to_owned();
                        message.append(self.book.describe_size().as_str());
                        message.append(".");
                        self.announce(LogLevel::Info, message, elapsed);
                    },
                }
            },
        }
    }

    /// Tells the reader what came of a snapshot, which was made in a folder.
    pub fn note_autosave(&mut self, folder: &str, error: Option<&str>, elapsed: u64)
        ensures
            final(self)@ == match text::opt_str(error) {
                Some(message) => announced(
                    old(self)@,
                    LogLevel::Error,
                    "Ошибка автосохранения: "@ + message,
                    elapsed,
                ),
                None => announced(
                    old(self)@,
                    LogLevel::Info,
                    "Автосохранение: "@ + folder@,
                    elapsed,
                ),
            },
    {
        match error {
            Some(text) => {
                let mut message = "Ошибка автосохранения: ".to_owned();
                message.append(text);
                self.announce(LogLevel::Error, message, elapsed);
            },
            None => {
                let mut message = "Автосохранение: ".to_owned();
                message.append(folder);
                self.announce(LogLevel::Info, message, elapsed);
            },
        }
    }

    /// Moves the texts of the book into the active language, and tells the reader how many; how
    /// many they were.
    pub fn localize_entire_book(&mut self, elapsed: u64) -> (r: usize)
        ensures
            r == localize::keys_for_book(old(self)@.book),
            exists|keys: Seq<Seq<char>>|
                #![trigger localize::keyed_book(old(self)@.book, keys)]
                keys.len() == r && (forall|i: int|
                    0 <= i < keys.len() ==> translation::is_fresh_key(#[trigger] keys[i])) && final(
                    self)@ == announced(
                    SessionModel {
                        book: localize::keyed_book(old(self)@.book, keys),
                        ..old(self)@
                    },
                    LogLevel::Info,
                    "Создано "@ + compose::decimal(r as nat) + " ключей для языка "@
                        + localize::keyed_book(
                        old(self)@.book,
                        keys,
                    ).translations.active_locale + "."@,
                    elapsed,
                ),
    {
        let keys = self.book.localize_texts();
        let ghost drawn = text::texts(keys@);
        proof {
            assert forall|i: int| 0 <= i < drawn.len() implies translation::is_fresh_key(
                #[trigger] drawn[i],
            ) by {
                assert(translation::is_fresh_key(keys@[i]@));
            }
        }
        let mut message = "Создано ".to_owned();
        message.append(number(keys.len() as u128).as_str());
        message.append(" ключей для языка ");
        message.append(self.book.translations.active_locale.as_str());
        message.append(".");
        let ghost told = message@;
        self.announce(LogLevel::Info, message, elapsed);
        proof {
            let book = localize::keyed_book(old(self)@.book, drawn);
            assert(told == "Создано "@ + compose::decimal(drawn.len()) + " ключей для языка "@
                + book.translations.active_locale + "."@);
            assert(self@ == announced(
                SessionModel { book, ..old(self)@ },
                LogLevel::Info,
                told,
                elapsed,
            ));
        }
        keys.len()
    }
}

// ---------------------------------------------------------------------------
// Coming back to a session
// ---------------------------------------------------------------------------

/// The session with the language, the chapter and the quest that were chosen before, as far as
/// they are there.
pub open spec fn restored(
    s: SessionModel,
    locale: Seq<char>,
    chapter: Option<Seq<char>>,
    quest: Option<Seq<char>>,
) -> SessionModel {
    let catalog = s.book.translations;
    let book = if table::has_key(catalog.languages, locale) {
        editor::BookModel {
            translations: translation::CatalogModel { active_locale: locale, ..catalog },
            ..s.book
        }
    } else {
        s.book
    };
    let index = match chapter {
        Some(id) => match chapter_place(book.chapters, id, 0) {
            Some(i) => i as usize,
            None => 0,
        },
        None => 0,
    };
    let t = SessionModel { book, selected_chapter: index, ..s };
    match quest {
        Some(id) => if index < book.chapters.len() && labels::place_in(
            book.chapters[index as int].quests,
            id,
            0,
        ) is Some {
            only_selected(t, id)
        } else {
            unselected(t)
        },
        None => unselected(t),
    }
}

impl Session {
    /// Goes back to the language, the chapter and the quest that were chosen before, as far as they
    /// are there.
    pub fn restore(&mut self, locale: &str, chapter_id: Option<&str>, quest_id: Option<&str>)
        ensures
            final(self)@ == restored(
                old(self)@,
                locale@,
                text::opt_str(chapter_id),
                text::opt_str(quest_id),
            ),
    {
        proof {
            table::lemma_mapped(
                self.book.translations.languages@,
                |m: TextMap<String>| translation::words(m),
                locale@,
            );
        }
        if self.book.translations.languages.contains_key(locale) {
            self.book.translations.active_locale = locale.to_owned();
        }
        let index: usize = match chapter_id {
            Some(id) => {
                match find_chapter(&self.book.chapters, id) {
                    Some(i) => i,
                    None => 0,
                }
            },
            None => 0,
        };
        self.choose_chapter(index);
        match quest_id {
            Some(id) => {
                if index < self.book.chapters.len() {
                    assert(self@.book.chapters[index as int]
                        == self.book.chapters@[index as int]@);
                    if find_quest(&self.book.chapters[index].quests, id).is_some() {
                        self.select_only(id.to_owned());
                    }
                }
            },
            None => {},
        }
    }
}

// ---------------------------------------------------------------------------
// Laws
// ---------------------------------------------------------------------------

pub proof fn lemma_ids_left(ids: Seq<Seq<char>>, removed: Seq<Seq<char>>, id: Seq<char>)
    ensures
        ids_without(ids, removed).contains(id) <==> ids.contains(id) && !removed.contains(id),
    decreases ids.len(),
{
    if ids.len() > 0 {
        let front = ids.drop_last();
        lemma_ids_left(front, removed, id);
        let left = ids_without(front, removed);
        if ids.contains(id) {
            let i = choose|i: int| 0 <= i < ids.len() && ids[i] == id;
            if i < front.len() {
                assert(front[i] == id);
            }
        }
        if front.contains(id) {
            let i = choose|i: int| 0 <= i < front.len() && front[i] == id;
            assert(ids[i] == id);
        }
        if !removed.contains(ids.last()) {
            let all = left.push(ids.last());
            if left.contains(id) {
                let i = choose|i: int| 0 <= i < left.len() && left[i] == id;
                assert(all[i] == id);
            }
            if id == ids.last() {
                assert(all[left.len() as int] == id);
                assert(ids[ids.len() - 1] == id);
            }
            if all.contains(id) && id != ids.last() {
                let i = choose|i: int| 0 <= i < all.len() && all[i] == id;
                assert(left[i] == id);
            }
        }
    }
}

proof fn lemma_quests_left(quests: Seq<quest::QuestModel>, removed: Seq<Seq<char>>)
    ensures
        forall|i: int|
            #![trigger quests_without(quests, removed)[i]]
            0 <= i < quests_without(quests, removed).len() ==> !removed.contains(
                quests_without(quests, removed)[i].id,
            ) && forall|d: Seq<char>|
                removed.contains(d) ==> !(#[trigger] quests_without(
                    quests,
                    removed,
                )[i].dependencies.contains(d)),
    decreases quests.len(),
{
    if quests.len() > 0 {
        let front = quests_without(quests.drop_last(), removed);
        lemma_quests_left(quests.drop_last(), removed);
        let all = quests_without(quests, removed);
        assert forall|i: int|
            #![trigger all[i]]
            0 <= i < all.len() implies !removed.contains(all[i].id) && forall|d: Seq<char>|
            removed.contains(d) ==> !(#[trigger] all[i].dependencies.contains(d)) by {
            if i < front.len() {
                assert(all[i] == front[i]);
            } else {
                assert forall|d: Seq<char>| removed.contains(d) implies !(
                #[trigger] all[i].dependencies.contains(d)) by {
                    lemma_ids_left(quests.last().dependencies, removed, d);
                }
            }
        }
    }
}

/// After quests have been deleted, none of them is left, and no quest depends on one of them.
pub proof fn law_deleted_quests_are_gone(s: SessionModel, removed: Seq<Seq<char>>, c: int, i: int)
    requires
        0 <= c < s.book.chapters.len(),
        0 <= i < deleted(s, removed).book.chapters[c].quests.len(),
    ensures
        !removed.contains(deleted(s, removed).book.chapters[c].quests[i].id),
        forall|d: Seq<char>|
            removed.contains(d) ==> !(#[trigger] deleted(
                s,
                removed,
            ).book.chapters[c].quests[i].dependencies.contains(d)),
{
    lemma_quests_left(s.book.chapters[c].quests, removed);
    assert(deleted(s, removed).book.chapters[c].quests == quests_without(
        s.book.chapters[c].quests,
        removed,
    ));
}

/// Selecting a quest that is not selected and taking it back leaves what was selected.
pub proof fn law_toggling_twice(s: SessionModel, id: Seq<char>)
    requires
        table::ordered(s.selected),
        !table::has_key(s.selected, id),
    ensures
        toggled(toggled(s, id), id).selected == s.selected,
{
    table::lemma_upsert(s.selected, id, ());
    let at = table::lemma_place_exists(s.selected, id);
    table::lemma_place_upsert(s.selected, id, (), at);
    table::lemma_place_lookup(s.selected, id, at);
    table::lemma_lookup_some(s.selected, id);
    let more = table::upsert(s.selected, id, ());
    assert(more == s.selected.insert(at, (id, ())));
    assert(more[at].0 == id);
    assert(table::has_key(more, id));
    table::lemma_without(more, id);
    assert(more.remove(at) =~= s.selected);
}

/// The log never holds more than it may.
pub proof fn law_log_is_bounded(logs: Seq<LogModel>, entry: LogModel)
    requires
        logs.len() <= MAX_LOG_ENTRIES,
    ensures
        log_with(logs, entry).len() <= MAX_LOG_ENTRIES,
        log_with(logs, entry).last() == entry,
{
}

} // verus!
