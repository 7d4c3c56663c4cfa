//! A quest book that can be changed, read from files and written to them.

use crate::diagnostics;
use crate::import;
use crate::import::{
    collect_number_texts, import_chapter, import_groups, number, scalar, Reading,
};
use crate::naming;
use crate::naming::{slugify, unique_chapter_filename};
use crate::notation;
use crate::order;
use crate::order::Ranked;
use crate::path;
use crate::path::ProjectPath;
use crate::quest;
use crate::snbt;
use crate::snbt::{parse, ParseError, Value};
use crate::table::TextMap;
use crate::text;
use crate::translation;
use vstd::prelude::*;

pub use crate::import::ImportReport;
pub use crate::naming::IdGenerator;
pub use crate::quest::{
    Chapter, ChapterGroup, Number, Quest, QuestSettings, Reward, Task, Tristate,
};
pub use crate::translation::{
    translation_display_text, translation_storage_text, TranslationCatalog,
};

verus! {

// ---------------------------------------------------------------------------
// The book
// ---------------------------------------------------------------------------

/// A file that is kept as it is.
#[derive(Debug, Clone)]
pub struct PreservedFile {
    pub relative_path: ProjectPath,
    pub contents: Vec<u8>,
}

/// The mathematical form of a file.
#[verifier::ext_equal]
pub ghost struct FileModel {
    pub relative_path: Seq<path::PartModel>,
    pub contents: Seq<u8>,
}

impl View for PreservedFile {
    type V = FileModel;

    open spec fn view(&self) -> FileModel {
        FileModel { relative_path: self.relative_path@, contents: self.contents@ }
    }
}

impl Ranked for PreservedFile {
    open spec fn goes_before(a: FileModel, b: FileModel) -> bool {
        path::path_precedes(a.relative_path, b.relative_path)
    }

    fn is_ranked_before(&self, other: &Self) -> (r: bool) {
        self.relative_path.is_ranked_before(&other.relative_path)
    }
}

/// A quest book.
#[derive(Debug, Clone)]
pub struct EditableBook {
    pub title: String,
    pub grid_scale: Number,
    pub groups: Vec<ChapterGroup>,
    pub chapters: Vec<Chapter>,
    pub preserved_files: Vec<PreservedFile>,
    pub translations: TranslationCatalog,
}

/// The mathematical form of a quest book.
#[verifier::ext_equal]
pub ghost struct BookModel {
    pub title: Seq<char>,
    pub grid_scale: quest::NumberModel,
    pub groups: Seq<quest::GroupModel>,
    pub chapters: Seq<quest::ChapterModel>,
    pub preserved_files: Seq<FileModel>,
    pub translations: translation::CatalogModel,
}

impl View for EditableBook {
    type V = BookModel;

    open spec fn view(&self) -> BookModel {
        BookModel {
            title: self.title@,
            grid_scale: self.grid_scale@,
            groups: order::views(self.groups@),
            chapters: order::views(self.chapters@),
            preserved_files: order::views(self.preserved_files@),
            translations: self.translations@,
        }
    }
}

impl Ranked for Chapter {
    open spec fn goes_before(a: quest::ChapterModel, b: quest::ChapterModel) -> bool {
        a.order_index < b.order_index
    }

    fn is_ranked_before(&self, other: &Self) -> (r: bool) {
        self.order_index < other.order_index
    }
}

// ---------------------------------------------------------------------------
// Errors
// ---------------------------------------------------------------------------

/// Why a book could not be read, written or made.
#[derive(Debug, Clone, PartialEq, Eq)]
pub enum EditorError {
    Io(String),
    Parse { path: String, source: ParseError },
    InvalidBook(String),
    ExistingBook(String),
    EmptyInput(String),
}

/// What is said of an error.
pub open spec fn error_message(error: EditorError) -> Seq<char> {
    match error {
        EditorError::Io(message) => message@,
        EditorError::Parse { path, source } => "ошибка SNBT в "@ + path@ + ": "@
            + snbt::error_text(source.said(), source.line_number(), source.column_number()),
        EditorError::InvalidBook(path) => "в "@ + path@
            + " не найден data.snbt или quests/data.snbt"@,
        EditorError::ExistingBook(path) => "книга уже существует в "@ + path@
            + "; выберите новую папку"@,
        EditorError::EmptyInput(field) => "поле «"@ + field@ + "» не может быть пустым"@,
    }
}

impl EditorError {
    /// What is said of the error.
    pub fn message(&self) -> (r: String)
        ensures
            r@ == error_message(*self),
    {
        match self {
            EditorError::Io(message) => message.clone(),
            EditorError::Parse { path, source } => {
                let mut r = "ошибка SNBT в ".to_owned();
                r.append(path.as_str());
                r.append(": ");
                r.append(source.message().as_str());
                r
            },
            EditorError::InvalidBook(path) => {
                let mut r = "в ".to_owned();
                r.append(path.as_str());
                r.append(" не найден data.snbt или quests/data.snbt");
                r
            },
            EditorError::ExistingBook(path) => {
                let mut r = "книга уже существует в ".to_owned();
                r.append(path.as_str());
                r.append("; выберите новую папку");
                r
            },
            EditorError::EmptyInput(field) => {
                let mut r = "поле «".to_owned();
                r.append(field.as_str());
                r.append("» не может быть пустым");
                r
            },
        }
    }
}

/// The value in a file, of which the contents or the error of reading them are given.
pub fn read_snbt(path: &str, contents: Result<String, String>) -> (r: Result<Value, EditorError>)
    ensures
        match contents {
            Err(message) => r matches Err(EditorError::Io(m)) && m@ == message@,
            Ok(source) => match notation::document(source@) {
                Ok(n) => r matches Ok(v) && v@ == n,
                Err(fault) => r matches Err(EditorError::Parse { path: p, source: e }) && p@
                    == path@ && e.tells(source@, fault),
            },
        },
{
    match contents {
        Err(message) => Err(EditorError::Io(message)),
        Ok(source) => {
            match parse(source.as_str()) {
                Ok(value) => Ok(value),
                Err(error) => Err(EditorError::Parse { path: path.to_owned(), source: error }),
            }
        },
    }
}

// ---------------------------------------------------------------------------
// Reading
// ---------------------------------------------------------------------------

/// The value of the file of a chapter, and the name of the file without the ending.
pub struct ChapterSource {
    pub stem: Option<String>,
    pub value: Value,
}

/// The mathematical form of the file of a chapter.
pub ghost struct ChapterSourceModel {
    pub stem: Option<Seq<char>>,
    pub value: notation::Node,
}

impl View for ChapterSource {
    type V = ChapterSourceModel;

    open spec fn view(&self) -> ChapterSourceModel {
        ChapterSourceModel { stem: text::opt_text(self.stem), value: self.value@ }
    }
}

/// What the files of a book hold: the name of the folder, its path as it is shown, the values of
/// the files, the files that are kept, and the languages.
pub struct BookParts {
    pub source_name: Option<String>,
    pub root: String,
    pub data: Value,
    pub groups: Option<Value>,
    pub preserved_files: Vec<PreservedFile>,
    pub translations: TranslationCatalog,
    pub chapters: Vec<ChapterSource>,
}

/// The mathematical form of what the files of a book hold.
pub ghost struct PartsModel {
    pub source_name: Option<Seq<char>>,
    pub root: Seq<char>,
    pub data: notation::Node,
    pub groups: Option<notation::Node>,
    pub preserved_files: Seq<FileModel>,
    pub translations: translation::CatalogModel,
    pub chapters: Seq<ChapterSourceModel>,
}

impl View for BookParts {
    type V = PartsModel;

    open spec fn view(&self) -> PartsModel {
        PartsModel {
            source_name: text::opt_text(self.source_name),
            root: self.root@,
            data: self.data@,
            groups: quest::opt_node(self.groups),
            preserved_files: order::views(self.preserved_files@),
            translations: self.translations@,
            chapters: order::views(self.chapters@),
        }
    }
}

/// The texts of numbers in the files of chapters.
pub open spec fn chapter_numbers(chapters: Seq<ChapterSourceModel>) -> Seq<Seq<char>>
    decreases chapters.len(),
{
    if chapters.len() == 0 {
        Seq::empty()
    } else {
        chapter_numbers(chapters.drop_last()) + import::numbers_in(chapters.last().value)
    }
}

/// The chapters in the order of their files.
pub open spec fn chapters_in(
    sources: Seq<ChapterSourceModel>,
    numbers: Seq<(Seq<char>, import::ReadingModel)>,
) -> Seq<quest::ChapterModel> {
    Seq::new(
        sources.len(),
        |i: int|
            import::chapter_of(sources[i].value, sources[i].stem, (i as i32) as int, numbers),
    )
}

/// The book that the files hold.
pub open spec fn book_of(
    parts: PartsModel,
    numbers: Seq<(Seq<char>, import::ReadingModel)>,
) -> BookModel {
    BookModel {
        title: match import::scalar_at(parts.data, "title"@) {
            Some(title) => title,
            None => match parts.source_name {
                Some(name) => name,
                None => "Импортированная книга"@,
            },
        },
        grid_scale: import::number_or(parts.data, "grid_scale"@, numbers, quest::half()),
        groups: match parts.groups {
            Some(groups) => import::groups_of(import::items_at(groups, "chapter_groups"@)),
            None => Seq::empty(),
        },
        chapters: order::sorted_by(
            chapters_in(parts.chapters, numbers),
            order::ranking::<Chapter>(),
        ),
        preserved_files: order::sorted_by(
            parts.preserved_files,
            order::ranking::<PreservedFile>(),
        ),
        translations: parts.translations,
    }
}

impl BookParts {
    /// The texts of numbers that stand in the files.
    pub fn number_texts(&self) -> (r: Vec<String>)
        ensures
            text::texts(r@) == import::numbers_in(self@.data) + chapter_numbers(self@.chapters),
    {
        let mut r: Vec<String> = Vec::new();
        let ghost data = import::numbers_in(self.data@);
        let ghost all = self@.chapters;
        assert(text::texts(r@) + data =~= data);
        collect_number_texts(&self.data, &mut r);
        let mut i: usize = 0;
        assert(all.take(0) =~= Seq::empty());
        assert(data + chapter_numbers(all.take(0)) =~= data);
        while i < self.chapters.len()
            invariant
                i <= self.chapters@.len(),
                all == order::views(self.chapters@),
                text::texts(r@) == data + chapter_numbers(all.take(i as int)),
            decreases self.chapters@.len() - i,
        {
            assert(all.take(i + 1).drop_last() =~= all.take(i as int));
            assert(all.take(i + 1).last() == self.chapters@[i as int]@);
            collect_number_texts(&self.chapters[i].value, &mut r);
            assert(text::texts(r@) =~= data + chapter_numbers(all.take(i + 1)));
            i += 1;
        }
        assert(all.take(i as int) =~= all);
        r
    }
}

/// The numbers of all quests of chapters are texts of letters, digits, points and signs.
pub open spec fn all_have_plain_numbers(chapters: Seq<quest::ChapterModel>) -> bool {
    forall|i: int|
        0 <= i < chapters.len() ==> quest::have_plain_numbers((#[trigger] chapters[i]).quests)
}

fn import_chapters(
    sources: &Vec<ChapterSource>,
    numbers: &TextMap<Reading>,
    report: &mut ImportReport,
) -> (r: Vec<Chapter>)
    ensures
        order::views(r@) == chapters_in(order::views(sources@), import::readings_of(*numbers)),
        all_have_plain_numbers(order::views(r@)),
        final(report).preserved_tasks == import::capped(
            old(report).preserved_tasks as nat + import::kept_tasks_of(
                diagnostics::quests_of(order::views(r@)),
            ),
        ),
        final(report).preserved_rewards == import::capped(
            old(report).preserved_rewards as nat + import::kept_rewards_of(
                diagnostics::quests_of(order::views(r@)),
            ),
        ),
        final(report).imported_languages == old(report).imported_languages,
{
    let ghost table = import::readings_of(*numbers);
    let ghost all = chapters_in(order::views(sources@), table);
    let ghost tasks = report.preserved_tasks;
    let ghost rewards = report.preserved_rewards;
    let mut r: Vec<Chapter> = Vec::new();
    assert(order::views(r@) =~= all.take(0));
    let mut i: usize = 0;
    while i < sources.len()
        invariant
            i <= sources@.len() == all.len(),
            table == import::readings_of(*numbers),
            all == chapters_in(order::views(sources@), table),
            order::views(r@) == all.take(i as int),
            all_have_plain_numbers(order::views(r@)),
            report.preserved_tasks == import::capped(
                tasks as nat + import::kept_tasks_of(diagnostics::quests_of(order::views(r@))),
            ),
            report.preserved_rewards == import::capped(
                rewards as nat + import::kept_rewards_of(diagnostics::quests_of(order::views(r@))),
            ),
            report.imported_languages == old(report).imported_languages,
        decreases sources@.len() - i,
    {
        let ghost before = order::views(r@);
        let stem: Option<&str> = match &sources[i].stem {
            Some(stem) => Some(stem.as_str()),
            None => None,
        };
        let index: i32 = #[verifier::truncate] (i as i32);
        let chapter = import_chapter(&sources[i].value, stem, index, numbers, report);
        let ghost model = chapter@;
        assert(order::views(sources@)[i as int] == sources@[i as int]@);
        assert(model == all[i as int]);
        r.push(chapter);
        proof {
            assert(order::views(r@) =~= before.push(model));
            assert(all.take(i + 1) =~= before.push(model));
            assert(before.push(model).drop_last() =~= before);
            lemma_kept_sum(diagnostics::quests_of(before), model.quests);
        }
        i += 1;
    }
    assert(all.take(i as int) =~= all);
    r
}

proof fn lemma_kept_sum(a: Seq<quest::QuestModel>, b: Seq<quest::QuestModel>)
    ensures
        import::kept_tasks_of(a + b) == import::kept_tasks_of(a) + import::kept_tasks_of(b),
        import::kept_rewards_of(a + b) == import::kept_rewards_of(a) + import::kept_rewards_of(b),
    decreases b.len(),
{
    if b.len() == 0 {
        assert(a + b =~= a);
    } else {
        assert((a + b).drop_last() =~= a + b.drop_last());
        lemma_kept_sum(a, b.drop_last());
    }
}

impl EditableBook {
    /// The book that the files hold, and what was found in them. A book has a chapter.
    pub fn load(parts: BookParts, numbers: &TextMap<Reading>) -> (r: Result<
        (EditableBook, ImportReport),
        EditorError,
    >)
        ensures
            match r {
                Ok((book, report)) => {
                    let chapters = chapters_in(parts@.chapters, import::readings_of(*numbers));
                    &&& parts@.chapters.len() > 0
                    &&& book@ == book_of(parts@, import::readings_of(*numbers))
                    &&& quest::is_plain(book@.grid_scale)
                    &&& all_have_plain_numbers(chapters)
                    &&& report.preserved_tasks == import::capped(
                        import::kept_tasks_of(diagnostics::quests_of(chapters)),
                    )
                    &&& report.preserved_rewards == import::capped(
                        import::kept_rewards_of(diagnostics::quests_of(chapters)),
                    )
                    &&& report.imported_languages == parts@.translations.languages.len()
                },
                Err(error) => parts@.chapters.len() == 0 && (error matches EditorError::InvalidBook(
                    path,
                ) && path@ == parts@.root),
            },
    {
        if parts.chapters.len() == 0 {
            return Err(EditorError::InvalidBook(parts.root));
        }
        let mut report = ImportReport {
            preserved_tasks: 0,
            preserved_rewards: 0,
            imported_languages: parts.translations.languages.len(),
        };
        let title = match scalar(&parts.data, "title") {
            Some(title) => title.to_owned(),
            None => {
                match &parts.source_name {
                    Some(name) => name.clone(),
                    None => "Импортированная книга".to_owned(),
                }
            },
        };
        let grid_scale = match number(&parts.data, "grid_scale", numbers) {
            Some(x) => x,
            None => Number::half(),
        };
        let groups = match &parts.groups {
            Some(groups) => import_groups(groups),
            None => {
                let none: Vec<ChapterGroup> = Vec::new();
                assert(order::views(none@) =~= Seq::empty());
                none
            },
        };
        let chapters = import_chapters(&parts.chapters, numbers, &mut report);
        let book = EditableBook {
            title,
            grid_scale,
            groups,
            chapters: order::sort(chapters),
            preserved_files: order::sort(parts.preserved_files),
            translations: parts.translations,
        };
        Ok((book, report))
    }
}

// ---------------------------------------------------------------------------
// Making and changing
// ---------------------------------------------------------------------------

/// A chapter without quests.
pub open spec fn empty_chapter(
    id: Seq<char>,
    filename: Seq<char>,
    title: Seq<char>,
    group: Option<Seq<char>>,
    order_index: i32,
) -> quest::ChapterModel {
    quest::ChapterModel {
        id,
        filename,
        title,
        group,
        order_index,
        quests: Seq::empty(),
        extra: Seq::empty(),
    }
}

/// A book with one chapter.
pub open spec fn new_book(
    title: Seq<char>,
    chapter_title: Seq<char>,
    filename: Seq<char>,
    id: Seq<char>,
) -> BookModel {
    BookModel {
        title,
        grid_scale: quest::half(),
        groups: Seq::empty(),
        chapters: seq![empty_chapter(id, filename, chapter_title, None, 0)],
        preserved_files: Seq::empty(),
        translations: translation::empty_catalog(),
    }
}

/// A new quest at a place.
pub open spec fn new_quest(
    id: Seq<char>,
    title: Seq<char>,
    description: Seq<char>,
    x: quest::NumberModel,
    y: quest::NumberModel,
) -> quest::QuestModel {
    quest::QuestModel {
        id,
        title,
        description,
        description_raw: None,
        x,
        y,
        size: quest::one(),
        shape: "circle"@,
        icon: Seq::empty(),
        icon_raw: None,
        dependencies: Seq::empty(),
        tasks: Seq::empty(),
        rewards: Seq::empty(),
        settings: quest::default_settings(),
        extra: Seq::empty(),
    }
}

fn make_chapter(
    id: String,
    filename: String,
    title: String,
    group: Option<String>,
    order_index: i32,
) -> (r: Chapter)
    ensures
        r@ == empty_chapter(id@, filename@, title@, text::opt_text(group), order_index),
{
    let r = Chapter {
        id,
        filename,
        title,
        group,
        order_index,
        quests: Vec::new(),
        extra: TextMap::new(),
    };
    assert(r@.quests =~= Seq::empty());
    assert(r@.extra =~= Seq::empty());
    r
}

/// A new quest at a place.
pub fn make_quest(id: String, title: String, description: String, x: Number, y: Number) -> (r:
    Quest)
    ensures
        r@ == new_quest(id@, title@, description@, x@, y@),
{
    let r = Quest {
        id,
        title,
        description,
        description_raw: None,
        x,
        y,
        size: Number::one(),
        shape: "circle".to_owned(),
        icon: String::new(),
        icon_raw: None,
        dependencies: Vec::new(),
        tasks: Vec::new(),
        rewards: Vec::new(),
        settings: QuestSettings::default(),
        extra: TextMap::new(),
    };
    assert(r@.dependencies =~= Seq::empty());
    assert(r@.tasks =~= Seq::empty());
    assert(r@.rewards =~= Seq::empty());
    assert(r@.extra =~= Seq::empty());
    r
}

/// The book with another list of chapters.
pub open spec fn with_chapters(book: BookModel, chapters: Seq<quest::ChapterModel>) -> BookModel {
    BookModel { chapters, ..book }
}

/// The chapter with another list of quests.
pub open spec fn with_quests(
    chapter: quest::ChapterModel,
    quests: Seq<quest::QuestModel>,
) -> quest::ChapterModel {
    quest::ChapterModel { quests, ..chapter }
}

impl EditableBook {
    /// A book with one chapter.
    pub fn new(
        title: String,
        chapter_title: String,
        filename: String,
        ids: &mut IdGenerator,
    ) -> (r: EditableBook)
        ensures
            final(ids).state == naming::next_state(old(ids).state),
            r@ == new_book(
                title@,
                chapter_title@,
                filename@,
                naming::id_of(final(ids).state),
            ),
    {
        let mut chapters: Vec<Chapter> = Vec::new();
        chapters.push(make_chapter(ids.next_id(), filename, chapter_title, None, 0));
        let r = EditableBook {
            title,
            grid_scale: Number::half(),
            groups: Vec::new(),
            chapters,
            preserved_files: Vec::new(),
            translations: TranslationCatalog::default(),
        };
        assert(r@ =~= new_book(
            title@,
            chapter_title@,
            filename@,
            naming::id_of(ids.state),
        ));
        r
    }

    /// The book that is edited first.
    pub fn blank(ids: &mut IdGenerator) -> (r: EditableBook)
        ensures
            final(ids).state == naming::next_state(old(ids).state),
            r@ == new_book(
                "Новая книга"@,
                "Первая глава"@,
                "first_chapter"@,
                naming::id_of(final(ids).state),
            ),
    {
        EditableBook::new(
            "Новая книга".to_owned(),
            "Первая глава".to_owned(),
            "first_chapter".to_owned(),
            ids,
        )
    }

    /// Adds a group of chapters; its id.
    pub fn add_group(&mut self, title: String, ids: &mut IdGenerator) -> (r: String)
        ensures
            final(ids).state == naming::next_state(old(ids).state),
            r@ == naming::id_of(final(ids).state),
            final(self)@ == (BookModel {
                groups: old(self)@.groups.push(quest::GroupModel { id: r@, title: title@ }),
                ..old(self)@
            }),
    {
        let id = ids.next_id();
        let ghost before = self.groups@;
        let group = ChapterGroup { id: id.clone(), title };
        let ghost model = group@;
        self.groups.push(group);
        assert(order::views(self.groups@) =~= order::views(before).push(model));
        id
    }

    /// Adds a chapter with a file name that no other one has; its index.
    pub fn add_chapter(
        &mut self,
        title: String,
        group: Option<String>,
        ids: &mut IdGenerator,
    ) -> (r: usize)
        ensures
            r == old(self)@.chapters.len(),
            final(ids).state == naming::next_state(old(ids).state),
            exists|k: nat| #![trigger naming::candidate(naming::slug(title@), k)]
                naming::is_first_free(old(self)@.chapters, naming::slug(title@), k) && final(self)@
                    == with_chapters(
                    old(self)@,
                    old(self)@.chapters.push(
                        empty_chapter(
                            naming::id_of(final(ids).state),
                            naming::candidate(naming::slug(title@), k),
                            title@,
                            text::opt_text(group),
                            r as i32,
                        ),
                    ),
                ),
    {
        let base = slugify(title.as_str());
        let filename = unique_chapter_filename(&self.chapters, base.as_str());
        let ghost k = choose|k: nat|
            naming::is_first_free(self@.chapters, base@, k) && filename@
                == #[trigger] naming::candidate(base@, k);
        let index: usize = self.chapters.len();
        let order_index: i32 = #[verifier::truncate] (index as i32);
        let ghost before = self.chapters@;
        let chapter = make_chapter(ids.next_id(), filename, title, group, order_index);
        let ghost model = chapter@;
        self.chapters.push(chapter);
        proof {
            assert(order::views(self.chapters@) =~= order::views(before).push(model));
            assert(naming::is_first_free(old(self)@.chapters, naming::slug(title@), k));
            assert(model.filename == naming::candidate(naming::slug(title@), k));
        }
        index
    }

    /// Adds a quest to a chapter, if there is such a chapter.
    pub fn add_quest(
        &mut self,
        chapter_index: usize,
        position: (Number, Number),
        ids: &mut IdGenerator,
    )
        ensures
            if chapter_index < old(self)@.chapters.len() {
                let chapter = old(self)@.chapters[chapter_index as int];
                &&& final(ids).state == naming::next_state(old(ids).state)
                &&& final(self)@ == with_chapters(
                    old(self)@,
                    old(self)@.chapters.update(
                        chapter_index as int,
                        with_quests(
                            chapter,
                            chapter.quests.push(
                                new_quest(
                                    naming::id_of(final(ids).state),
                                    "Новый квест"@,
                                    Seq::empty(),
                                    position.0@,
                                    position.1@,
                                ),
                            ),
                        ),
                    ),
                )
            } else {
                *final(self) == *old(self) && *final(ids) == *old(ids)
            },
    {
        if chapter_index < self.chapters.len() {
            let quest = make_quest(
                ids.next_id(),
                "Новый квест".to_owned(),
                String::new(),
                position.0,
                position.1,
            );
            self.push_quest(chapter_index, quest);
        }
    }

    /// Adds a quest to a chapter.
    pub fn push_quest(&mut self, chapter_index: usize, quest: Quest)
        requires
            chapter_index < old(self)@.chapters.len(),
        ensures
            final(self)@ == with_chapters(
                old(self)@,
                old(self)@.chapters.update(
                    chapter_index as int,
                    with_quests(
                        old(self)@.chapters[chapter_index as int],
                        old(self)@.chapters[chapter_index as int].quests.push(quest@),
                    ),
                ),
            ),
    {
        let ghost chapters = self.chapters@;
        let ghost quests = self.chapters@[chapter_index as int].quests@;
        let ghost model = quest@;
        self.chapters[chapter_index].quests.push(quest);
        proof {
            let after = self.chapters@;
            assert(order::views(after[chapter_index as int].quests@) =~= order::views(quests).push(
                model,
            ));
            assert(order::views(after) =~= order::views(chapters).update(
                chapter_index as int,
                after[chapter_index as int]@,
            ));
        }
    }
}

} // verus!
