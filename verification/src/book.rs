//! What a quest book holds, in numbers.

use crate::compose;
use crate::compose::{align_right, number};
use crate::import;
use crate::import::{list, scalar, scalar_text, texts_among};
use crate::notation;
use crate::order;
use crate::order::Ranked;
use crate::path;
use crate::path::ProjectPath;
use crate::snbt;
use crate::snbt::{parse, ParseError, Value};
use crate::table;
use crate::table::TextMap;
use crate::text;
use vstd::prelude::*;

verus! {

// ---------------------------------------------------------------------------
// Files
// ---------------------------------------------------------------------------

/// A file of a book: its path as it is shown, its name without the ending, and what it holds or
/// why it could not be read.
#[derive(Debug)]
pub struct SourceFile {
    pub path: String,
    pub stem: Option<String>,
    pub contents: Result<String, String>,
}

/// The mathematical form of a file.
pub ghost struct SourceModel {
    pub path: Seq<char>,
    pub stem: Option<Seq<char>>,
    pub contents: Result<Seq<char>, Seq<char>>,
}

impl View for SourceFile {
    type V = SourceModel;

    open spec fn view(&self) -> SourceModel {
        SourceModel {
            path: self.path@,
            stem: text::opt_text(self.stem),
            contents: match self.contents {
                Ok(contents) => Ok(contents@),
                Err(message) => Err(message@),
            },
        }
    }
}

/// Why a folder could not be listed.
#[derive(Debug, Clone)]
pub struct FolderFault {
    pub path: String,
    pub message: String,
}

/// The files of a book, in the order in which they are read.
#[derive(Debug)]
pub struct BookSources {
    pub root: String,
    pub data: SourceFile,
    pub groups: Option<SourceFile>,
    pub chapters: Result<Vec<SourceFile>, FolderFault>,
    pub reward_tables: Result<Vec<SourceFile>, FolderFault>,
}

/// Why a book could not be read.
#[derive(Debug, Clone)]
pub enum LoadError {
    Io { path: String, source: String },
    Parse { path: String, source: ParseError },
    InvalidLayout(String),
    InvalidRoot(String),
}

/// What is said of an error.
pub open spec fn load_message(error: LoadError) -> Seq<char> {
    match error {
        LoadError::Io { path, source } => "не удалось прочитать "@ + path@ + ": "@ + source@,
        LoadError::Parse { path, source } => "ошибка SNBT в "@ + path@ + ": "@ + snbt::error_text(
            source.said(),
            source.line_number(),
            source.column_number(),
        ),
        LoadError::InvalidLayout(path) => "в "@ + path@
            + " не найден data.snbt или quests/data.snbt"@,
        LoadError::InvalidRoot(path) => "корень "@ + path@ + " не является SNBT-объектом"@,
    }
}

impl LoadError {
    /// What is said of the error.
    pub fn message(&self) -> (r: String)
        ensures
            r@ == load_message(*self),
    {
        match self {
            LoadError::Io { path, source } => {
                let mut r = "не удалось прочитать ".to_owned();
                r.append(path.as_str());
                r.append(": ");
                r.append(source.as_str());
                r
            },
            LoadError::Parse { path, source } => {
                let mut r = "ошибка SNBT в ".to_owned();
                r.append(path.as_str());
                r.append(": ");
                r.append(source.message().as_str());
                r
            },
            LoadError::InvalidLayout(path) => {
                let mut r = "в ".to_owned();
                r.append(path.as_str());
                r.append(" не найден data.snbt или quests/data.snbt");
                r
            },
            LoadError::InvalidRoot(path) => {
                let mut r = "корень ".to_owned();
                r.append(path.as_str());
                r.append(" не является SNBT-объектом");
                r
            },
        }
    }
}

/// The folder that holds a book: the given one, or its folder `quests`. What files there are is
/// given.
pub fn find_quests_root(
    source: &ProjectPath,
    shown: &str,
    holds_data: bool,
    holds_quests_data: bool,
) -> (r: Result<ProjectPath, LoadError>)
    ensures
        match r {
            Ok(root) => (holds_data && root@ == source@) || (!holds_data && holds_quests_data
                && root@ == path::inside(source@, "quests"@)),
            Err(error) => !holds_data && !holds_quests_data && (
            error matches LoadError::InvalidLayout(p) && p@ == shown@),
        },
{
    if holds_data {
        Ok(source.copy())
    } else if holds_quests_data {
        Ok(source.join("quests"))
    } else {
        Err(LoadError::InvalidLayout(shown.to_owned()))
    }
}

/// What is wrong with a file, if anything is.
pub ghost enum Flaw {
    Io(Seq<char>, Seq<char>),
    Parse(Seq<char>, Seq<char>, notation::Fault),
    InvalidRoot(Seq<char>),
}

/// What is wrong with a file.
pub open spec fn flaw(file: SourceModel) -> Option<Flaw> {
    match file.contents {
        Err(message) => Some(Flaw::Io(file.path, message)),
        Ok(source) => match notation::document(source) {
            Err(fault) => Some(Flaw::Parse(file.path, source, fault)),
            Ok(n) => if n is Compound {
                None
            } else {
                Some(Flaw::InvalidRoot(file.path))
            },
        },
    }
}

/// The error says what is wrong.
pub open spec fn is_error_of(error: LoadError, what: Flaw) -> bool {
    match what {
        Flaw::Io(path, message) => error matches LoadError::Io { path: p, source: m } && p@ == path
            && m@ == message,
        Flaw::Parse(path, source, fault) => error matches LoadError::Parse { path: p, source: e }
            && p@ == path && e.tells(source, fault),
        Flaw::InvalidRoot(path) => error matches LoadError::InvalidRoot(p) && p@ == path,
    }
}

/// The value in a file that has no flaw.
pub open spec fn content(file: SourceModel) -> notation::Node
    recommends
        flaw(file) is None,
{
    notation::document(file.contents->Ok_0)->Ok_0
}

/// What is wrong with the first file of several that has a flaw.
pub open spec fn first_flaw(files: Seq<SourceModel>) -> Option<Flaw>
    decreases files.len(),
{
    if files.len() == 0 {
        None
    } else {
        match first_flaw(files.drop_last()) {
            Some(what) => Some(what),
            None => flaw(files.last()),
        }
    }
}

/// What is wrong with the files of a folder, or with the folder.
pub open spec fn folder_flaw(files: Result<Vec<SourceFile>, FolderFault>) -> Option<Flaw> {
    match files {
        Err(fault) => Some(Flaw::Io(fault.path@, fault.message@)),
        Ok(list) => first_flaw(order::views(list@)),
    }
}

/// What is wrong with the files of a book.
pub open spec fn book_flaw(sources: BookSources) -> Option<Flaw> {
    match flaw(sources.data@) {
        Some(what) => Some(what),
        None => match sources.groups {
            Some(groups) if flaw(groups@) is Some => flaw(groups@),
            _ => match folder_flaw(sources.chapters) {
                Some(what) => Some(what),
                None => folder_flaw(sources.reward_tables),
            },
        },
    }
}

/// The bytes that a character takes.
pub open spec fn char_bytes(c: char) -> nat {
    let n = c as u32;
    if n < 0x80 {
        1
    } else if n < 0x800 {
        2
    } else if n < 0x1_0000 {
        3
    } else {
        4
    }
}

/// The bytes that a text takes.
pub open spec fn text_bytes(s: Seq<char>) -> nat
    decreases s.len(),
{
    if s.len() == 0 {
        0
    } else {
        text_bytes(s.drop_last()) + char_bytes(s.last())
    }
}

/// The bytes that the contents of a file take.
pub open spec fn file_bytes(file: SourceModel) -> nat {
    text_bytes(file.contents->Ok_0)
}

/// The bytes that the contents of files take.
pub open spec fn files_bytes(files: Seq<SourceModel>) -> nat
    decreases files.len(),
{
    if files.len() == 0 {
        0
    } else {
        files_bytes(files.drop_last()) + file_bytes(files.last())
    }
}

/// A count that stays at the largest number there is.
pub open spec fn capped_bytes(n: nat) -> u64 {
    if n <= u64::MAX {
        n as u64
    } else {
        u64::MAX
    }
}

/// The files of a folder that could be listed.
pub open spec fn listed(files: Result<Vec<SourceFile>, FolderFault>) -> Seq<SourceModel> {
    match files {
        Ok(list) => order::views(list@),
        Err(_) => Seq::empty(),
    }
}

/// How much was read, and how long it took in nanoseconds.
#[derive(Debug, Clone, Copy, PartialEq, Eq, Structural)]
pub struct ProcessingStats {
    pub snbt_files: usize,
    pub input_bytes: u64,
    pub load_time: u128,
}

/// Some more files, with some more bytes, have been read.
pub open spec fn has_read(
    before: ProcessingStats,
    after: ProcessingStats,
    files: nat,
    bytes: nat,
) -> bool {
    &&& after.snbt_files == import::capped(before.snbt_files as nat + files)
    &&& after.input_bytes == capped_bytes(before.input_bytes as nat + bytes)
    &&& after.load_time == before.load_time
}

impl ProcessingStats {
    fn none() -> (r: ProcessingStats)
        ensures
            r.snbt_files == 0,
            r.input_bytes == 0,
            r.load_time == 0,
    {
        ProcessingStats { snbt_files: 0, input_bytes: 0, load_time: 0 }
    }
}

fn count_bytes(source: &str) -> (r: u64)
    ensures
        r == capped_bytes(text_bytes(source@)),
{
    let chars = text::chars_of(source);
    let mut r: u64 = 0;
    let mut i: usize = 0;
    assert(source@.take(0) =~= Seq::empty());
    while i < chars.len()
        invariant
            i <= chars@.len(),
            chars@ == source@,
            r == capped_bytes(text_bytes(source@.take(i as int))),
        decreases chars@.len() - i,
    {
        proof {
            assert(source@.take(i + 1).drop_last() =~= source@.take(i as int));
            assert(source@.take(i + 1).last() == source@[i as int]);
        }
        let n: u32 = chars[i] as u32;
        let width: u64 = if n < 0x80 {
            1
        } else if n < 0x800 {
            2
        } else if n < 0x1_0000 {
            3
        } else {
            4
        };
        r = r.saturating_add(width);
        i += 1;
    }
    assert(source@.take(i as int) =~= source@);
    r
}

/// The value in a file, which must have fields.
pub fn read_snbt(file: &SourceFile, processing: &mut ProcessingStats) -> (r: Result<
    Value,
    LoadError,
>)
    ensures
        match r {
            Ok(value) => {
                &&& flaw(file@) is None
                &&& value@ == content(file@)
                &&& has_read(*old(processing), *final(processing), 1, file_bytes(file@))
            },
            Err(error) => flaw(file@) matches Some(what) && is_error_of(error, what),
        },
{
    match &file.contents {
        Err(message) => Err(LoadError::Io { path: file.path.clone(), source: message.clone() }),
        Ok(source) => {
            match parse(source.as_str()) {
                Err(error) => Err(LoadError::Parse { path: file.path.clone(), source: error }),
                Ok(value) => {
                    proof {
                        snbt::lemma_view(value);
                    }
                    match &value {
                        Value::Compound(_) => {},
                        _ => {
                            return Err(LoadError::InvalidRoot(file.path.clone()));
                        },
                    }
                    processing.snbt_files = processing.snbt_files.saturating_add(1);
                    processing.input_bytes = processing.input_bytes.saturating_add(
                        count_bytes(source.as_str()),
                    );
                    Ok(value)
                },
            }
        },
    }
}

/// The value of a file, and its name without the ending.
pub struct NamedValue {
    pub stem: Option<String>,
    pub value: Value,
}

impl View for NamedValue {
    type V = (Option<Seq<char>>, notation::Node);

    open spec fn view(&self) -> (Option<Seq<char>>, notation::Node) {
        (text::opt_text(self.stem), self.value@)
    }
}

/// The values of files, with their names.
pub open spec fn contents_of(files: Seq<SourceModel>) -> Seq<(Option<Seq<char>>, notation::Node)> {
    Seq::new(files.len(), |i: int| (files[i].stem, content(files[i])))
}

proof fn lemma_first_flaw_stays(files: Seq<SourceModel>, n: int)
    requires
        0 <= n <= files.len(),
        first_flaw(files.take(n)) is Some,
    ensures
        first_flaw(files) == first_flaw(files.take(n)),
    decreases files.len(),
{
    if n < files.len() {
        assert(files.drop_last().take(n) =~= files.take(n));
        lemma_first_flaw_stays(files.drop_last(), n);
    } else {
        assert(files.take(n) =~= files);
    }
}

fn read_files(
    files: &Result<Vec<SourceFile>, FolderFault>,
    processing: &mut ProcessingStats,
) -> (r: Result<Vec<NamedValue>, LoadError>)
    ensures
        match r {
            Ok(values) => {
                &&& folder_flaw(*files) is None
                &&& order::views(values@) == contents_of(listed(*files))
                &&& has_read(
                    *old(processing),
                    *final(processing),
                    listed(*files).len(),
                    files_bytes(listed(*files)),
                )
            },
            Err(error) => folder_flaw(*files) matches Some(what) && is_error_of(error, what),
        },
{
    match files {
        Err(fault) => Err(
            LoadError::Io { path: fault.path.clone(), source: fault.message.clone() },
        ),
        Ok(list) => {
            let ghost all = order::views(list@);
            let mut values: Vec<NamedValue> = Vec::new();
            let mut i: usize = 0;
            assert(all.take(0) =~= Seq::empty());
            while i < list.len()
                invariant
                    i <= list@.len(),
                    *files == Ok::<Vec<SourceFile>, FolderFault>(*list),
                    all == order::views(list@),
                    values@.len() == i,
                    first_flaw(all.take(i as int)) is None,
                    forall|j: int|
                        0 <= j < i ==> (#[trigger] values@[j])@ == (all[j].stem, content(all[j])),
                    has_read(
                        *old(processing),
                        *processing,
                        i as nat,
                        files_bytes(all.take(i as int)),
                    ),
                decreases list@.len() - i,
            {
                proof {
                    assert(all.take(i + 1).drop_last() =~= all.take(i as int));
                    assert(all.take(i + 1).last() == list@[i as int]@);
                }
                match read_snbt(&list[i], processing) {
                    Ok(value) => {
                        let stem = crate::quest::copy_option_text(&list[i].stem);
                        values.push(NamedValue { stem, value });
                    },
                    Err(error) => {
                        proof {
                            lemma_first_flaw_stays(all, i + 1);
                        }
                        return Err(error);
                    },
                }
                i += 1;
            }
            assert(all.take(i as int) =~= all);
            assert(order::views(values@) =~= contents_of(all));
            Ok(values)
        },
    }
}

// ---------------------------------------------------------------------------
// Chapters
// ---------------------------------------------------------------------------

/// The quests of a chapter.
pub open spec fn quests_at(chapter: notation::Node) -> Seq<notation::Node> {
    import::items_at(chapter, "quests"@)
}

/// The chapter belongs to a group.
pub open spec fn is_grouped(chapter: notation::Node) -> bool {
    match import::scalar_at(chapter, "group"@) {
        Some(group) => group.len() > 0,
        None => false,
    }
}

/// The numbers of chapters in groups, of empty chapters, of quests and of links to quests.
pub ghost struct ChapterCounts {
    pub grouped: nat,
    pub empty: nat,
    pub quests: nat,
    pub links: nat,
}

/// What chapters hold, in numbers.
pub open spec fn chapter_counts(chapters: Seq<(Option<Seq<char>>, notation::Node)>) -> ChapterCounts
    decreases chapters.len(),
{
    if chapters.len() == 0 {
        ChapterCounts { grouped: 0, empty: 0, quests: 0, links: 0 }
    } else {
        let front = chapter_counts(chapters.drop_last());
        let chapter = chapters.last().1;
        ChapterCounts {
            grouped: front.grouped + (if is_grouped(chapter) {
                1nat
            } else {
                0
            }),
            empty: front.empty + (if quests_at(chapter).len() == 0 {
                1nat
            } else {
                0
            }),
            quests: front.quests + quests_at(chapter).len(),
            links: front.links + import::items_at(chapter, "quest_links"@).len(),
        }
    }
}

struct Counts {
    grouped: usize,
    empty: usize,
    quests: usize,
    links: usize,
}

fn items<'a>(value: &'a Value, key: &str) -> (r: Option<&'a Vec<Value>>)
    ensures
        match r {
            Some(values) => import::items_at(value@, key@) == snbt::nodes_in(values@),
            None => import::items_at(value@, key@) == Seq::<notation::Node>::empty(),
        },
{
    list(value, key)
}

fn item_count(value: &Value, key: &str) -> (r: usize)
    ensures
        r == import::items_at(value@, key@).len(),
{
    match items(value, key) {
        Some(values) => values.len(),
        None => 0,
    }
}

fn count_chapters(chapters: &Vec<NamedValue>) -> (r: Counts)
    ensures
        ({
            let counts = chapter_counts(order::views(chapters@));
            &&& r.grouped == import::capped(counts.grouped)
            &&& r.empty == import::capped(counts.empty)
            &&& r.quests == import::capped(counts.quests)
            &&& r.links == import::capped(counts.links)
        }),
{
    let ghost all = order::views(chapters@);
    let mut r = Counts { grouped: 0, empty: 0, quests: 0, links: 0 };
    let mut i: usize = 0;
    assert(all.take(0) =~= Seq::empty());
    while i < chapters.len()
        invariant
            i <= chapters@.len(),
            all == order::views(chapters@),
            r.grouped == import::capped(chapter_counts(all.take(i as int)).grouped),
            r.empty == import::capped(chapter_counts(all.take(i as int)).empty),
            r.quests == import::capped(chapter_counts(all.take(i as int)).quests),
            r.links == import::capped(chapter_counts(all.take(i as int)).links),
        decreases chapters@.len() - i,
    {
        proof {
            assert(all.take(i + 1).drop_last() =~= all.take(i as int));
            assert(all.take(i + 1).last() == chapters@[i as int]@);
            reveal_strlit("");
        }
        let chapter = &chapters[i].value;
        match scalar(chapter, "group") {
            Some(group) => {
                assert(group@.len() == 0 ==> group@ =~= ""@);
                if !text::same(group, "") {
                    r.grouped = r.grouped.saturating_add(1);
                }
            },
            None => {},
        }
        let quests: usize = item_count(chapter, "quests");
        if quests == 0 {
            r.empty = r.empty.saturating_add(1);
        }
        r.quests = r.quests.saturating_add(quests);
        r.links = r.links.saturating_add(item_count(chapter, "quest_links"));
        i += 1;
    }
    assert(all.take(i as int) =~= all);
    r
}

/// The name of the file of a chapter.
pub open spec fn chapter_file(chapter: (Option<Seq<char>>, notation::Node)) -> Seq<char> {
    match import::scalar_at(chapter.1, "filename"@) {
        Some(name) => name,
        None => match chapter.0 {
            Some(stem) => stem,
            None => "?"@,
        },
    }
}

fn file_of(chapter: &NamedValue) -> (r: String)
    ensures
        r@ == chapter_file(chapter@),
{
    match scalar(&chapter.value, "filename") {
        Some(name) => name.to_owned(),
        None => {
            match &chapter.stem {
                Some(stem) => stem.clone(),
                None => "?".to_owned(),
            }
        },
    }
}

/// A chapter, and how many quests it has.
#[derive(Debug, Clone)]
pub struct ChapterSummary {
    pub title: String,
    pub filename: String,
    pub quests: usize,
}

/// The mathematical form of a summary.
#[verifier::ext_equal]
pub ghost struct SummaryModel {
    pub title: Seq<char>,
    pub filename: Seq<char>,
    pub quests: nat,
}

impl View for ChapterSummary {
    type V = SummaryModel;

    open spec fn view(&self) -> SummaryModel {
        SummaryModel { title: self.title@, filename: self.filename@, quests: self.quests as nat }
    }
}

impl Ranked for ChapterSummary {
    open spec fn goes_before(a: SummaryModel, b: SummaryModel) -> bool {
        a.quests > b.quests
    }

    fn is_ranked_before(&self, other: &Self) -> (r: bool) {
        self.quests > other.quests
    }
}

/// The summary of a chapter.
pub open spec fn summary(chapter: (Option<Seq<char>>, notation::Node)) -> SummaryModel {
    SummaryModel {
        title: import::scalar_or(chapter.1, "title"@, chapter_file(chapter)),
        filename: chapter_file(chapter),
        quests: quests_at(chapter.1).len(),
    }
}

/// The summaries of chapters.
pub open spec fn summaries(chapters: Seq<(Option<Seq<char>>, notation::Node)>) -> Seq<
    SummaryModel,
> {
    Seq::new(chapters.len(), |i: int| summary(chapters[i]))
}

/// The summaries of the five chapters with the most quests; of two with the same number, the
/// earlier one comes first.
pub open spec fn largest(chapters: Seq<(Option<Seq<char>>, notation::Node)>) -> Seq<SummaryModel> {
    let sorted = order::sorted_by(summaries(chapters), order::ranking::<ChapterSummary>());
    if sorted.len() > 5 {
        sorted.take(5)
    } else {
        sorted
    }
}

fn largest_chapters(chapters: &Vec<NamedValue>) -> (r: Vec<ChapterSummary>)
    ensures
        order::views(r@) == largest(order::views(chapters@)),
{
    let mut list: Vec<ChapterSummary> = Vec::new();
    let mut i: usize = 0;
    while i < chapters.len()
        invariant
            i <= chapters@.len(),
            list@.len() == i,
            forall|j: int| 0 <= j < i ==> (#[trigger] list@[j])@ == summary(chapters@[j]@),
        decreases chapters@.len() - i,
    {
        let filename = file_of(&chapters[i]);
        let title = scalar_text(&chapters[i].value, "title", filename.as_str());
        let quests: usize = item_count(&chapters[i].value, "quests");
        list.push(ChapterSummary { title, filename, quests });
        i += 1;
    }
    assert(order::views(list@) =~= summaries(order::views(chapters@)));
    let mut sorted = order::sort(list);
    let ghost whole = order::views(sorted@);
    assert(whole.take(whole.len() as int) =~= whole);
    while sorted.len() > 5
        invariant
            sorted@.len() <= whole.len(),
            whole.len() > 5 ==> sorted@.len() >= 5,
            whole.len() <= 5 ==> sorted@.len() == whole.len(),
            order::views(sorted@) == whole.take(sorted@.len() as int),
        decreases sorted@.len(),
    {
        sorted.pop();
        assert(order::views(sorted@) =~= whole.take(sorted@.len() as int));
    }
    sorted
}

// ---------------------------------------------------------------------------
// Quests with an id
// ---------------------------------------------------------------------------

/// A quest with an id, and the file of its chapter.
pub struct NamedQuest<'a> {
    pub id: &'a str,
    pub filename: String,
    pub quest: &'a Value,
}

/// The mathematical form of a quest with an id.
pub ghost struct NamedModel {
    pub id: Seq<char>,
    pub filename: Seq<char>,
    pub quest: notation::Node,
}

impl<'a> View for NamedQuest<'a> {
    type V = NamedModel;

    open spec fn view(&self) -> NamedModel {
        NamedModel { id: self.id@, filename: self.filename@, quest: self.quest@ }
    }
}

/// The quests of a chapter that have an id.
pub open spec fn named_in(quests: Seq<notation::Node>, filename: Seq<char>) -> Seq<NamedModel>
    decreases quests.len(),
{
    if quests.len() == 0 {
        Seq::empty()
    } else {
        let front = named_in(quests.drop_last(), filename);
        match import::scalar_at(quests.last(), "id"@) {
            Some(id) => front.push(NamedModel { id, filename, quest: quests.last() }),
            None => front,
        }
    }
}

/// The quests of chapters that have an id.
pub open spec fn named(chapters: Seq<(Option<Seq<char>>, notation::Node)>) -> Seq<NamedModel>
    decreases chapters.len(),
{
    if chapters.len() == 0 {
        Seq::empty()
    } else {
        named(chapters.drop_last()) + named_in(
            quests_at(chapters.last().1),
            chapter_file(chapters.last()),
        )
    }
}

fn collect_named<'a>(quests: &'a Vec<Value>, filename: &str, found: &mut Vec<NamedQuest<'a>>)
    ensures
        order::views(final(found)@) == order::views(old(found)@) + named_in(
            snbt::nodes_in(quests@),
            filename@,
        ),
{
    let ghost start = order::views(found@);
    let ghost all = snbt::nodes_in(quests@);
    let mut i: usize = 0;
    assert(all.take(0) =~= Seq::empty());
    assert(start + named_in(all.take(0), filename@) =~= start);
    while i < quests.len()
        invariant
            i <= quests@.len(),
            all == snbt::nodes_in(quests@),
            order::views(found@) == start + named_in(all.take(i as int), filename@),
        decreases quests@.len() - i,
    {
        proof {
            assert(all.take(i + 1).drop_last() =~= all.take(i as int));
            assert(all.take(i + 1).last() == quests@[i as int]@);
        }
        let ghost before = found@;
        match scalar(&quests[i], "id") {
            Some(id) => {
                let quest = NamedQuest { id, filename: filename.to_owned(), quest: &quests[i] };
                let ghost model = quest@;
                found.push(quest);
                assert(order::views(found@) =~= order::views(before).push(model));
                assert(order::views(found@) =~= start + named_in(all.take(i + 1), filename@));
            },
            None => {},
        }
        i += 1;
    }
    assert(all.take(i as int) =~= all);
}

fn named_quests<'a>(chapters: &'a Vec<NamedValue>) -> (r: Vec<NamedQuest<'a>>)
    ensures
        order::views(r@) == named(order::views(chapters@)),
{
    let ghost all = order::views(chapters@);
    let mut r: Vec<NamedQuest<'a>> = Vec::new();
    let mut i: usize = 0;
    assert(all.take(0) =~= Seq::empty());
    assert(order::views(r@) =~= Seq::empty());
    while i < chapters.len()
        invariant
            i <= chapters@.len(),
            all == order::views(chapters@),
            order::views(r@) == named(all.take(i as int)),
        decreases chapters@.len() - i,
    {
        proof {
            assert(all.take(i + 1).drop_last() =~= all.take(i as int));
            assert(all.take(i + 1).last() == chapters@[i as int]@);
        }
        let ghost before = order::views(r@);
        match items(&chapters[i].value, "quests") {
            Some(quests) => {
                let filename = file_of(&chapters[i]);
                collect_named(quests, filename.as_str(), &mut r);
            },
            None => {
                assert(before + named_in(
                    Seq::empty(),
                    chapter_file(chapters@[i as int]@),
                ) =~= before);
            },
        }
        i += 1;
    }
    assert(all.take(i as int) =~= all);
    r
}

/// The file of the chapter of each quest; of two quests with one id, the later one counts.
pub open spec fn homes(quests: Seq<NamedModel>) -> Seq<(Seq<char>, Seq<char>)>
    decreases quests.len(),
{
    if quests.len() == 0 {
        Seq::empty()
    } else {
        table::upsert(homes(quests.drop_last()), quests.last().id, quests.last().filename)
    }
}

/// How many quests have the id of an earlier one.
pub open spec fn repeated_ids(quests: Seq<NamedModel>) -> nat
    decreases quests.len(),
{
    if quests.len() == 0 {
        0
    } else {
        repeated_ids(quests.drop_last()) + (if table::has_key(
            homes(quests.drop_last()),
            quests.last().id,
        ) {
            1nat
        } else {
            0
        })
    }
}

fn quest_homes(quests: &Vec<NamedQuest<'_>>) -> (r: (TextMap<String>, usize))
    ensures
        crate::translation::words(r.0) == homes(order::views(quests@)),
        r.1 == import::capped(repeated_ids(order::views(quests@))),
{
    let ghost all = order::views(quests@);
    let mut map: TextMap<String> = TextMap::new();
    let mut repeated: usize = 0;
    let mut i: usize = 0;
    assert(all.take(0) =~= Seq::empty());
    assert(crate::translation::words(map) =~= Seq::empty());
    while i < quests.len()
        invariant
            i <= quests@.len(),
            all == order::views(quests@),
            crate::translation::words(map) == homes(all.take(i as int)),
            repeated == import::capped(repeated_ids(all.take(i as int))),
        decreases quests@.len() - i,
    {
        proof {
            assert(all.take(i + 1).drop_last() =~= all.take(i as int));
            assert(all.take(i + 1).last() == quests@[i as int]@);
            table::lemma_mapped(map@, |s: String| s@, quests@[i as int].id@);
        }
        let stood = map.insert(quests[i].id.to_owned(), quests[i].filename.clone());
        if stood {
            repeated = repeated.saturating_add(1);
        }
        i += 1;
    }
    assert(all.take(i as int) =~= all);
    (map, repeated)
}

/// The items of a field of all quests.
pub open spec fn items_of(quests: Seq<NamedModel>, key: Seq<char>) -> Seq<notation::Node>
    decreases quests.len(),
{
    if quests.len() == 0 {
        Seq::empty()
    } else {
        items_of(quests.drop_last(), key) + import::items_at(quests.last().quest, key)
    }
}

/// The type of an entry.
pub open spec fn entry_kind(entry: notation::Node) -> Seq<char> {
    import::scalar_or(entry, "type"@, "(не указан)"@)
}

/// One more, up to the largest number there is.
pub open spec fn one_more(n: Option<usize>) -> usize {
    match n {
        Some(count) => import::capped(count as nat + 1),
        None => 1,
    }
}

/// How many entries there are of each type.
pub open spec fn type_counts(entries: Seq<notation::Node>) -> Seq<(Seq<char>, usize)>
    decreases entries.len(),
{
    if entries.len() == 0 {
        Seq::empty()
    } else {
        let front = type_counts(entries.drop_last());
        let name = entry_kind(entries.last());
        table::upsert(front, name, one_more(table::lookup(front, name)))
    }
}

fn count_types(entries: &Vec<Value>, counts: &mut TextMap<usize>, Ghost(earlier): Ghost<Seq<notation::Node>>)
    requires
        old(counts)@ == type_counts(earlier),
    ensures
        final(counts)@ == type_counts(earlier + snbt::nodes_in(entries@)),
{
    let ghost all = snbt::nodes_in(entries@);
    let mut i: usize = 0;
    assert(earlier + all.take(0) =~= earlier);
    while i < entries.len()
        invariant
            i <= entries@.len(),
            all == snbt::nodes_in(entries@),
            counts@ == type_counts(earlier + all.take(i as int)),
        decreases entries@.len() - i,
    {
        proof {
            let more = earlier + all.take(i + 1);
            assert(more.drop_last() =~= earlier + all.take(i as int));
            assert(more.last() == entries@[i as int]@);
        }
        let name = scalar_text(&entries[i], "type", "(не указан)");
        let count: usize = match counts.get(name.as_str()) {
            Some(count) => count.saturating_add(1),
            None => 1,
        };
        counts.insert(name, count);
        i += 1;
    }
    assert(all.take(i as int) =~= all);
}

fn count_items(quests: &Vec<NamedQuest<'_>>, key: &str) -> (r: (usize, TextMap<usize>))
    ensures
        r.0 == import::capped(items_of(order::views(quests@), key@).len()),
        r.1@ == type_counts(items_of(order::views(quests@), key@)),
{
    let ghost all = order::views(quests@);
    let mut total: usize = 0;
    let mut counts: TextMap<usize> = TextMap::new();
    let mut i: usize = 0;
    assert(all.take(0) =~= Seq::empty());
    while i < quests.len()
        invariant
            i <= quests@.len(),
            all == order::views(quests@),
            total == import::capped(items_of(all.take(i as int), key@).len()),
            counts@ == type_counts(items_of(all.take(i as int), key@)),
        decreases quests@.len() - i,
    {
        proof {
            assert(all.take(i + 1).drop_last() =~= all.take(i as int));
            assert(all.take(i + 1).last() == quests@[i as int]@);
        }
        let ghost earlier = items_of(all.take(i as int), key@);
        match items(quests[i].quest, key) {
            Some(entries) => {
                total = total.saturating_add(entries.len());
                count_types(entries, &mut counts, Ghost(earlier));
            },
            None => {
                assert(earlier + Seq::<notation::Node>::empty() =~= earlier);
            },
        }
        i += 1;
    }
    assert(all.take(i as int) =~= all);
    (total, counts)
}

// ---------------------------------------------------------------------------
// Dependencies
// ---------------------------------------------------------------------------

/// A quest, and one that it depends on.
struct Dependency {
    from: String,
    to: String,
}

impl View for Dependency {
    type V = (Seq<char>, Seq<char>);

    closed spec fn view(&self) -> (Seq<char>, Seq<char>) {
        (self.from@, self.to@)
    }
}

/// The dependencies of a quest on others.
pub open spec fn links_to(from: Seq<char>, others: Seq<Seq<char>>) -> Seq<(Seq<char>, Seq<char>)> {
    Seq::new(others.len(), |i: int| (from, others[i]))
}

/// The dependencies of quests.
pub open spec fn links(quests: Seq<NamedModel>) -> Seq<(Seq<char>, Seq<char>)>
    decreases quests.len(),
{
    if quests.len() == 0 {
        Seq::empty()
    } else {
        links(quests.drop_last()) + links_to(
            quests.last().id,
            import::scalars_at(quests.last().quest, "dependencies"@),
        )
    }
}

fn collect_links(from: &str, others: &Vec<String>, found: &mut Vec<Dependency>)
    ensures
        order::views(final(found)@) == order::views(old(found)@) + links_to(
            from@,
            text::texts(others@),
        ),
{
    let ghost start = order::views(found@);
    let ghost all = links_to(from@, text::texts(others@));
    let mut i: usize = 0;
    assert(start + all.take(0) =~= start);
    while i < others.len()
        invariant
            i <= others@.len() == all.len(),
            all == links_to(from@, text::texts(others@)),
            order::views(found@) == start + all.take(i as int),
        decreases others@.len() - i,
    {
        let ghost before = found@;
        let dependency = Dependency { from: from.to_owned(), to: others[i].clone() };
        let ghost model = dependency@;
        found.push(dependency);
        proof {
            assert(order::views(found@) =~= order::views(before).push(model));
            assert(model == all[i as int]);
            assert(order::views(found@) =~= start + all.take(i + 1));
        }
        i += 1;
    }
    assert(all.take(i as int) =~= all);
}

fn dependencies_of(quests: &Vec<NamedQuest<'_>>) -> (r: Vec<Dependency>)
    ensures
        order::views(r@) == links(order::views(quests@)),
{
    let ghost all = order::views(quests@);
    let mut r: Vec<Dependency> = Vec::new();
    let mut i: usize = 0;
    assert(all.take(0) =~= Seq::empty());
    assert(order::views(r@) =~= Seq::empty());
    while i < quests.len()
        invariant
            i <= quests@.len(),
            all == order::views(quests@),
            order::views(r@) == links(all.take(i as int)),
        decreases quests@.len() - i,
    {
        proof {
            assert(all.take(i + 1).drop_last() =~= all.take(i as int));
            assert(all.take(i + 1).last() == quests@[i as int]@);
        }
        let ghost before = order::views(r@);
        match items(quests[i].quest, "dependencies") {
            Some(values) => {
                let others = texts_among(values);
                collect_links(quests[i].id, &others, &mut r);
            },
            None => {
                assert(import::scalars_at(quests@[i as int].quest@, "dependencies"@)
                    =~= Seq::empty());
                assert(before + links_to(quests@[i as int].id@, Seq::empty()) =~= before);
            },
        }
        i += 1;
    }
    assert(all.take(i as int) =~= all);
    r
}

/// How many different ones there are.
pub open spec fn different<A>(s: Seq<A>) -> nat
    decreases s.len(),
{
    if s.len() == 0 {
        0
    } else {
        different(s.drop_last()) + (if s.drop_last().contains(s.last()) {
            0nat
        } else {
            1
        })
    }
}

fn stands_before(list: &Vec<Dependency>, n: usize) -> (r: bool)
    requires
        n < list@.len(),
    ensures
        r == order::views(list@).take(n as int).contains(order::views(list@)[n as int]),
{
    let ghost all = order::views(list@);
    let mut i: usize = 0;
    while i < n
        invariant
            i <= n < list@.len(),
            all == order::views(list@),
            forall|j: int| 0 <= j < i ==> #[trigger] all[j] != all[n as int],
        decreases n - i,
    {
        if text::same(list[i].to.as_str(), list[n].to.as_str()) && text::same(
            list[i].from.as_str(),
            list[n].from.as_str(),
        ) {
            assert(all.take(n as int)[i as int] == all[n as int]);
            return true;
        }
        i += 1;
    }
    proof {
        if all.take(n as int).contains(all[n as int]) {
            let j = choose|j: int| 0 <= j < n && all.take(n as int)[j] == all[n as int];
            assert(all[j] == all[n as int]);
        }
    }
    false
}

fn count_different(list: &Vec<Dependency>) -> (r: usize)
    ensures
        r == different(order::views(list@)),
{
    let ghost all = order::views(list@);
    let mut r: usize = 0;
    let mut i: usize = 0;
    assert(all.take(0) =~= Seq::empty());
    while i < list.len()
        invariant
            i <= list@.len(),
            r <= i,
            all == order::views(list@),
            r == different(all.take(i as int)),
        decreases list@.len() - i,
    {
        proof {
            assert(all.take(i + 1).drop_last() =~= all.take(i as int));
            assert(all.take(i + 1).last() == all[i as int]);
        }
        if !stands_before(list, i) {
            r += 1;
        }
        i += 1;
    }
    assert(all.take(i as int) =~= all);
    r
}

/// A dependency on a quest that is not there, and the chapter of the quest that has it.
#[derive(Debug, Clone)]
pub struct BrokenDependency {
    pub chapter: String,
    pub quest_id: String,
    pub missing_quest_id: String,
}

/// The mathematical form of a broken dependency.
#[verifier::ext_equal]
pub ghost struct BrokenModel {
    pub chapter: Seq<char>,
    pub quest_id: Seq<char>,
    pub missing_quest_id: Seq<char>,
}

impl View for BrokenDependency {
    type V = BrokenModel;

    open spec fn view(&self) -> BrokenModel {
        BrokenModel {
            chapter: self.chapter@,
            quest_id: self.quest_id@,
            missing_quest_id: self.missing_quest_id@,
        }
    }
}

impl Ranked for BrokenDependency {
    open spec fn goes_before(a: BrokenModel, b: BrokenModel) -> bool {
        if a.chapter != b.chapter {
            text::precedes(a.chapter, b.chapter)
        } else if a.quest_id != b.quest_id {
            text::precedes(a.quest_id, b.quest_id)
        } else {
            text::precedes(a.missing_quest_id, b.missing_quest_id)
        }
    }

    fn is_ranked_before(&self, other: &Self) -> (r: bool) {
        if !text::same(self.chapter.as_str(), other.chapter.as_str()) {
            text::is_before(self.chapter.as_str(), other.chapter.as_str())
        } else if !text::same(self.quest_id.as_str(), other.quest_id.as_str()) {
            text::is_before(self.quest_id.as_str(), other.quest_id.as_str())
        } else {
            text::is_before(self.missing_quest_id.as_str(), other.missing_quest_id.as_str())
        }
    }
}

/// The dependencies on quests that are not there.
pub open spec fn broken_links(
    list: Seq<(Seq<char>, Seq<char>)>,
    chapters: Seq<(Seq<char>, Seq<char>)>,
) -> Seq<BrokenModel>
    decreases list.len(),
{
    if list.len() == 0 {
        Seq::empty()
    } else {
        let front = broken_links(list.drop_last(), chapters);
        let (from, to) = list.last();
        if table::lookup(chapters, to) is None {
            front.push(
                BrokenModel {
                    chapter: match table::lookup(chapters, from) {
                        Some(chapter) => chapter,
                        None => "?"@,
                    },
                    quest_id: from,
                    missing_quest_id: to,
                },
            )
        } else {
            front
        }
    }
}

/// The dependency joins quests of two chapters.
pub open spec fn is_crossing(
    link: (Seq<char>, Seq<char>),
    chapters: Seq<(Seq<char>, Seq<char>)>,
) -> bool {
    match (table::lookup(chapters, link.0), table::lookup(chapters, link.1)) {
        (Some(from), Some(to)) => from != to,
        _ => false,
    }
}

/// How many dependencies join quests of two chapters.
pub open spec fn crossing_links(
    list: Seq<(Seq<char>, Seq<char>)>,
    chapters: Seq<(Seq<char>, Seq<char>)>,
) -> nat
    decreases list.len(),
{
    if list.len() == 0 {
        0
    } else {
        crossing_links(list.drop_last(), chapters) + (if is_crossing(list.last(), chapters) {
            1nat
        } else {
            0
        })
    }
}

fn home<'a>(chapters: &'a TextMap<String>, id: &str) -> (r: Option<&'a str>)
    ensures
        text::opt_str(r) == table::lookup(crate::translation::words(*chapters), id@),
{
    proof {
        table::lemma_mapped(chapters@, |s: String| s@, id@);
    }
    match chapters.get(id) {
        Some(chapter) => Some(chapter.as_str()),
        None => None,
    }
}

fn check_links(list: &Vec<Dependency>, chapters: &TextMap<String>) -> (r: (
    Vec<BrokenDependency>,
    usize,
))
    ensures
        order::views(r.0@) == order::sorted_by(
            broken_links(order::views(list@), crate::translation::words(*chapters)),
            order::ranking::<BrokenDependency>(),
        ),
        r.1 == crossing_links(order::views(list@), crate::translation::words(*chapters)),
{
    let ghost all = order::views(list@);
    let ghost homes = crate::translation::words(*chapters);
    let mut broken: Vec<BrokenDependency> = Vec::new();
    let mut crossing: usize = 0;
    let mut i: usize = 0;
    assert(all.take(0) =~= Seq::empty());
    assert(order::views(broken@) =~= Seq::empty());
    while i < list.len()
        invariant
            i <= list@.len(),
            crossing <= i,
            all == order::views(list@),
            homes == crate::translation::words(*chapters),
            order::views(broken@) == broken_links(all.take(i as int), homes),
            crossing == crossing_links(all.take(i as int), homes),
        decreases list@.len() - i,
    {
        proof {
            assert(all.take(i + 1).drop_last() =~= all.take(i as int));
            assert(all.take(i + 1).last() == list@[i as int]@);
        }
        let from = home(chapters, list[i].from.as_str());
        let to = home(chapters, list[i].to.as_str());
        match (from, to) {
            (_, None) => {
                let chapter = match from {
                    Some(chapter) => chapter.to_owned(),
                    None => "?".to_owned(),
                };
                let found = BrokenDependency {
                    chapter,
                    quest_id: list[i].from.clone(),
                    missing_quest_id: list[i].to.clone(),
                };
                let ghost model = found@;
                let ghost before = broken@;
                broken.push(found);
                assert(order::views(broken@) =~= order::views(before).push(model));
            },
            (Some(a), Some(b)) => {
                if !text::same(a, b) {
                    crossing += 1;
                }
            },
            (None, Some(_)) => {},
        }
        i += 1;
    }
    assert(all.take(i as int) =~= all);
    (order::sort(broken), crossing)
}

// ---------------------------------------------------------------------------
// The book
// ---------------------------------------------------------------------------

/// What a book holds, in numbers.
#[derive(Debug)]
pub struct QuestBook {
    pub root: String,
    pub title: String,
    pub format_version: Option<String>,
    pub groups: usize,
    pub chapters: usize,
    pub grouped_chapters: usize,
    pub quests: usize,
    pub dependencies: usize,
    pub unique_dependencies: usize,
    pub cross_chapter_dependencies: usize,
    pub broken_dependencies: usize,
    pub broken_dependency_details: Vec<BrokenDependency>,
    pub quest_links: usize,
    pub tasks: usize,
    pub rewards: usize,
    pub reward_tables: usize,
    pub reward_table_entries: usize,
    pub duplicate_quest_ids: usize,
    pub empty_chapters: usize,
    pub task_types: TextMap<usize>,
    pub reward_types: TextMap<usize>,
    pub largest_chapters: Vec<ChapterSummary>,
    pub processing: ProcessingStats,
}

/// How many entries reward tables have.
pub open spec fn table_entries(tables: Seq<(Option<Seq<char>>, notation::Node)>) -> nat
    decreases tables.len(),
{
    if tables.len() == 0 {
        0
    } else {
        table_entries(tables.drop_last()) + import::items_at(tables.last().1, "rewards"@).len()
    }
}

/// What a book says of its chapters.
pub open spec fn describes_chapters(
    book: QuestBook,
    chapters: Seq<(Option<Seq<char>>, notation::Node)>,
) -> bool {
    let counts = chapter_counts(chapters);
    &&& book.chapters == chapters.len()
    &&& book.grouped_chapters == import::capped(counts.grouped)
    &&& book.empty_chapters == import::capped(counts.empty)
    &&& book.quests == import::capped(counts.quests)
    &&& book.quest_links == import::capped(counts.links)
    &&& order::views(book.largest_chapters@) == largest(chapters)
}

/// What a book says of its quests.
pub open spec fn describes_quests(book: QuestBook, quests: Seq<NamedModel>) -> bool {
    &&& book.duplicate_quest_ids == import::capped(repeated_ids(quests))
    &&& book.tasks == import::capped(items_of(quests, "tasks"@).len())
    &&& book.task_types@ == type_counts(items_of(quests, "tasks"@))
    &&& book.rewards == import::capped(items_of(quests, "rewards"@).len())
    &&& book.reward_types@ == type_counts(items_of(quests, "rewards"@))
    &&& book.dependencies == links(quests).len()
    &&& book.unique_dependencies == different(links(quests))
    &&& book.cross_chapter_dependencies == crossing_links(links(quests), homes(quests))
    &&& book.broken_dependencies == book.broken_dependency_details@.len()
    &&& order::views(book.broken_dependency_details@) == order::sorted_by(
        broken_links(links(quests), homes(quests)),
        order::ranking::<BrokenDependency>(),
    )
}

/// The file of the groups, where there is one.
pub open spec fn group_file(sources: BookSources) -> Seq<SourceModel> {
    match sources.groups {
        Some(groups) => seq![groups@],
        None => Seq::empty(),
    }
}

/// The files that were read.
pub open spec fn files_read(sources: BookSources) -> Seq<SourceModel> {
    seq![sources.data@] + group_file(sources) + listed(sources.chapters) + listed(
        sources.reward_tables,
    )
}

/// The book says what its files hold.
pub open spec fn describes(book: QuestBook, sources: BookSources) -> bool {
    let data = content(sources.data@);
    let chapters = contents_of(listed(sources.chapters));
    let tables = contents_of(listed(sources.reward_tables));
    &&& book.root@ == sources.root@
    &&& book.title@ == import::scalar_or(data, "title"@, "Без названия"@)
    &&& text::opt_text(book.format_version) == import::scalar_at(data, "version"@)
    &&& book.groups == match sources.groups {
        Some(groups) => import::items_at(content(groups@), "chapter_groups"@).len(),
        None => 0,
    }
    &&& describes_chapters(book, chapters)
    &&& describes_quests(book, named(chapters))
    &&& book.reward_tables == tables.len()
    &&& book.reward_table_entries == import::capped(table_entries(tables))
    &&& book.processing.snbt_files == import::capped(files_read(sources).len())
    &&& book.processing.input_bytes == capped_bytes(files_bytes(files_read(sources)))
    &&& book.processing.load_time == 0
}

proof fn lemma_files_bytes_sum(a: Seq<SourceModel>, b: Seq<SourceModel>)
    ensures
        files_bytes(a + b) == files_bytes(a) + files_bytes(b),
    decreases b.len(),
{
    if b.len() == 0 {
        assert(a + b =~= a);
    } else {
        assert((a + b).drop_last() =~= a + b.drop_last());
        lemma_files_bytes_sum(a, b.drop_last());
    }
}

fn count_table_entries(tables: &Vec<NamedValue>) -> (r: usize)
    ensures
        r == import::capped(table_entries(order::views(tables@))),
{
    let ghost all = order::views(tables@);
    let mut r: usize = 0;
    let mut i: usize = 0;
    assert(all.take(0) =~= Seq::empty());
    while i < tables.len()
        invariant
            i <= tables@.len(),
            all == order::views(tables@),
            r == import::capped(table_entries(all.take(i as int))),
        decreases tables@.len() - i,
    {
        proof {
            assert(all.take(i + 1).drop_last() =~= all.take(i as int));
            assert(all.take(i + 1).last() == tables@[i as int]@);
        }
        r = r.saturating_add(item_count(&tables[i].value, "rewards"));
        i += 1;
    }
    assert(all.take(i as int) =~= all);
    r
}

impl QuestBook {
    /// What the files of a book hold, in numbers. How long it took to read them is left at zero.
    pub fn load(sources: &BookSources) -> (r: Result<QuestBook, LoadError>)
        ensures
            match r {
                Ok(book) => book_flaw(*sources) is None && describes(book, *sources),
                Err(error) => book_flaw(*sources) matches Some(what) && is_error_of(error, what),
            },
    {
        let mut processing = ProcessingStats::none();
        let data = match read_snbt(&sources.data, &mut processing) {
            Ok(data) => data,
            Err(error) => {
                return Err(error);
            },
        };
        let title = scalar_text(&data, "title", "Без названия");
        let format_version = match scalar(&data, "version") {
            Some(version) => Some(version.to_owned()),
            None => None,
        };
        let ghost first = seq![sources.data@];
        proof {
            assert(first.drop_last() =~= Seq::empty());
            assert(files_bytes(first) == files_bytes(first.drop_last()) + file_bytes(
                sources.data@,
            ));
            assert(files_bytes(Seq::<SourceModel>::empty()) == 0);
        }
        let groups: usize = match &sources.groups {
            Some(file) => {
                match read_snbt(file, &mut processing) {
                    Ok(groups) => {
                        proof {
                            let one = seq![file@];
                            assert(one.drop_last() =~= Seq::empty());
                            assert(files_bytes(one) == files_bytes(one.drop_last()) + file_bytes(
                                file@,
                            ));
                            lemma_files_bytes_sum(first, one);
                        }
                        item_count(&groups, "chapter_groups")
                    },
                    Err(error) => {
                        return Err(error);
                    },
                }
            },
            None => {
                proof {
                    lemma_files_bytes_sum(first, Seq::empty());
                }
                0
            },
        };
        let ghost early = first + group_file(*sources);
        let chapters = match read_files(&sources.chapters, &mut processing) {
            Ok(chapters) => chapters,
            Err(error) => {
                return Err(error);
            },
        };
        let tables = match read_files(&sources.reward_tables, &mut processing) {
            Ok(tables) => tables,
            Err(error) => {
                return Err(error);
            },
        };
        proof {
            lemma_files_bytes_sum(early, listed(sources.chapters));
            lemma_files_bytes_sum(
                early + listed(sources.chapters),
                listed(sources.reward_tables),
            );
        }
        let counts = count_chapters(&chapters);
        let quests = named_quests(&chapters);
        let (chapter_of_quest, duplicate_quest_ids) = quest_homes(&quests);
        let (tasks, task_types) = count_items(&quests, "tasks");
        let (rewards, reward_types) = count_items(&quests, "rewards");
        let dependencies = dependencies_of(&quests);
        let (broken, crossing) = check_links(&dependencies, &chapter_of_quest);
        let largest_chapters = largest_chapters(&chapters);
        Ok(
            QuestBook {
                root: sources.root.clone(),
                title,
                format_version,
                groups,
                chapters: chapters.len(),
                grouped_chapters: counts.grouped,
                quests: counts.quests,
                dependencies: dependencies.len(),
                unique_dependencies: count_different(&dependencies),
                cross_chapter_dependencies: crossing,
                broken_dependencies: broken.len(),
                broken_dependency_details: broken,
                quest_links: counts.links,
                tasks,
                rewards,
                reward_tables: tables.len(),
                reward_table_entries: count_table_entries(&tables),
                duplicate_quest_ids,
                empty_chapters: counts.empty,
                task_types,
                reward_types,
                largest_chapters,
                processing,
            },
        )
    }
}

// ---------------------------------------------------------------------------
// The report
// ---------------------------------------------------------------------------

/// A number as it is written.
pub open spec fn dec(n: usize) -> Seq<char> {
    compose::decimal(n as nat)
}

/// What a book is called and where it stands.
pub open spec fn title_text(book: QuestBook) -> Seq<char> {
    "FTB Quests: "@ + book.title@ + "\nПуть: "@ + book.root@ + "\n"@ + (match book.format_version {
        Some(version) => "Версия формата: "@ + version@ + "\n"@,
        None => Seq::empty(),
    }) + "\n"@
}

/// How many groups, chapters, quests and dependencies a book has.
pub open spec fn shape_text(book: QuestBook) -> Seq<char> {
    "Групп глав: "@ + dec(book.groups) + "\nГлав: "@ + dec(book.chapters) + " (в группах: "@ + dec(
        book.grouped_chapters,
    ) + ", без группы: "@ + dec(
        if book.chapters >= book.grouped_chapters {
            (book.chapters - book.grouped_chapters) as usize
        } else {
            0
        },
    ) + ", пустых: "@ + dec(book.empty_chapters) + ")\nКвестов: "@ + dec(book.quests)
        + "\nСвязей-зависимостей: "@ + dec(book.dependencies) + " (уникальных: "@ + dec(
        book.unique_dependencies,
    ) + ", между главами: "@ + dec(book.cross_chapter_dependencies) + ", битых: "@ + dec(
        book.broken_dependencies,
    ) + ")\n"@
}

/// How many links, tasks, rewards and repeated ids a book has.
pub open spec fn content_text(book: QuestBook) -> Seq<char> {
    "Визуальных ссылок на квесты: "@ + dec(book.quest_links) + "\nЗадач: "@ + dec(book.tasks)
        + "\nНаград: "@ + dec(book.rewards) + "\nТаблиц наград: "@ + dec(book.reward_tables)
        + " (вариантов наград: "@ + dec(book.reward_table_entries)
        + ")\nПовторяющихся ID квестов: "@ + dec(book.duplicate_quest_ids) + "\n"@
}

/// A broken dependency on a line.
pub open spec fn broken_line(dependency: BrokenModel) -> Seq<char> {
    "  ["@ + dependency.chapter + "] "@ + dependency.quest_id + " -> "@
        + dependency.missing_quest_id + " (квест не найден)\n"@
}

/// The lines of broken dependencies.
pub open spec fn broken_lines(list: Seq<BrokenModel>) -> Seq<char>
    decreases list.len(),
{
    if list.len() == 0 {
        Seq::empty()
    } else {
        broken_lines(list.drop_last()) + broken_line(list.last())
    }
}

/// The part of the report on broken dependencies.
pub open spec fn broken_text(list: Seq<BrokenModel>) -> Seq<char> {
    if list.len() == 0 {
        Seq::empty()
    } else {
        "\nБитые зависимости:\n"@ + broken_lines(list)
    }
}

/// A type, and how many entries there are of it.
struct TypeCount {
    name: String,
    count: usize,
}

impl View for TypeCount {
    type V = (Seq<char>, usize);

    closed spec fn view(&self) -> (Seq<char>, usize) {
        (self.name@, self.count)
    }
}

/// The larger count comes first; of the same counts, the earlier name.
pub open spec fn counts_more(a: (Seq<char>, usize), b: (Seq<char>, usize)) -> bool {
    if a.1 != b.1 {
        a.1 > b.1
    } else {
        text::precedes(a.0, b.0)
    }
}

impl Ranked for TypeCount {
    open spec fn goes_before(a: (Seq<char>, usize), b: (Seq<char>, usize)) -> bool {
        counts_more(a, b)
    }

    fn is_ranked_before(&self, other: &Self) -> (r: bool) {
        if self.count != other.count {
            self.count > other.count
        } else {
            text::is_before(self.name.as_str(), other.name.as_str())
        }
    }
}

/// The lines of types.
pub open spec fn type_lines(types: Seq<(Seq<char>, usize)>) -> Seq<char>
    decreases types.len(),
{
    if types.len() == 0 {
        Seq::empty()
    } else {
        type_lines(types.drop_last()) + ("  "@ + types.last().0 + ": "@ + compose::decimal(
            types.last().1 as nat,
        ) + "\n"@)
    }
}

/// The part of the report on types.
pub open spec fn types_text(title: Seq<char>, types: Seq<(Seq<char>, usize)>) -> Seq<char> {
    if types.len() == 0 {
        Seq::empty()
    } else {
        "\n"@ + title + ":\n"@ + type_lines(
            order::sorted_by(
                types,
                |a: (Seq<char>, usize), b: (Seq<char>, usize)| counts_more(a, b),
            ),
        )
    }
}

/// A chapter on a line.
pub open spec fn chapter_line(chapter: SummaryModel) -> Seq<char> {
    "  "@ + compose::right_aligned(compose::decimal(chapter.quests), 4) + "  "@ + chapter.title
        + " ["@ + chapter.filename + "]\n"@
}

/// The lines of chapters.
pub open spec fn chapter_lines(chapters: Seq<SummaryModel>) -> Seq<char>
    decreases chapters.len(),
{
    if chapters.len() == 0 {
        Seq::empty()
    } else {
        chapter_lines(chapters.drop_last()) + chapter_line(chapters.last())
    }
}

/// The part of the report on the largest chapters.
pub open spec fn largest_text(chapters: Seq<SummaryModel>) -> Seq<char> {
    if chapters.len() == 0 {
        Seq::empty()
    } else {
        "\nКрупнейшие главы:\n"@ + chapter_lines(chapters)
    }
}

/// The report on a book.
pub open spec fn report_text(book: QuestBook) -> Seq<char> {
    title_text(book) + shape_text(book) + content_text(book) + broken_text(
        order::views(book.broken_dependency_details@),
    ) + types_text("Типы задач"@, book.task_types@) + types_text(
        "Типы наград"@,
        book.reward_types@,
    ) + largest_text(order::views(book.largest_chapters@))
}

fn append_number(output: &mut String, n: usize)
    ensures
        final(output)@ == old(output)@ + dec(n),
{
    output.append(number(n as u128).as_str());
}

fn append_types(output: &mut String, title: &str, types: &TextMap<usize>)
    ensures
        final(output)@ == old(output)@ + types_text(title@, types@),
{
    let n: usize = types.len();
    if n == 0 {
        assert(output@ + Seq::<char>::empty() =~= output@);
        return;
    }
    let ghost start = output@;
    let ghost all = types@;
    let mut list: Vec<TypeCount> = Vec::new();
    let mut i: usize = 0;
    while i < n
        invariant
            i <= n == types@.len(),
            list@.len() == i,
            forall|j: int| 0 <= j < i ==> (#[trigger] list@[j])@ == types@[j],
        decreases n - i,
    {
        list.push(TypeCount { name: types.key_at(i).to_owned(), count: *types.value_at(i) });
        i += 1;
    }
    assert(order::views(list@) =~= all);
    let sorted = order::sort(list);
    let ghost entries = order::views(sorted@);
    proof {
        assert(order::ranking::<TypeCount>()
            =~= (|a: (Seq<char>, usize), b: (Seq<char>, usize)| counts_more(a, b)));
    }
    output.append("\n");
    output.append(title);
    output.append(":\n");
    let ghost head = output@;
    let mut k: usize = 0;
    assert(entries.take(0) =~= Seq::empty());
    assert(head + type_lines(entries.take(0)) =~= head);
    while k < sorted.len()
        invariant
            k <= sorted@.len(),
            entries == order::views(sorted@),
            output@ == head + type_lines(entries.take(k as int)),
        decreases sorted@.len() - k,
    {
        proof {
            assert(entries.take(k + 1).drop_last() =~= entries.take(k as int));
            assert(entries.take(k + 1).last() == sorted@[k as int]@);
        }
        let mut line = "  ".to_owned();
        line.append(sorted[k].name.as_str());
        line.append(": ");
        append_number(&mut line, sorted[k].count);
        line.append("\n");
        output.append(line.as_str());
        assert(output@ =~= head + type_lines(entries.take(k + 1)));
        k += 1;
    }
    assert(entries.take(k as int) =~= entries);
    assert(output@ =~= start + types_text(title@, all));
}

fn append_broken(output: &mut String, list: &Vec<BrokenDependency>)
    ensures
        final(output)@ == old(output)@ + broken_text(order::views(list@)),
{
    let ghost start = output@;
    let ghost all = order::views(list@);
    if list.len() == 0 {
        assert(output@ + Seq::<char>::empty() =~= output@);
        return;
    }
    output.append("\nБитые зависимости:\n");
    let ghost head = output@;
    let mut i: usize = 0;
    assert(all.take(0) =~= Seq::empty());
    assert(head + broken_lines(all.take(0)) =~= head);
    while i < list.len()
        invariant
            i <= list@.len(),
            all == order::views(list@),
            output@ == head + broken_lines(all.take(i as int)),
        decreases list@.len() - i,
    {
        proof {
            assert(all.take(i + 1).drop_last() =~= all.take(i as int));
            assert(all.take(i + 1).last() == list@[i as int]@);
        }
        let mut line = "  [".to_owned();
        line.append(list[i].chapter.as_str());
        line.append("] ");
        line.append(list[i].quest_id.as_str());
        line.append(" -> ");
        line.append(list[i].missing_quest_id.as_str());
        line.append(" (квест не найден)\n");
        output.append(line.as_str());
        assert(output@ =~= head + broken_lines(all.take(i + 1)));
        i += 1;
    }
    assert(all.take(i as int) =~= all);
    assert(output@ =~= start + broken_text(all));
}

fn append_largest(output: &mut String, list: &Vec<ChapterSummary>)
    ensures
        final(output)@ == old(output)@ + largest_text(order::views(list@)),
{
    let ghost start = output@;
    let ghost all = order::views(list@);
    if list.len() == 0 {
        assert(output@ + Seq::<char>::empty() =~= output@);
        return;
    }
    output.append("\nКрупнейшие главы:\n");
    let ghost head = output@;
    let mut i: usize = 0;
    assert(all.take(0) =~= Seq::empty());
    assert(head + chapter_lines(all.take(0)) =~= head);
    while i < list.len()
        invariant
            i <= list@.len(),
            all == order::views(list@),
            output@ == head + chapter_lines(all.take(i as int)),
        decreases list@.len() - i,
    {
        proof {
            assert(all.take(i + 1).drop_last() =~= all.take(i as int));
            assert(all.take(i + 1).last() == list@[i as int]@);
        }
        let mut line = "  ".to_owned();
        line.append(align_right(number(list[i].quests as u128).as_str(), 4).as_str());
        line.append("  ");
        line.append(list[i].title.as_str());
        line.append(" [");
        line.append(list[i].filename.as_str());
        line.append("]\n");
        output.append(line.as_str());
        assert(output@ =~= head + chapter_lines(all.take(i + 1)));
        i += 1;
    }
    assert(all.take(i as int) =~= all);
    assert(output@ =~= start + largest_text(all));
}

impl QuestBook {
    fn title_part(&self) -> (r: String)
        ensures
            r@ == title_text(*self),
    {
        let mut r = "FTB Quests: ".to_owned();
        r.append(self.title.as_str());
        r.append("\nПуть: ");
        r.append(self.root.as_str());
        r.append("\n");
        match &self.format_version {
            Some(version) => {
                let mut line = "Версия формата: ".to_owned();
                line.append(version.as_str());
                line.append("\n");
                r.append(line.as_str());
            },
            None => {
                assert(r@ + Seq::<char>::empty() =~= r@);
            },
        }
        r.append("\n");
        r
    }

    fn shape_part(&self) -> (r: String)
        ensures
            r@ == shape_text(*self),
    {
        let ungrouped: usize = self.chapters.saturating_sub(self.grouped_chapters);
        let mut r = "Групп глав: ".to_owned();
        append_number(&mut r, self.groups);
        r.append("\nГлав: ");
        append_number(&mut r, self.chapters);
        r.append(" (в группах: ");
        append_number(&mut r, self.grouped_chapters);
        r.append(", без группы: ");
        append_number(&mut r, ungrouped);
        r.append(", пустых: ");
        append_number(&mut r, self.empty_chapters);
        r.append(")\nКвестов: ");
        append_number(&mut r, self.quests);
        r.append("\nСвязей-зависимостей: ");
        append_number(&mut r, self.dependencies);
        r.append(" (уникальных: ");
        append_number(&mut r, self.unique_dependencies);
        r.append(", между главами: ");
        append_number(&mut r, self.cross_chapter_dependencies);
        r.append(", битых: ");
        append_number(&mut r, self.broken_dependencies);
        r.append(")\n");
        r
    }

    fn content_part(&self) -> (r: String)
        ensures
            r@ == content_text(*self),
    {
        let mut r = "Визуальных ссылок на квесты: ".to_owned();
        append_number(&mut r, self.quest_links);
        r.append("\nЗадач: ");
        append_number(&mut r, self.tasks);
        r.append("\nНаград: ");
        append_number(&mut r, self.rewards);
        r.append("\nТаблиц наград: ");
        append_number(&mut r, self.reward_tables);
        r.append(" (вариантов наград: ");
        append_number(&mut r, self.reward_table_entries);
        r.append(")\nПовторяющихся ID квестов: ");
        append_number(&mut r, self.duplicate_quest_ids);
        r.append("\n");
        r
    }

    /// The report on the book.
    pub fn report(&self) -> (r: String)
        ensures
            r@ == report_text(*self),
    {
        let mut r = self.title_part();
        r.append(self.shape_part().as_str());
        r.append(self.content_part().as_str());
        append_broken(&mut r, &self.broken_dependency_details);
        append_types(&mut r, "Типы задач", &self.task_types);
        append_types(&mut r, "Типы наград", &self.reward_types);
        append_largest(&mut r, &self.largest_chapters);
        r
    }
}

// ---------------------------------------------------------------------------
// The technical report
// ---------------------------------------------------------------------------

/// The unit in which a number of bytes is shown.
#[derive(Debug, Clone, Copy, PartialEq, Eq, Structural)]
pub enum ByteUnit {
    Bytes,
    Kibibytes,
    Mebibytes,
}

/// The unit in which a number of bytes is shown.
pub open spec fn unit_of(bytes: u64) -> ByteUnit {
    if bytes >= 1024 * 1024 {
        ByteUnit::Mebibytes
    } else if bytes >= 1024 {
        ByteUnit::Kibibytes
    } else {
        ByteUnit::Bytes
    }
}

/// The unit in which a number of bytes is shown.
pub fn byte_unit(bytes: u64) -> (r: ByteUnit)
    ensures
        r == unit_of(bytes),
{
    if bytes >= 1_048_576 {
        ByteUnit::Mebibytes
    } else if bytes >= 1024 {
        ByteUnit::Kibibytes
    } else {
        ByteUnit::Bytes
    }
}

/// A number of bytes as it is shown, where `scaled` says how many of its unit it is.
pub open spec fn bytes_label(bytes: u64, scaled: Seq<char>) -> Seq<char> {
    match unit_of(bytes) {
        ByteUnit::Mebibytes => scaled + " MiB"@,
        ByteUnit::Kibibytes => scaled + " KiB"@,
        ByteUnit::Bytes => compose::decimal(bytes as nat) + " B"@,
    }
}

/// A number of bytes as it is shown, where `scaled` says how many of its unit it is.
pub fn format_bytes(bytes: u64, scaled: &str) -> (r: String)
    ensures
        r@ == bytes_label(bytes, scaled@),
{
    match byte_unit(bytes) {
        ByteUnit::Mebibytes => {
            let mut r = scaled.to_owned();
            r.append(" MiB");
            r
        },
        ByteUnit::Kibibytes => {
            let mut r = scaled.to_owned();
            r.append(" KiB");
            r
        },
        ByteUnit::Bytes => {
            let mut r = number(bytes as u128);
            r.append(" B");
            r
        },
    }
}

/// The unit in which a time is shown.
#[derive(Debug, Clone, Copy, PartialEq, Eq, Structural)]
pub enum TimeUnit {
    Seconds,
    Milliseconds,
    Microseconds,
}

/// The unit in which a time in nanoseconds is shown.
pub fn time_unit(nanos: u128) -> (r: TimeUnit)
    ensures
        r == if nanos >= 1_000_000_000 {
            TimeUnit::Seconds
        } else if nanos >= 1_000_000 {
            TimeUnit::Milliseconds
        } else {
            TimeUnit::Microseconds
        },
{
    if nanos >= 1_000_000_000 {
        TimeUnit::Seconds
    } else if nanos >= 1_000_000 {
        TimeUnit::Milliseconds
    } else {
        TimeUnit::Microseconds
    }
}

/// A time as it is shown, where `scaled` says how many of its unit it is.
pub open spec fn time_label(nanos: u128, scaled: Seq<char>) -> Seq<char> {
    if nanos >= 1_000_000_000 {
        scaled + " s"@
    } else if nanos >= 1_000_000 {
        scaled + " ms"@
    } else {
        scaled + " us"@
    }
}

/// A time as it is shown, where `scaled` says how many of its unit it is.
pub fn format_duration(nanos: u128, scaled: &str) -> (r: String)
    ensures
        r@ == time_label(nanos, scaled@),
{
    let mut r = scaled.to_owned();
    match time_unit(nanos) {
        TimeUnit::Seconds => r.append(" s"),
        TimeUnit::Milliseconds => r.append(" ms"),
        TimeUnit::Microseconds => r.append(" us"),
    }
    r
}

/// What the technical report takes beside what the book knows: how many of their units the size
/// of the files, the time of reading and the whole time are, how many mebibytes were read in a
/// second, and where the program runs.
#[derive(Debug, Clone)]
pub struct TechnicalFigures {
    pub input: String,
    pub load_time: String,
    pub total_time: String,
    pub throughput: String,
    pub version: String,
    pub build_profile: String,
    pub system: String,
    pub architecture: String,
}

/// The technical report on a book: its own size and time of reading and the whole time, each in
/// its unit.
pub open spec fn technical_text(
    book: QuestBook,
    total_time: u128,
    figures: TechnicalFigures,
) -> Seq<char> {
    "\nТехническая статистика:\n  SNBT-файлов обработано: "@ + dec(book.processing.snbt_files)
        + "\n  Объём входных данных: "@ + bytes_label(
        book.processing.input_bytes,
        figures.input@,
    ) + "\n  Загрузка и анализ: "@ + time_label(book.processing.load_time, figures.load_time@)
        + "\n  Полное время выполнения: "@ + time_label(total_time, figures.total_time@)
        + "\n  Скорость обработки: "@ + figures.throughput@ + " MiB/s\n  Программа: ftbgui v"@
        + figures.version@ + " ("@ + figures.build_profile@ + ")\n  Платформа: "@ + figures.system@
        + "-"@ + figures.architecture@ + "\n"@
}

impl QuestBook {
    /// The technical report on the book, after so many nanoseconds in all.
    pub fn technical_report(&self, total_time: u128, figures: &TechnicalFigures) -> (r: String)
        ensures
            r@ == technical_text(*self, total_time, *figures),
    {
        let mut r = "\nТехническая статистика:\n  SNBT-файлов обработано: ".to_owned();
        append_number(&mut r, self.processing.snbt_files);
        r.append("\n  Объём входных данных: ");
        r.append(format_bytes(self.processing.input_bytes, figures.input.as_str()).as_str());
        r.append("\n  Загрузка и анализ: ");
        r.append(
            format_duration(self.processing.load_time, figures.load_time.as_str()).as_str(),
        );
        r.append("\n  Полное время выполнения: ");
        r.append(format_duration(total_time, figures.total_time.as_str()).as_str());
        r.append("\n  Скорость обработки: ");
        r.append(figures.throughput.as_str());
        r.append(" MiB/s\n  Программа: ftbgui v");
        r.append(figures.version.as_str());
        r.append(" (");
        r.append(figures.build_profile.as_str());
        r.append(")\n  Платформа: ");
        r.append(figures.system.as_str());
        r.append("-");
        r.append(figures.architecture.as_str());
        r.append("\n");
        r
    }
}

// ---------------------------------------------------------------------------
// Laws
// ---------------------------------------------------------------------------

proof fn lemma_homes_ordered(quests: Seq<NamedModel>)
    ensures
        table::ordered(homes(quests)),
    decreases quests.len(),
{
    if quests.len() > 0 {
        lemma_homes_ordered(quests.drop_last());
        table::lemma_upsert(
            homes(quests.drop_last()),
            quests.last().id,
            quests.last().filename,
        );
    }
}

/// Every quest either has an id of its own or repeats one: the different ids and the repeated
/// ones are as many as the quests.
pub proof fn law_ids_are_counted(quests: Seq<NamedModel>)
    ensures
        homes(quests).len() + repeated_ids(quests) == quests.len(),
    decreases quests.len(),
{
    if quests.len() > 0 {
        let front = quests.drop_last();
        let key = quests.last().id;
        let value = quests.last().filename;
        law_ids_are_counted(front);
        lemma_homes_ordered(front);
        let at = table::lemma_place_exists(homes(front), key);
        table::lemma_place_upsert(homes(front), key, value, at);
        table::lemma_place_lookup(homes(front), key, at);
        table::lemma_lookup_some(homes(front), key);
    }
}

/// How many entries are of a type.
pub open spec fn entries_of_type(entries: Seq<notation::Node>, name: Seq<char>) -> nat
    decreases entries.len(),
{
    if entries.len() == 0 {
        0
    } else {
        entries_of_type(entries.drop_last(), name) + (if entry_kind(entries.last()) == name {
            1nat
        } else {
            0
        })
    }
}

/// Under each type stands how many entries are of it, and no other type is named.
pub proof fn law_types_are_counted(entries: Seq<notation::Node>, name: Seq<char>)
    ensures
        table::ordered(type_counts(entries)),
        table::lookup(type_counts(entries), name) == if entries_of_type(entries, name) == 0 {
            None::<usize>
        } else {
            Some(import::capped(entries_of_type(entries, name)))
        },
    decreases entries.len(),
{
    if entries.len() > 0 {
        let front = entries.drop_last();
        law_types_are_counted(front, name);
        let found = entry_kind(entries.last());
        let counts = type_counts(front);
        table::lemma_upsert(counts, found, one_more(table::lookup(counts, found)));
        if found == name {
            assert(table::lookup(type_counts(entries), name) == Some(
                one_more(table::lookup(counts, name)),
            ));
        }
    }
}

/// A dependency is reported as broken if and only if no quest has the id that it names.
pub proof fn law_broken_links(
    list: Seq<(Seq<char>, Seq<char>)>,
    chapters: Seq<(Seq<char>, Seq<char>)>,
    from: Seq<char>,
    to: Seq<char>,
)
    ensures
        (exists|i: int|
            0 <= i < broken_links(list, chapters).len() && (#[trigger] broken_links(
                list,
                chapters,
            )[i]).quest_id == from && broken_links(list, chapters)[i].missing_quest_id == to) <==> (
        list.contains((from, to)) && table::lookup(chapters, to) is None),
    decreases list.len(),
{
    if list.len() > 0 {
        let front = list.drop_last();
        law_broken_links(front, chapters, from, to);
        let last = list.last();
        let before = broken_links(front, chapters);
        let all = broken_links(list, chapters);
        assert(list == front.push(last));
        assert(list.contains((from, to)) <==> front.contains((from, to)) || last == (from, to)) by {
            if front.contains((from, to)) {
                let i = choose|i: int| 0 <= i < front.len() && front[i] == (from, to);
                assert(list[i] == (from, to));
            }
            if last == (from, to) {
                assert(list[list.len() - 1] == (from, to));
            }
            if list.contains((from, to)) && last != (from, to) {
                let i = choose|i: int| 0 <= i < list.len() && list[i] == (from, to);
                assert(front[i] == (from, to));
            }
        }
        if table::lookup(chapters, last.1) is None {
            assert(all.drop_last() =~= before);
            if last == (from, to) {
                assert(all[all.len() - 1].quest_id == from);
            }
            if front.contains((from, to)) && table::lookup(chapters, to) is None {
                let i = choose|i: int|
                    0 <= i < before.len() && (#[trigger] before[i]).quest_id == from
                        && before[i].missing_quest_id == to;
                assert(all[i] == before[i]);
            }
            if exists|i: int|
                0 <= i < all.len() && (#[trigger] all[i]).quest_id == from
                    && all[i].missing_quest_id == to {
                let i = choose|i: int|
                    0 <= i < all.len() && (#[trigger] all[i]).quest_id == from
                        && all[i].missing_quest_id == to;
                if i < before.len() {
                    assert(before[i] == all[i]);
                }
            }
        }
    }
}

} // verus!
