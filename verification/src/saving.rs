//! Where a book is written, and what is written there.

use crate::editor;
use crate::editor::{EditableBook, EditorError};
use crate::export;
use crate::export::{chapter_groups_snbt, chapter_snbt, data_snbt};
use crate::import;
use crate::import::{collect_number_texts, Reading};
use crate::languages;
use crate::languages::language_bytes;
use crate::order;
use crate::path;
use crate::path::{PathPart, ProjectPath};
use crate::quest;
use crate::quest::{Quest, Reward, Task};
use crate::table;
use crate::table::TextMap;
use crate::text;
use crate::translation;
use vstd::prelude::*;

verus! {

// ---------------------------------------------------------------------------
// Places
// ---------------------------------------------------------------------------

/// The folder of the quests of a project.
pub open spec fn quests_folder(destination: Seq<path::PartModel>) -> Seq<path::PartModel> {
    if path::last_name(destination) == Some("quests"@) {
        destination
    } else {
        path::inside(destination, "quests"@)
    }
}

/// The folder of a project.
pub open spec fn project_folder(destination: Seq<path::PartModel>) -> Seq<path::PartModel> {
    if path::last_name(destination) == Some("quests"@) {
        match path::folder(destination) {
            Some(folder) => folder,
            None => destination,
        }
    } else {
        destination
    }
}

/// The folder of the languages of a project.
pub open spec fn language_folder(project: Seq<path::PartModel>) -> Seq<path::PartModel> {
    path::inside(path::inside(project, "kubejs"@), "lang"@)
}

/// The folder of the quests of a project.
pub fn quests_root(destination: &ProjectPath) -> (r: ProjectPath)
    ensures
        r@ == quests_folder(destination@),
{
    if destination.is_named("quests") {
        destination.copy()
    } else {
        destination.join("quests")
    }
}

/// The folder of a project.
pub fn project_root(destination: &ProjectPath) -> (r: ProjectPath)
    ensures
        r@ == project_folder(destination@),
{
    if destination.is_named("quests") {
        match destination.parent() {
            Some(folder) => folder,
            None => destination.copy(),
        }
    } else {
        destination.copy()
    }
}

/// The folder of the languages that belong to a folder of quests.
pub fn language_root(quests: &ProjectPath) -> (r: ProjectPath)
    ensures
        r@ == language_folder(
            match path::folder(quests@) {
                Some(folder) => folder,
                None => quests@,
            },
        ),
{
    let project = match quests.parent() {
        Some(folder) => folder,
        None => quests.copy(),
    };
    project.join("kubejs").join("lang")
}

/// The folder that holds a book: the given one, or its folder `quests`. What files there are is
/// given.
pub fn find_quests_root(
    source: &ProjectPath,
    shown: &str,
    holds_data: bool,
    holds_quests_data: bool,
) -> (r: Result<ProjectPath, EditorError>)
    ensures
        match r {
            Ok(root) => (holds_data && root@ == source@) || (!holds_data && holds_quests_data
                && root@ == path::inside(source@, "quests"@)),
            Err(error) => !holds_data && !holds_quests_data && (
            error matches EditorError::InvalidBook(p) && p@ == shown@),
        },
{
    if holds_data {
        Ok(source.copy())
    } else if holds_quests_data {
        Ok(source.join("quests"))
    } else {
        Err(EditorError::InvalidBook(shown.to_owned()))
    }
}

/// The folder in which a folder stands, or the one in which the program runs.
pub open spec fn surrounding(folder: Seq<path::PartModel>) -> Seq<path::PartModel> {
    match path::folder(folder) {
        Some(parent) => parent,
        None => seq![path::PartModel::Here],
    }
}

/// The name of a folder, or another where it has none.
pub open spec fn name_or(folder: Seq<path::PartModel>, default: Seq<char>) -> Seq<char> {
    match path::last_name(folder) {
        Some(name) => name,
        None => default,
    }
}

fn surroundings(folder: &ProjectPath) -> (r: ProjectPath)
    ensures
        r@ == surrounding(folder@),
{
    match folder.parent() {
        Some(parent) => parent,
        None => {
            let mut parts: Vec<PathPart> = Vec::new();
            parts.push(PathPart::Here);
            let r = ProjectPath { parts };
            assert(r@ =~= seq![path::PartModel::Here]);
            r
        },
    }
}

fn folder_name(folder: &ProjectPath, default: &str) -> (r: String)
    ensures
        r@ == name_or(folder@, default@),
{
    match folder.file_name() {
        Some(name) => name,
        None => default.to_owned(),
    }
}

/// A folder beside another, with its name, or another where it has none, and an ending.
pub fn sibling(folder: &ProjectPath, default: &str, ending: &str) -> (r: ProjectPath)
    ensures
        r@ == path::inside(surrounding(folder@), name_or(folder@, default@) + ending@),
{
    let mut name = folder_name(folder, default);
    name.append(ending);
    surroundings(folder).join(name.as_str())
}

/// The names that an imported project may get, in the order in which they are tried.
pub open spec fn edited_name(name: Seq<char>, suffix: nat) -> Seq<char> {
    if suffix == 1 {
        name + "_edited"@
    } else {
        name + "_edited_"@ + crate::compose::decimal(suffix)
    }
}

/// Where an imported project is saved, if nothing stands there yet: the path that is tried
/// `suffix`th.
pub fn import_candidate(source: &ProjectPath, suffix: u128) -> (r: ProjectPath)
    ensures
        r@ == path::inside(
            surrounding(project_folder(source@)),
            edited_name(name_or(project_folder(source@), "ftbquests"@), suffix as nat),
        ),
{
    let project = project_root(source);
    let mut name = folder_name(&project, "ftbquests");
    if suffix == 1 {
        name.append("_edited");
    } else {
        name.append("_edited_");
        name.append(crate::compose::number(suffix).as_str());
    }
    surroundings(&project).join(name.as_str())
}

/// The folder of the snapshots of a project.
pub open spec fn snapshot_folder(destination: Seq<path::PartModel>) -> Seq<path::PartModel> {
    let name = name_or(project_folder(destination), "ftbquests"@);
    path::inside(
        surrounding(project_folder(destination)),
        (if name.len() == 0 {
            "ftbquests"@
        } else {
            name
        }) + "_autosave"@,
    )
}

/// The folder of the snapshots of a project.
pub fn autosave_destination(destination: &ProjectPath) -> (r: ProjectPath)
    ensures
        r@ == snapshot_folder(destination@),
{
    let project = project_root(destination);
    let found = folder_name(&project, "ftbquests");
    let mut name = if text::same(found.as_str(), "") {
        "ftbquests".to_owned()
    } else {
        found
    };
    proof {
        reveal_strlit("");
        assert(found@.len() == 0 ==> found@ =~= ""@);
    }
    name.append("_autosave");
    surroundings(&project).join(name.as_str())
}

// ---------------------------------------------------------------------------
// The steps
// ---------------------------------------------------------------------------

/// A step of saving: to make a folder, or to write a file.
#[derive(Debug, Clone)]
pub enum SaveStep {
    Folder(ProjectPath),
    Bytes(ProjectPath, Vec<u8>),
    Text(ProjectPath, String),
}

/// The mathematical form of a step.
#[verifier::ext_equal]
pub ghost enum StepModel {
    Folder(Seq<path::PartModel>),
    Bytes(Seq<path::PartModel>, Seq<u8>),
    Text(Seq<path::PartModel>, Seq<char>),
}

impl View for SaveStep {
    type V = StepModel;

    open spec fn view(&self) -> StepModel {
        match self {
            SaveStep::Folder(p) => StepModel::Folder(p@),
            SaveStep::Bytes(p, bytes) => StepModel::Bytes(p@, bytes@),
            SaveStep::Text(p, contents) => StepModel::Text(p@, contents@),
        }
    }
}

/// The steps that write one kept file.
pub open spec fn file_steps(root: Seq<path::PartModel>, file: editor::FileModel) -> Seq<StepModel> {
    let place = path::path_inside(root, file.relative_path);
    match path::folder(place) {
        Some(folder) => seq![StepModel::Folder(folder), StepModel::Bytes(place, file.contents)],
        None => seq![StepModel::Bytes(place, file.contents)],
    }
}

/// The steps that write the kept files.
pub open spec fn files_steps(root: Seq<path::PartModel>, files: Seq<editor::FileModel>) -> Seq<
    StepModel,
>
    decreases files.len(),
{
    if files.len() == 0 {
        Seq::empty()
    } else {
        files_steps(root, files.drop_last()) + file_steps(root, files.last())
    }
}

/// What is written of a language is one line, and is read as its texts.
pub open spec fn is_read_back(language: (Seq<char>, Seq<(Seq<char>, Seq<char>)>)) -> bool {
    languages::holds_pairs(languages::json_bytes(language.1), language.1)
        && languages::is_one_line(languages::json_bytes(language.1))
}

/// What is written of each language is read as its texts.
pub open spec fn are_read_back(
    languages: Seq<(Seq<char>, Seq<(Seq<char>, Seq<char>)>)>,
) -> bool {
    forall|i: int| 0 <= i < languages.len() ==> is_read_back(#[trigger] languages[i])
}

/// The steps that write languages.
pub open spec fn languages_steps(
    folder: Seq<path::PartModel>,
    languages: Seq<(Seq<char>, Seq<(Seq<char>, Seq<char>)>)>,
) -> Seq<StepModel> {
    Seq::new(
        languages.len(),
        |i: int|
            StepModel::Bytes(
                path::inside(folder, languages[i].0 + ".json"@),
                languages::json_bytes(languages[i].1),
            ),
    )
}

/// The step that writes a chapter.
pub open spec fn chapter_step(
    root: Seq<path::PartModel>,
    chapter: quest::ChapterModel,
    numbers: Seq<(Seq<char>, import::ReadingModel)>,
) -> StepModel {
    StepModel::Text(
        path::inside(path::inside(root, "chapters"@), chapter.filename + ".snbt"@),
        export::chapter_text(chapter, numbers),
    )
}

/// The steps that write the folders, the kept files and the languages.
pub open spec fn first_steps(book: editor::BookModel, destination: Seq<path::PartModel>) -> Seq<
    StepModel,
> {
    let root = quests_folder(destination);
    let languages = book.translations.languages;
    let folder = language_folder(project_folder(destination));
    seq![
        StepModel::Folder(path::inside(root, "chapters"@)),
        StepModel::Folder(path::inside(root, "reward_tables"@)),
    ] + files_steps(root, book.preserved_files) + (if languages.len() == 0 {
        Seq::empty()
    } else {
        seq![StepModel::Folder(folder)] + languages_steps(folder, languages)
    })
}

/// The steps that write the book, the groups and the chapters.
pub open spec fn last_steps(
    book: editor::BookModel,
    destination: Seq<path::PartModel>,
    numbers: Seq<(Seq<char>, import::ReadingModel)>,
) -> Seq<StepModel> {
    let root = quests_folder(destination);
    seq![
        StepModel::Text(
            path::inside(root, "data.snbt"@),
            export::data_text(book.title, book.grid_scale),
        ),
        StepModel::Text(
            path::inside(root, "chapter_groups.snbt"@),
            export::groups_text(book.groups),
        ),
    ] + Seq::new(
        book.chapters.len(),
        |i: int| chapter_step(root, book.chapters[i], numbers),
    )
}

/// All steps that save a book.
pub open spec fn save_plan(
    book: editor::BookModel,
    destination: Seq<path::PartModel>,
    numbers: Seq<(Seq<char>, import::ReadingModel)>,
) -> Seq<StepModel> {
    first_steps(book, destination) + last_steps(book, destination, numbers)
}

/// Adds a step.
fn add_step(steps: &mut Vec<SaveStep>, step: SaveStep)
    ensures
        order::views(final(steps)@) == order::views(old(steps)@).push(step@),
{
    let ghost before = steps@;
    let ghost model = step@;
    steps.push(step);
    assert(order::views(steps@) =~= order::views(before).push(model));
}

fn add_file_steps(
    steps: &mut Vec<SaveStep>,
    root: &ProjectPath,
    files: &Vec<editor::PreservedFile>,
)
    ensures
        order::views(final(steps)@) == order::views(old(steps)@) + files_steps(
            root@,
            order::views(files@),
        ),
{
    let ghost start = order::views(steps@);
    let ghost all = order::views(files@);
    let mut i: usize = 0;
    assert(all.take(0) =~= Seq::empty());
    assert(start + files_steps(root@, all.take(0)) =~= start);
    while i < files.len()
        invariant
            i <= files@.len(),
            all == order::views(files@),
            order::views(steps@) == start + files_steps(root@, all.take(i as int)),
        decreases files@.len() - i,
    {
        let ghost before = order::views(steps@);
        let place = root.join_path(&files[i].relative_path);
        proof {
            assert(all.take(i + 1).drop_last() =~= all.take(i as int));
            assert(all.take(i + 1).last() == files@[i as int]@);
        }
        match place.parent() {
            Some(folder) => {
                add_step(steps, SaveStep::Folder(folder));
            },
            None => {},
        }
        add_step(steps, SaveStep::Bytes(place, copy_bytes(&files[i].contents)));
        proof {
            assert(order::views(steps@) =~= before + file_steps(root@, files@[i as int]@));
            assert(order::views(steps@) =~= start + files_steps(root@, all.take(i + 1)));
        }
        i += 1;
    }
    assert(all.take(i as int) =~= all);
}

/// A copy of bytes.
pub fn copy_bytes(bytes: &Vec<u8>) -> (r: Vec<u8>)
    ensures
        r@ == bytes@,
{
    let mut r: Vec<u8> = Vec::new();
    let mut i: usize = 0;
    while i < bytes.len()
        invariant
            i <= bytes@.len(),
            r@ == bytes@.take(i as int),
        decreases bytes@.len() - i,
    {
        assert(bytes@.take(i + 1) =~= bytes@.take(i as int).push(bytes@[i as int]));
        r.push(bytes[i]);
        i += 1;
    }
    assert(bytes@.take(i as int) =~= bytes@);
    r
}

fn add_language_steps(
    steps: &mut Vec<SaveStep>,
    folder: &ProjectPath,
    languages: &TextMap<TextMap<String>>,
)
    ensures
        order::views(final(steps)@) == order::views(old(steps)@) + languages_steps(
            folder@,
            translation::languages_of(*languages),
        ),
        are_read_back(translation::languages_of(*languages)),
{
    let ghost start = order::views(steps@);
    let ghost all = translation::languages_of(*languages);
    let ghost more = languages_steps(folder@, all);
    let mut i: usize = 0;
    let n: usize = languages.len();
    assert(start + more.take(0) =~= start);
    while i < n
        invariant
            i <= n == languages@.len() == all.len() == more.len(),
            all == translation::languages_of(*languages),
            more == languages_steps(folder@, all),
            order::views(steps@) == start + more.take(i as int),
            start == order::views(old(steps)@),
            are_read_back(all.take(i as int)),
        decreases n - i,
    {
        let mut name = languages.key_at(i).to_owned();
        name.append(".json");
        let bytes = language_bytes(languages.value_at(i));
        add_step(steps, SaveStep::Bytes(folder.join(name.as_str()), bytes));
        proof {
            assert(start + more.take(i + 1) =~= (start + more.take(i as int)).push(
                more[i as int],
            ));
            assert forall|k: int| 0 <= k < i + 1 implies is_read_back(
                #[trigger] all.take(i + 1)[k],
            ) by {
                if k < i {
                    assert(is_read_back(all.take(i as int)[k]));
                }
            }
        }
        i += 1;
    }
    assert(more.take(i as int) =~= more);
    assert(all.take(i as int) =~= all);
}

impl EditableBook {
    /// The steps that save the book, in their order. The languages are read back from what is
    /// written of them.
    pub fn save(&self, destination: &ProjectPath, numbers: &TextMap<Reading>) -> (r: Vec<SaveStep>)
        ensures
            order::views(r@) == save_plan(self@, destination@, import::readings_of(*numbers)),
            are_read_back(self@.translations.languages),
    {
        let root = quests_root(destination);
        let mut steps: Vec<SaveStep> = Vec::new();
        add_step(&mut steps, SaveStep::Folder(root.join("chapters")));
        add_step(&mut steps, SaveStep::Folder(root.join("reward_tables")));
        let ghost folders = seq![
            StepModel::Folder(path::inside(root@, "chapters"@)),
            StepModel::Folder(path::inside(root@, "reward_tables"@)),
        ];
        assert(order::views(steps@) =~= folders);
        add_file_steps(&mut steps, &root, &self.preserved_files);
        let ghost files = order::views(steps@);
        if self.translations.languages.len() > 0 {
            let folder = project_root(destination).join("kubejs").join("lang");
            add_step(&mut steps, SaveStep::Folder(folder.copy()));
            add_language_steps(&mut steps, &folder, &self.translations.languages);
            proof {
                assert(order::views(steps@) =~= files + (seq![StepModel::Folder(folder@)]
                    + languages_steps(folder@, self@.translations.languages)));
                assert(order::views(steps@) =~= first_steps(self@, destination@));
            }
        } else {
            assert(self@.translations.languages.len() == 0);
            assert(order::views(steps@) =~= first_steps(self@, destination@));
        }
        let ghost first = order::views(steps@);
        add_step(
            &mut steps,
            SaveStep::Text(
                root.join("data.snbt"),
                data_snbt(self.title.as_str(), &self.grid_scale),
            ),
        );
        add_step(
            &mut steps,
            SaveStep::Text(root.join("chapter_groups.snbt"), chapter_groups_snbt(&self.groups)),
        );
        let ghost all = self@.chapters;
        let ghost table = import::readings_of(*numbers);
        let ghost last = last_steps(self@, destination@, table);
        let mut i: usize = 0;
        assert(order::views(steps@) =~= first + last.take(2));
        let chapters_root = root.join("chapters");
        while i < self.chapters.len()
            invariant
                i <= self.chapters@.len(),
                root@ == quests_folder(destination@),
                chapters_root@ == path::inside(root@, "chapters"@),
                table == import::readings_of(*numbers),
                last == last_steps(self@, destination@, table),
                order::views(steps@) == first + last.take(i + 2),
            decreases self.chapters@.len() - i,
        {
            let mut name = self.chapters[i].filename.clone();
            name.append(".snbt");
            add_step(
                &mut steps,
                SaveStep::Text(
                    chapters_root.join(name.as_str()),
                    chapter_snbt(&self.chapters[i], numbers),
                ),
            );
            proof {
                assert(self@.chapters[i as int] == self.chapters@[i as int]@);
                assert(last[i + 2] == chapter_step(root@, self@.chapters[i as int], table));
                assert(last.take(i + 3) =~= last.take(i + 2).push(last[i + 2]));
                assert(order::views(steps@) =~= first + last.take(i + 3));
            }
            i += 1;
        }
        assert(last.take(i + 2) =~= last);
        steps
    }
}

// ---------------------------------------------------------------------------
// Numbers
// ---------------------------------------------------------------------------

/// The value that a task was read from.
pub open spec fn task_raw(task: quest::TaskModel) -> Option<crate::notation::Node> {
    match task {
        quest::TaskModel::Checkmark { raw, .. } => raw,
        quest::TaskModel::Item { raw, .. } => raw,
        quest::TaskModel::Kill { raw, .. } => raw,
        quest::TaskModel::Unsupported { raw, .. } => Some(raw),
    }
}

/// The value that a reward was read from.
pub open spec fn reward_raw(reward: quest::RewardModel) -> Option<crate::notation::Node> {
    match reward {
        quest::RewardModel::Xp { raw, .. } => raw,
        quest::RewardModel::Item { raw, .. } => raw,
        quest::RewardModel::Unsupported { raw, .. } => Some(raw),
    }
}

/// The texts of numbers in a value that may be missing.
pub open spec fn raw_numbers(raw: Option<crate::notation::Node>) -> Seq<Seq<char>> {
    match raw {
        Some(n) => import::numbers_in(n),
        None => Seq::empty(),
    }
}

/// The texts of numbers in what tasks were read from.
pub open spec fn task_numbers(tasks: Seq<quest::TaskModel>) -> Seq<Seq<char>>
    decreases tasks.len(),
{
    if tasks.len() == 0 {
        Seq::empty()
    } else {
        task_numbers(tasks.drop_last()) + raw_numbers(task_raw(tasks.last()))
    }
}

/// The texts of numbers in what rewards were read from.
pub open spec fn reward_numbers(rewards: Seq<quest::RewardModel>) -> Seq<Seq<char>>
    decreases rewards.len(),
{
    if rewards.len() == 0 {
        Seq::empty()
    } else {
        reward_numbers(rewards.drop_last()) + raw_numbers(reward_raw(rewards.last()))
    }
}

/// The texts of numbers in what the tasks and rewards of quests were read from.
pub open spec fn quest_numbers(quests: Seq<quest::QuestModel>) -> Seq<Seq<char>>
    decreases quests.len(),
{
    if quests.len() == 0 {
        Seq::empty()
    } else {
        quest_numbers(quests.drop_last()) + task_numbers(quests.last().tasks) + reward_numbers(
            quests.last().rewards,
        )
    }
}

/// The texts of numbers in what the tasks and rewards of chapters were read from.
pub open spec fn kept_numbers(chapters: Seq<quest::ChapterModel>) -> Seq<Seq<char>>
    decreases chapters.len(),
{
    if chapters.len() == 0 {
        Seq::empty()
    } else {
        kept_numbers(chapters.drop_last()) + quest_numbers(chapters.last().quests)
    }
}

fn collect_raw(raw: &Option<crate::snbt::Value>, found: &mut Vec<String>)
    ensures
        text::texts(final(found)@) == text::texts(old(found)@) + raw_numbers(
            quest::opt_node(*raw),
        ),
{
    match raw {
        Some(value) => {
            collect_number_texts(value, found);
        },
        None => {
            assert(text::texts(found@) + Seq::<Seq<char>>::empty() =~= text::texts(found@));
        },
    }
}

fn collect_tasks(tasks: &Vec<Task>, found: &mut Vec<String>)
    ensures
        text::texts(final(found)@) == text::texts(old(found)@) + task_numbers(
            order::views(tasks@),
        ),
{
    let ghost start = text::texts(found@);
    let ghost all = order::views(tasks@);
    let mut i: usize = 0;
    assert(all.take(0) =~= Seq::empty());
    assert(start + task_numbers(all.take(0)) =~= start);
    while i < tasks.len()
        invariant
            i <= tasks@.len(),
            all == order::views(tasks@),
            text::texts(found@) == start + task_numbers(all.take(i as int)),
        decreases tasks@.len() - i,
    {
        proof {
            assert(all.take(i + 1).drop_last() =~= all.take(i as int));
            assert(all.take(i + 1).last() == tasks@[i as int]@);
        }
        match &tasks[i] {
            Task::Checkmark { raw, .. } => collect_raw(raw, found),
            Task::Item { raw, .. } => collect_raw(raw, found),
            Task::Kill { raw, .. } => collect_raw(raw, found),
            Task::Unsupported { raw, .. } => collect_number_texts(raw, found),
        }
        assert(text::texts(found@) =~= start + task_numbers(all.take(i + 1)));
        i += 1;
    }
    assert(all.take(i as int) =~= all);
}

fn collect_rewards(rewards: &Vec<Reward>, found: &mut Vec<String>)
    ensures
        text::texts(final(found)@) == text::texts(old(found)@) + reward_numbers(
            order::views(rewards@),
        ),
{
    let ghost start = text::texts(found@);
    let ghost all = order::views(rewards@);
    let mut i: usize = 0;
    assert(all.take(0) =~= Seq::empty());
    assert(start + reward_numbers(all.take(0)) =~= start);
    while i < rewards.len()
        invariant
            i <= rewards@.len(),
            all == order::views(rewards@),
            text::texts(found@) == start + reward_numbers(all.take(i as int)),
        decreases rewards@.len() - i,
    {
        proof {
            assert(all.take(i + 1).drop_last() =~= all.take(i as int));
            assert(all.take(i + 1).last() == rewards@[i as int]@);
        }
        match &rewards[i] {
            Reward::Xp { raw, .. } => collect_raw(raw, found),
            Reward::Item { raw, .. } => collect_raw(raw, found),
            Reward::Unsupported { raw, .. } => collect_number_texts(raw, found),
        }
        assert(text::texts(found@) =~= start + reward_numbers(all.take(i + 1)));
        i += 1;
    }
    assert(all.take(i as int) =~= all);
}

fn collect_quests(quests: &Vec<Quest>, found: &mut Vec<String>)
    ensures
        text::texts(final(found)@) == text::texts(old(found)@) + quest_numbers(
            order::views(quests@),
        ),
{
    let ghost start = text::texts(found@);
    let ghost all = order::views(quests@);
    let mut i: usize = 0;
    assert(all.take(0) =~= Seq::empty());
    assert(start + quest_numbers(all.take(0)) =~= start);
    while i < quests.len()
        invariant
            i <= quests@.len(),
            all == order::views(quests@),
            text::texts(found@) == start + quest_numbers(all.take(i as int)),
        decreases quests@.len() - i,
    {
        proof {
            assert(all.take(i + 1).drop_last() =~= all.take(i as int));
            assert(all.take(i + 1).last() == quests@[i as int]@);
        }
        collect_tasks(&quests[i].tasks, found);
        collect_rewards(&quests[i].rewards, found);
        assert(text::texts(found@) =~= start + quest_numbers(all.take(i + 1)));
        i += 1;
    }
    assert(all.take(i as int) =~= all);
}

impl EditableBook {
    /// The texts of numbers in what the tasks and rewards of the book were read from.
    pub fn number_texts(&self) -> (r: Vec<String>)
        ensures
            text::texts(r@) == kept_numbers(self@.chapters),
    {
        let mut r: Vec<String> = Vec::new();
        let ghost all = self@.chapters;
        let mut i: usize = 0;
        assert(all.take(0) =~= Seq::empty());
        assert(text::texts(r@) =~= Seq::empty());
        while i < self.chapters.len()
            invariant
                i <= self.chapters@.len(),
                all == order::views(self.chapters@),
                text::texts(r@) == kept_numbers(all.take(i as int)),
            decreases self.chapters@.len() - i,
        {
            proof {
                assert(all.take(i + 1).drop_last() =~= all.take(i as int));
                assert(all.take(i + 1).last() == self.chapters@[i as int]@);
            }
            collect_quests(&self.chapters[i].quests, &mut r);
            i += 1;
        }
        assert(all.take(i as int) =~= all);
        r
    }
}

} // verus!
