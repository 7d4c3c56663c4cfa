use ftbgui::autosave::{
    snapshot_folders, tick_autosave, AutosaveTick, Place, Snapshot, SnapshotAction, SnapshotEvent,
    AUTOSAVE_INTERVAL,
};
use ftbgui::book::{BookSources, QuestBook, SourceFile};
use ftbgui::editor::{
    read_snbt, EditableBook, EditorError, IdGenerator, ImportReport, Number, PreservedFile,
    QuestSettings, Reward, Task, Tristate,
};
use ftbgui::import::Reading;
use ftbgui::interactive::{grid_place, run_editor, DialogAction};
use ftbgui::languages::LanguageFile;
use ftbgui::naming::{slugify, unique_chapter_filename};
use ftbgui::opening::{import_destination, open_parts, snbt_files, BookFiles};
use ftbgui::path::{PathPart, ProjectPath};
use ftbgui::saving::{
    autosave_destination, find_quests_root, import_candidate, language_root, project_root,
    quests_root, SaveStep,
};
use ftbgui::snbt;
use ftbgui::table::TextMap;
use std::collections::BTreeMap;

fn format_number(value: f64) -> String {
    let mut text = format!("{value:.4}");
    while text.contains('.') && text.ends_with('0') {
        text.pop();
    }
    if text.ends_with('.') {
        text.push('0');
    }
    text
}

fn number(value: f64) -> Number {
    let differs = (value - 1.0).abs() > f64::EPSILON;
    Number::new(value.to_bits(), format_number(value), !differs).unwrap()
}

fn value_of(number: &Number) -> f64 {
    f64::from_bits(number.bits())
}

fn readings(texts: Vec<String>) -> TextMap<Reading> {
    let mut map = TextMap::new();
    for text in texts {
        if let Ok(value) = text.parse::<f64>() {
            let whole = value.round();
            map.insert(
                text,
                Reading {
                    number: number(value),
                    rounded: (whole >= i32::MIN as f64 && whole <= i32::MAX as f64)
                        .then_some(whole as i32),
                    count: (value >= 0.0).then_some(whole as u32),
                },
            );
        }
    }
    map
}

fn path(text: &str) -> ProjectPath {
    ProjectPath {
        parts: text
            .split('/')
            .filter(|part| !part.is_empty())
            .map(|part| PathPart::Name(part.to_owned()))
            .collect(),
    }
}

fn shown(path: &ProjectPath) -> String {
    path.parts
        .iter()
        .map(|part| match part {
            PathPart::Root(root) => root.clone(),
            PathPart::Here => ".".to_owned(),
            PathPart::Up => "..".to_owned(),
            PathPart::Name(name) => name.clone(),
        })
        .collect::<Vec<_>>()
        .join("/")
}

type Disk = BTreeMap<String, Vec<u8>>;

fn save(book: &EditableBook, destination: &str, disk: &mut Disk) {
    for step in book.save(&path(destination), &readings(book.number_texts())) {
        match step {
            SaveStep::Folder(_) => {}
            SaveStep::Bytes(place, bytes) => {
                disk.insert(shown(&place), bytes);
            }
            SaveStep::Text(place, text) => {
                disk.insert(shown(&place), text.into_bytes());
            }
        }
    }
}

fn text_of(disk: &Disk, name: &str) -> Option<String> {
    disk.get(name).map(|bytes| String::from_utf8(bytes.clone()).unwrap())
}

fn files_in<'a>(disk: &'a Disk, folder: &'a str, ending: &'a str) -> Vec<(String, String)> {
    let prefix = format!("{folder}/");
    disk.keys()
        .filter(|name| name.starts_with(&prefix) && name.ends_with(ending))
        .map(|name| {
            let file = name[prefix.len()..].to_owned();
            (name.clone(), file[..file.len() - ending.len()].to_owned())
        })
        .collect()
}

fn source_file(disk: &Disk, name: String, stem: Option<String>) -> SourceFile {
    SourceFile {
        contents: text_of(disk, &name).ok_or_else(|| format!("missing {name}")),
        path: name,
        stem,
    }
}

fn files_of(disk: &Disk, source_name: Option<String>, root: &ProjectPath) -> BookFiles {
    let root_name = shown(root);
    let groups = format!("{root_name}/chapter_groups.snbt");
    let folder = format!("{root_name}/chapters");
    let listed = files_in(disk, &folder, "").into_iter().map(|(name, _)| path(&name)).collect();
    BookFiles {
        source_name,
        root: root_name.clone(),
        data: source_file(disk, format!("{root_name}/data.snbt"), None),
        groups: disk.contains_key(&groups).then(|| source_file(disk, groups, None)),
        preserved_files: Ok(files_in(disk, &format!("{root_name}/reward_tables"), "")
            .into_iter()
            .map(|(name, file)| PreservedFile {
                relative_path: path(&format!("reward_tables/{file}")),
                contents: disk[&name].clone(),
            })
            .collect()),
        languages: files_in(disk, &shown(&language_root(root)), ".json")
            .into_iter()
            .map(|(name, stem)| LanguageFile { stem, contents: disk[&name].clone(), path: name })
            .collect(),
        language_failure: None,
        chapters: Ok(snbt_files(listed)
            .into_iter()
            .map(|place| {
                let file = place.file_name().unwrap();
                let stem = file[..file.len() - ".snbt".len()].to_owned();
                source_file(disk, shown(&place), Some(stem))
            })
            .collect()),
    }
}

fn load(disk: &Disk, source: &str) -> Result<(EditableBook, ImportReport), EditorError> {
    let source_path = path(source);
    let root = find_quests_root(
        &source_path,
        source,
        disk.contains_key(&format!("{source}/data.snbt")),
        disk.contains_key(&format!("{source}/quests/data.snbt")),
    )?;
    let root_name = shown(&root);
    let parts = open_parts(files_of(disk, source_path.file_name(), &root))?;
    let numbers = readings(parts.number_texts());
    EditableBook::load(parts, &numbers)
}

fn statistics(disk: &Disk, root: &str) -> QuestBook {
    let file = |name: String, stem: Option<String>| SourceFile {
        contents: text_of(disk, &name).ok_or_else(|| "missing".to_owned()),
        path: name,
        stem,
    };
    let folder = |name: &str| {
        Ok(files_in(disk, &format!("{root}/{name}"), ".snbt")
            .into_iter()
            .map(|(path, stem)| file(path, Some(stem)))
            .collect())
    };
    let sources = BookSources {
        root: root.to_owned(),
        data: file(format!("{root}/data.snbt"), None),
        groups: Some(file(format!("{root}/chapter_groups.snbt"), None)),
        chapters: folder("chapters"),
        reward_tables: folder("reward_tables"),
    };
    QuestBook::load(&sources).unwrap()
}

#[test]
fn duplicates_quests_with_fresh_ids_and_remapped_internal_dependencies() {
    let mut ids = IdGenerator::new(12345, 678);
    let mut book = EditableBook::blank(&mut ids);
    book.add_quest(0, (number(1.0), number(2.0)), &mut ids);
    book.add_quest(0, (number(3.0), number(4.0)), &mut ids);
    let original_ids =
        book.chapters[0].quests.iter().map(|quest| quest.id.clone()).collect::<Vec<_>>();
    book.chapters[0].quests[0].tasks.push(Task::Item {
        id: ids.next_id(),
        title: "Item".to_owned(),
        item: "minecraft:stone".to_owned(),
        count: 1,
        raw: None,
    });
    book.chapters[0].quests[1].rewards.push(Reward::Xp { id: ids.next_id(), amount: 5, raw: None });
    book.chapters[0].quests[1].dependencies.push(original_ids[0].clone());
    let templates = book.chapters[0].quests.clone();

    let offset = (10.0, -2.0);
    let positions = templates
        .iter()
        .map(|quest| (number(value_of(&quest.x) + offset.0), number(value_of(&quest.y) + offset.1)))
        .collect();
    let copied_ids = book.duplicate_quests(0, &templates, &positions, &mut ids);

    assert_eq!(copied_ids.len(), 2);
    assert!(!original_ids.contains(&copied_ids[0]));
    assert_eq!(value_of(&book.chapters[0].quests[2].x), 11.0);
    assert_eq!(value_of(&book.chapters[0].quests[3].y), 2.0);
    assert_eq!(book.chapters[0].quests[3].dependencies, vec![copied_ids[0].clone()]);
    let Task::Item { id, .. } = &book.chapters[0].quests[2].tasks[0] else {
        panic!("expected item task");
    };
    let Task::Item { id: original_task_id, .. } = &book.chapters[0].quests[0].tasks[0] else {
        panic!("expected item task");
    };
    assert_ne!(id, original_task_id);
}

#[test]
fn copies_into_a_chapter_that_is_not_there_are_none() {
    let mut ids = IdGenerator::new(1, 1);
    let mut book = EditableBook::blank(&mut ids);
    book.add_quest(0, (number(0.0), number(0.0)), &mut ids);
    let templates = book.chapters[0].quests.clone();
    assert!(book.duplicate_quests(5, &templates, &Vec::new(), &mut ids).is_empty());
    assert_eq!(book.chapters[0].quests.len(), 1);
}

#[test]
fn copies_of_kept_entries_get_their_ids_in_the_kept_value() {
    let mut ids = IdGenerator::new(7, 7);
    let mut book = EditableBook::blank(&mut ids);
    book.add_quest(0, (number(0.0), number(0.0)), &mut ids);
    book.chapters[0].quests[0].tasks.push(Task::Unsupported {
        kind: "dimension".to_owned(),
        raw: snbt::parse("{ id: \"OLD\" type: \"dimension\" }").unwrap(),
    });
    book.chapters[0].quests[0].rewards.push(Reward::Xp {
        id: "OLD".to_owned(),
        amount: 1,
        raw: Some(snbt::parse("{ id: \"OLD\" type: \"xp\" }").unwrap()),
    });
    let templates = book.chapters[0].quests.clone();
    book.duplicate_quests(0, &templates, &Vec::new(), &mut ids);
    let copy = &book.chapters[0].quests[1];
    let Task::Unsupported { raw, .. } = &copy.tasks[0] else {
        panic!("expected a kept task");
    };
    let task_id = raw.get("id").unwrap().as_str().unwrap().to_owned();
    assert_ne!(task_id, "OLD");
    let Reward::Xp { id, raw, .. } = &copy.rewards[0] else {
        panic!("expected experience");
    };
    assert_ne!(*id, task_id);
    assert_eq!(raw.as_ref().unwrap().get("id").unwrap().as_str(), Some(id.as_str()));
}

#[test]
fn creates_book_with_tasks_reward_and_dependency() {
    let script = "\
Test Book\n\
Main Chapter\n\
\n\
1\n\
First Quest\n\
Start here\n\
2\n\
1\n\
1\n\
Press the button\n\
4\n\
1\n\
1\n\
25\n\
1\n\
Second Quest\n\
Continue\n\
2\n\
2\n\
2\n\
Bring stone\n\
minecraft:stone\n\
4\n\
3\n\
2\n\
1\n\
0\n";
    let mut lines = script.split_inclusive('\n');
    let mut disk = Disk::new();
    let mut transcript = String::new();
    let (mut dialog, mut turn) = run_editor("out/quests", false, IdGenerator::new(99, 3)).unwrap();
    loop {
        transcript.push_str(&turn.output);
        turn = match turn.action {
            DialogAction::Read => {
                let (column, row) = grid_place(dialog.book.first_quest_count());
                dialog.answer(
                    lines.next().unwrap_or(""),
                    number(column as f64 * 2.5),
                    number(row as f64 * 2.5),
                )
            }
            DialogAction::Save => {
                save(&dialog.book, "out", &mut disk);
                dialog.saved(None)
            }
            DialogAction::Stop => break,
            DialogAction::Fail(error) => panic!("{}", error.message()),
        };
    }
    assert!(transcript.starts_with("Создание новой книги FTB Quests\nНазвание книги: "));
    assert!(transcript.ends_with("Сохранено в out/quests\n"));
    assert!(transcript.contains("Имя файла главы [main_chapter]: "));
    assert!(disk.contains_key("out/quests/chapters/main_chapter.snbt"));

    let book = statistics(&disk, "out/quests");
    assert_eq!(book.chapters, 1);
    assert_eq!(book.quests, 2);
    assert_eq!(book.tasks, 2);
    assert_eq!(book.rewards, 1);
    assert_eq!(book.dependencies, 1);
    assert_eq!(book.broken_dependencies, 0);
    assert_eq!(book.task_types.get("checkmark"), Some(&1));
    assert_eq!(book.task_types.get("item"), Some(&1));
}

#[test]
fn saves_multiple_groups_and_chapters() {
    let mut ids = IdGenerator::new(42, 1);
    let mut editable = EditableBook::blank(&mut ids);
    let group = editable.add_group("Machines".to_owned(), &mut ids);
    editable.chapters[0].group = Some(group.clone());
    let second = editable.add_chapter("Magic".to_owned(), None, &mut ids);
    editable.add_quest(0, (number(1.5), number(-2.0)), &mut ids);
    editable.add_quest(second, (number(4.0), number(3.5)), &mut ids);
    let mut disk = Disk::new();
    save(&editable, "root", &mut disk);

    let book = statistics(&disk, "root/quests");
    assert_eq!(book.groups, 1);
    assert_eq!(book.chapters, 2);
    assert_eq!(book.grouped_chapters, 1);
    assert_eq!(book.quests, 2);
    assert_eq!(book.broken_dependencies, 0);
}

#[test]
fn imports_editable_book_and_reports_unsupported_entries() {
    let mut disk = Disk::new();
    disk.insert(
        "root/quests/data.snbt".to_owned(),
        b"{ title: \"Imported\" grid_scale: 0.25d version: 13 }".to_vec(),
    );
    disk.insert(
        "root/quests/chapter_groups.snbt".to_owned(),
        b"{ chapter_groups: [{ id: \"GROUP\" title: \"Machines\" }] }".to_vec(),
    );
    disk.insert(
        "root/quests/chapters/main.snbt".to_owned(),
        br#"{
                filename: "main"
                group: "GROUP"
                id: "CHAPTER"
                order_index: 2
                title: "Main"
                quests: [{
                    id: "QUEST"
                    title: "First"
                    subtitle: "Hover text"
                    tags: ["bluequests" "tutorial"]
                    can_repeat: true
                    repeat_cooldown: 60
                    dependency_requirement: "one_completed"
                    hide_until_deps_visible: true
                    description: ["Line one" "Line two"]
                    x: 1.5d
                    y: -2.0d
                    dependencies: ["OTHER"]
                    tasks: [
                        { id: "TASK" title: "Done" type: "checkmark" }
                        { id: "UNKNOWN_TASK" type: "dimension" }
                    ]
                    rewards: [
                        { id: "REWARD" type: "xp" xp: 25 }
                        { id: "UNKNOWN_REWARD" type: "command" }
                    ]
                }]
            }"#
        .to_vec(),
    );

    let (book, report) = load(&disk, "root").unwrap();
    assert_eq!(book.title, "Imported");
    assert_eq!(value_of(&book.grid_scale), 0.25);
    assert_eq!(book.groups[0].title, "Machines");
    assert_eq!(book.chapters[0].title, "Main");
    assert_eq!(book.chapters[0].group.as_deref(), Some("GROUP"));
    assert_eq!(book.chapters[0].quests[0].description, "Line one\nLine two");
    assert_eq!(book.chapters[0].quests[0].settings.subtitle, "Hover text");
    assert_eq!(book.chapters[0].quests[0].settings.tags, ["bluequests", "tutorial"]);
    assert_eq!(book.chapters[0].quests[0].settings.can_repeat, Tristate::True);
    assert_eq!(book.chapters[0].quests[0].settings.repeat_cooldown, 60);
    assert_eq!(book.chapters[0].quests[0].settings.dependency_requirement, "one_completed");
    assert_eq!(book.chapters[0].quests[0].settings.hide_until_deps_visible, Tristate::True);
    assert_eq!(book.chapters[0].quests[0].tasks.len(), 2);
    assert_eq!(book.chapters[0].quests[0].rewards.len(), 2);
    assert_eq!(value_of(&book.chapters[0].quests[0].x), 1.5);
    assert_eq!(value_of(&book.chapters[0].quests[0].y), -2.0);
    assert_eq!(report.preserved_tasks, 1);
    assert_eq!(report.preserved_rewards, 1);
    assert_eq!(report.preserved_total(), 2);

    let mut exported = Disk::new();
    save(&book, "export", &mut exported);
    let (roundtrip, roundtrip_report) = load(&exported, "export").unwrap();
    assert_eq!(roundtrip.chapters[0].quests[0].tasks.len(), 2);
    assert_eq!(roundtrip.chapters[0].quests[0].rewards.len(), 2);
    assert_eq!(roundtrip_report.preserved_tasks, 1);
    assert_eq!(roundtrip_report.preserved_rewards, 1);
    assert_eq!(roundtrip.chapters[0].quests[0].description, "Line one\nLine two");
    assert_eq!(roundtrip.chapters[0].quests[0].settings.tags, ["bluequests", "tutorial"]);
    assert_eq!(roundtrip.chapters[0].order_index, 2);
}

#[test]
fn preserves_reward_tables_and_extended_item_data() {
    let mut disk = Disk::new();
    disk.insert(
        "root/quests/data.snbt".to_owned(),
        b"{ title: \"Preserve\" version: 13 }".to_vec(),
    );
    disk.insert(
        "root/quests/chapters/main.snbt".to_owned(),
        br#"{
                filename: "main"
                id: "CHAPTER"
                title: "Main"
                quests: [{
                    id: "QUEST"
                    rewards: [{
                        id: "REWARD"
                        item: {
                            components: { "minecraft:custom_name": "Shiny" }
                            count: 3
                            id: "minecraft:diamond"
                        }
                        random_bonus: 2
                        type: "item"
                    }]
                    tasks: []
                    title: "Quest"
                    x: 0d
                    y: 0d
                }]
            }"#
        .to_vec(),
    );
    let reward_table = "{ id: \"TABLE\" rewards: [] }";
    disk.insert(
        "root/quests/reward_tables/example.snbt".to_owned(),
        reward_table.as_bytes().to_vec(),
    );

    let (book, _) = load(&disk, "root").unwrap();
    let mut output = Disk::new();
    save(&book, "output", &mut output);
    let chapter = text_of(&output, "output/quests/chapters/main.snbt").unwrap();
    assert!(chapter.contains("minecraft:custom_name"));
    assert!(chapter.contains("random_bonus: 2"));
    assert_eq!(
        text_of(&output, "output/quests/reward_tables/example.snbt").unwrap(),
        reward_table
    );
}

#[test]
fn creates_uuid_translation_and_writes_minified_json() {
    let mut ids = IdGenerator::new(5, 5);
    let mut book = EditableBook::blank(&mut ids);
    book.translations.add_locale("ru-RU");
    let key = book.translations.localize(&mut book.chapters[0].title);
    assert!(uuid::Uuid::parse_str(key.trim_start_matches("ftbgui.")).is_ok());
    assert_eq!(book.translations.resolve(&book.chapters[0].title), "Первая глава");

    let mut output = Disk::new();
    save(&book, "output", &mut output);
    let json = text_of(&output, "output/kubejs/lang/ru_ru.json").unwrap();
    assert!(!json.contains('\n'));
    let values = serde_json::from_str::<BTreeMap<String, String>>(&json).unwrap();
    assert_eq!(values.get(&key).map(String::as_str), Some("Первая глава"));

    let (again, report) = load(&output, "output").unwrap();
    assert_eq!(report.imported_languages, 1);
    assert_eq!(again.translations.active_locale, "ru_ru");
    assert_eq!(again.translations.resolve(&again.chapters[0].title), "Первая глава");
}

#[test]
fn a_language_that_is_no_object_of_texts_is_an_error() {
    let mut disk = Disk::new();
    disk.insert("p/quests/data.snbt".to_owned(), b"{}".to_vec());
    disk.insert("p/quests/chapters/a.snbt".to_owned(), b"{}".to_vec());
    disk.insert("p/kubejs/lang/en_us.json".to_owned(), b"{\"a\": 1}".to_vec());
    let error = load(&disk, "p").unwrap_err();
    assert!(error.message().starts_with("ошибка JSON в p/kubejs/lang/en_us.json: "));
}

#[test]
fn autosave_rotates_current_and_previous_snapshots() {
    let folders = snapshot_folders(&path("root/book_autosave"));
    let place = |place: Place| match place {
        Place::Temporary => shown(&folders.temporary),
        Place::Current => shown(&folders.current),
        Place::Previous => shown(&folders.previous),
    };
    let under = |disk: &Disk, folder: &str| {
        let prefix = format!("{folder}/");
        disk.keys().filter(|name| name.starts_with(&prefix)).cloned().collect::<Vec<_>>()
    };
    let snapshot = |book: &EditableBook, disk: &mut Disk| {
        let mut state = Snapshot::start();
        loop {
            let event = match state.action() {
                SnapshotAction::Look(p) => SnapshotEvent::Exists(!under(disk, &place(p)).is_empty()),
                SnapshotAction::Remove(p) => {
                    for name in under(disk, &place(p)) {
                        disk.remove(&name);
                    }
                    SnapshotEvent::Done
                }
                SnapshotAction::Save => {
                    save(book, &place(Place::Temporary), disk);
                    SnapshotEvent::Done
                }
                SnapshotAction::Rename(from, to) => {
                    let (from, to) = (place(from), place(to));
                    for name in under(disk, &from) {
                        let bytes = disk.remove(&name).unwrap();
                        disk.insert(format!("{to}{}", &name[from.len()..]), bytes);
                    }
                    SnapshotEvent::Done
                }
                SnapshotAction::Stop => break,
            };
            state = state.next(event);
        }
        assert!(matches!(state, Snapshot::Finished(None)));
    };
    let mut disk = Disk::new();
    let mut ids = IdGenerator::new(8, 8);
    let mut book = EditableBook::blank(&mut ids);

    snapshot(&book, &mut disk);
    book.title = "Second version".to_owned();
    snapshot(&book, &mut disk);

    let (current, _) = load(&disk, "root/book_autosave").unwrap();
    let (previous, _) = load(&disk, "root/book_autosave_previous").unwrap();
    assert_eq!(current.title, "Second version");
    assert_eq!(previous.title, "Новая книга");
    assert!(under(&disk, "root/book_autosave_temporary").is_empty());
}

#[test]
fn a_snapshot_that_cannot_be_published_is_undone() {
    let mut state = Snapshot::Publish;
    state = state.next(SnapshotEvent::Failed("busy".to_owned()));
    assert_eq!(state.action(), SnapshotAction::Look(Place::Previous));
    state = state.next(SnapshotEvent::Exists(true));
    assert_eq!(state.action(), SnapshotAction::Look(Place::Current));
    state = state.next(SnapshotEvent::Exists(false));
    assert_eq!(state.action(), SnapshotAction::Rename(Place::Previous, Place::Current));
    state = state.next(SnapshotEvent::Done);
    assert!(matches!(state, Snapshot::Finished(Some(error)) if error == "busy"));
}

#[test]
fn snapshots_are_made_every_five_minutes() {
    assert_eq!(tick_autosave(false, u64::MAX), AutosaveTick::Off);
    assert_eq!(tick_autosave(true, AUTOSAVE_INTERVAL), AutosaveTick::Now);
    assert_eq!(tick_autosave(true, AUTOSAVE_INTERVAL - 1), AutosaveTick::Later(1));
}

#[test]
fn a_new_chapter_is_written_as_before() {
    let mut ids = IdGenerator::new(1, 0);
    let mut book = EditableBook::blank(&mut ids);
    let id = book.chapters[0].id.clone();
    book.add_quest(0, (number(1.5), number(-2.0)), &mut ids);
    let quest = book.chapters[0].quests[0].id.clone();
    let mut disk = Disk::new();
    save(&book, "p", &mut disk);
    assert_eq!(
        text_of(&disk, "p/quests/data.snbt").unwrap(),
        "{\n\tdefault_autoclaim_rewards: \"disabled\"\n\tdefault_consume_items: false\n\
         \tdefault_quest_shape: \"circle\"\n\tgrid_scale: 0.5d\n\tprogression_mode: \"flexible\"\n\
         \ttitle: \"Новая книга\"\n\tversion: 13\n}\n"
    );
    assert_eq!(
        text_of(&disk, "p/quests/chapter_groups.snbt").unwrap(),
        "{\n\tchapter_groups: [\n\t]\n}\n"
    );
    let chapter = text_of(&disk, "p/quests/chapters/first_chapter.snbt").unwrap();
    assert!(chapter.starts_with(
        "{\n\tdefault_hide_dependency_lines: false\n\tdefault_quest_shape: \"\"\n\
         \tfilename: \"first_chapter\"\n\tgroup: \"\"\n"
    ));
    assert!(chapter.contains(&format!("\tid: \"{id}\"\n\torder_index: 0\n")));
    assert!(chapter.contains(&format!("id: \"{quest}\"")));
    assert!(chapter.contains("x: 1.5d") && chapter.contains("y: -2.0d"));
    assert!(chapter.ends_with("\t]\n\ttitle: \"Первая глава\"\n}\n"));
}

#[test]
fn chapters_come_in_the_order_of_their_index() {
    let mut disk = Disk::new();
    disk.insert("p/data.snbt".to_owned(), b"{}".to_vec());
    disk.insert("p/chapters/a.snbt".to_owned(), b"{ order_index: 7 }".to_vec());
    disk.insert("p/chapters/b.snbt".to_owned(), b"{ order_index: -1 title: \"First\" }".to_vec());
    disk.insert("p/chapters/c.snbt".to_owned(), b"{ }".to_vec());
    let (book, _) = load(&disk, "p").unwrap();
    let names: Vec<&str> = book.chapters.iter().map(|c| c.filename.as_str()).collect();
    assert_eq!(names, ["b", "c", "a"]);
    assert_eq!(book.title, "p");
    assert_eq!(book.chapters[1].order_index, 2);
    assert_eq!(book.chapters[1].id, "0");
    assert_eq!(book.chapters[1].title, "Без названия");
}

#[test]
fn a_book_without_chapters_is_refused() {
    let mut disk = Disk::new();
    disk.insert("p/quests/data.snbt".to_owned(), b"{}".to_vec());
    let error = load(&disk, "p").unwrap_err();
    assert_eq!(error.message(), "в p/quests не найден data.snbt или quests/data.snbt");
    let error = load(&disk, "nowhere").unwrap_err();
    assert!(matches!(error, EditorError::InvalidBook(_)));
}

#[test]
fn errors_say_what_happened() {
    let error = read_snbt("a.snbt", Ok("{".to_owned())).unwrap_err();
    assert!(error.message().starts_with("ошибка SNBT в a.snbt: "));
    let error = read_snbt("a.snbt", Err("denied".to_owned())).unwrap_err();
    assert_eq!(error.message(), "denied");
    assert_eq!(
        EditorError::EmptyInput("Название".to_owned()).message(),
        "поле «Название» не может быть пустым"
    );
    assert_eq!(
        EditorError::ExistingBook("p".to_owned()).message(),
        "книга уже существует в p; выберите новую папку"
    );
}

#[test]
fn places_of_a_project() {
    assert_eq!(quests_root(&path("a/b")), path("a/b/quests"));
    assert_eq!(quests_root(&path("a/quests")), path("a/quests"));
    assert_eq!(project_root(&path("a/quests")), path("a"));
    assert_eq!(project_root(&path("a")), path("a"));
    assert_eq!(import_candidate(&path("x/pack/quests"), 1), path("x/pack_edited"));
    assert_eq!(import_candidate(&path("x/pack"), 3), path("x/pack_edited_3"));
    assert_eq!(shown(&import_candidate(&ProjectPath { parts: Vec::new() }, 1)), "./ftbquests_edited");
    let mut taken = Vec::new();
    assert_eq!(import_destination(&path("x/pack"), &taken), path("x/pack_edited"));
    taken.push("pack_edited".to_owned());
    taken.push("pack_edited_3".to_owned());
    assert_eq!(import_destination(&path("x/pack"), &taken), path("x/pack_edited_2"));
    taken.push("pack_edited_2".to_owned());
    assert_eq!(import_destination(&path("x/pack/quests"), &taken), path("x/pack_edited_4"));
    assert_eq!(autosave_destination(&path("x/pack")), path("x/pack_autosave"));
    let folders = snapshot_folders(&path("x/pack_autosave"));
    assert_eq!(folders.temporary, path("x/pack_autosave_temporary"));
    assert_eq!(folders.previous, path("x/pack_autosave_previous"));
}

#[test]
fn names_of_files_are_made_of_titles() {
    assert_eq!(slugify("Main Chapter!"), "main_chapter");
    assert_eq!(slugify("Глава"), "main");
    assert_eq!(slugify("  A--b  "), "a_b");
    let mut ids = IdGenerator::new(3, 3);
    let mut book = EditableBook::blank(&mut ids);
    assert_eq!(unique_chapter_filename(&book.chapters, "magic"), "magic");
    book.add_chapter("Magic".to_owned(), None, &mut ids);
    book.add_chapter("Magic".to_owned(), None, &mut ids);
    book.add_chapter("Magic".to_owned(), None, &mut ids);
    let names: Vec<&str> = book.chapters.iter().map(|c| c.filename.as_str()).collect();
    assert_eq!(names, ["first_chapter", "magic", "magic_2", "magic_3"]);
}

#[test]
fn ids_have_sixteen_digits_and_follow_from_the_state() {
    let mut ids = IdGenerator::new(0, 0);
    let first = ids.next_id();
    assert_eq!(first.len(), 16);
    let mut again = IdGenerator { state: 0x9E37_79B9_7F4A_7C15 };
    assert_eq!(again.next_id(), first);
    assert_ne!(again.next_id(), first);
}

#[test]
fn notation_files_are_listed_in_order() {
    let listed = ["d/b.snbt", "d/a.snbt", "d/.snbt", "d/c.json", "d/x.snbt.old", "d/a.b.snbt"];
    let found = snbt_files(listed.iter().map(|name| path(name)).collect());
    assert_eq!(found, [path("d/a.b.snbt"), path("d/a.snbt"), path("d/b.snbt")]);
}

#[test]
fn the_first_fault_in_reading_order_is_told() {
    let mut ids = IdGenerator::new(5, 5);
    let mut disk = Disk::new();
    save(&EditableBook::blank(&mut ids), "p", &mut disk);
    let root = path("p/quests");
    let files = || files_of(&disk, None, &root);
    assert!(open_parts(files()).is_ok());
    let fault = |files: BookFiles| open_parts(files).err().unwrap().message();

    let mut broken = files();
    broken.chapters = Err("no list".to_owned());
    assert_eq!(fault(broken), "no list");
    let mut broken = files();
    broken.chapters = Err("no list".to_owned());
    broken.language_failure = Some("no language".to_owned());
    assert_eq!(fault(broken), "no language");
    let mut broken = files();
    broken.language_failure = Some("no language".to_owned());
    broken.languages.push(LanguageFile {
        path: "x.json".to_owned(),
        stem: "x".to_owned(),
        contents: b"[".to_vec(),
    });
    assert!(fault(broken).starts_with("ошибка JSON в x.json: "));
    let mut broken = files();
    broken.preserved_files = Err("no tables".to_owned());
    broken.language_failure = Some("no language".to_owned());
    assert_eq!(fault(broken), "no tables");
    let mut broken = files();
    broken.preserved_files = Err("no tables".to_owned());
    broken.groups.as_mut().unwrap().contents = Ok("{".to_owned());
    assert!(fault(broken).starts_with("ошибка SNBT в p/quests/chapter_groups.snbt: "));
    let mut broken = files();
    broken.data.contents = Err("no data".to_owned());
    broken.groups.as_mut().unwrap().contents = Ok("{".to_owned());
    assert_eq!(fault(broken), "no data");
}

#[test]
fn numbers_have_plain_texts() {
    assert_eq!(Number::new(0, "a b".to_owned(), false), None);
    assert_eq!(Number::new(0, String::new(), false), None);
    assert_eq!(number(0.5), Number::half());
    assert_eq!(number(0.0), Number::zero());
    assert_eq!(number(1.0), Number::one());
    assert_eq!(number(f64::NAN).text(), "NaN");
    assert!(number(f64::NAN).is_one());
}

#[test]
fn usual_settings_are_read_without_readings() {
    let mut ids = IdGenerator::new(8, 8);
    let mut book = EditableBook::blank(&mut ids);
    book.add_quest(0, (number(0.0), number(1.0)), &mut ids);
    let settings = &mut book.chapters[0].quests[0].settings;
    settings.icon_scale = number(0.5);
    settings.min_width = 120;
    settings.progression_mode = "linear".to_owned();
    let mut disk = Disk::new();
    save(&book, "p", &mut disk);
    let parts = open_parts(files_of(&disk, None, &path("p/quests"))).unwrap();
    let (again, _) = EditableBook::load(parts, &TextMap::new()).unwrap();
    assert_eq!(again.grid_scale, Number::half());
    let quest = &again.chapters[0].quests[0];
    assert_eq!(quest.x, Number::zero());
    assert_eq!(quest.y, Number::one());
    assert_eq!(quest.settings.icon_scale, Number::half());
    assert_eq!(quest.settings.min_width, 120);
    assert_eq!(quest.settings.progression_mode, "linear");
}

#[test]
fn whole_numbers_need_no_readings() {
    let mut disk = Disk::new();
    disk.insert("p/data.snbt".to_owned(), b"{ title: \"T\" }".to_vec());
    disk.insert(
        "p/chapters/a.snbt".to_owned(),
        b"{ id: \"C\", order_index: -3, quests: [{ id: \"Q\", min_width: 40, repeat_cooldown: 7,
            tasks: [{ type: \"kill\", value: 12L }], rewards: [{ type: \"xp\", xp: 99999999999 }] }] }"
            .to_vec(),
    );
    let parts = open_parts(files_of(&disk, None, &path("p"))).unwrap();
    let (book, _) = EditableBook::load(parts, &TextMap::new()).unwrap();
    assert_eq!(book.chapters[0].order_index, -3);
    let quest = &book.chapters[0].quests[0];
    assert_eq!(quest.settings.min_width, 40);
    assert_eq!(quest.settings.repeat_cooldown, 7);
    assert!(matches!(quest.tasks[0], Task::Kill { count: 12, .. }));
    assert!(matches!(quest.rewards[0], Reward::Xp { amount: u32::MAX, .. }));
}

#[test]
fn nothing_is_dropped_from_a_book_with_equal_indexes_and_rounded_places() {
    let mut ids = IdGenerator::new(77, 7);
    let mut book = EditableBook::blank(&mut ids);
    book.add_chapter("Second".to_owned(), None, &mut ids);
    book.add_chapter("Third".to_owned(), None, &mut ids);
    for chapter in &mut book.chapters {
        chapter.order_index = 4;
    }
    book.add_quest(1, (number(0.123_456_789), number(-2.000_01)), &mut ids);
    book.add_quest(2, (number(1.0 / 3.0), number(0.0)), &mut ids);
    let quest = &mut book.chapters[1].quests[0];
    quest.size = number(1.234_56);
    quest.settings = QuestSettings { min_width: -1, icon_scale: number(0.333_33), ..quest.settings.clone() };
    quest.settings.progression_mode.clear();
    quest.tasks.push(Task::Checkmark { id: "T".to_owned(), title: "t".to_owned(), raw: None });
    quest.tasks.push(Task::Unsupported {
        kind: "custom".to_owned(),
        raw: snbt::parse("{ type: \"custom\", a: [1, 2] }").unwrap(),
    });
    quest.rewards.push(Reward::Unsupported {
        kind: "loot".to_owned(),
        raw: snbt::parse("{ type: \"loot\", table: 5L }").unwrap(),
    });
    book.preserved_files.push(PreservedFile {
        relative_path: path("reward_tables/deep/a.bin"),
        contents: vec![0, 159, 146, 150],
    });
    let mut disk = Disk::new();
    save(&book, "p", &mut disk);
    let (again, report) = load(&disk, "p").unwrap();
    assert_eq!(report.preserved_tasks, 1);
    assert_eq!(report.preserved_rewards, 1);
    assert_eq!(again.preserved_files.len(), 1);
    assert_eq!(again.preserved_files[0].relative_path, path("reward_tables/deep/a.bin"));
    assert_eq!(again.preserved_files[0].contents, [0, 159, 146, 150]);
    assert_eq!(again.chapters.len(), 3);
    for chapter in &book.chapters {
        let same = again.chapters.iter().find(|other| other.id == chapter.id).unwrap();
        assert_eq!(same.order_index, 4);
        assert_eq!(same.quests.len(), chapter.quests.len());
        for (quest, other) in chapter.quests.iter().zip(&same.quests) {
            assert_eq!(other.id, quest.id);
            assert_eq!(other.tasks.len(), quest.tasks.len());
            assert_eq!(other.rewards.len(), quest.rewards.len());
        }
    }
    let quest = &again.chapters.iter().find(|c| c.title == "Second").unwrap().quests[0];
    assert_eq!(value_of(&quest.x), 0.1235);
    assert_eq!(value_of(&quest.y), -2.0);
    assert_eq!(value_of(&quest.size), 1.2346);
    assert_eq!(value_of(&quest.settings.icon_scale), 0.3333);
    assert_eq!(quest.settings.min_width, 0);
    assert_eq!(quest.settings.progression_mode, "default");
}
