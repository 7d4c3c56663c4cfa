use ftbgui::book::{
    byte_unit, find_quests_root, format_bytes, format_duration, time_unit, BookSources, ByteUnit,
    FolderFault, LoadError, QuestBook, SourceFile, TechnicalFigures, TimeUnit,
};
use ftbgui::path::{PathPart, ProjectPath};

fn file(path: &str, contents: &str) -> SourceFile {
    let name = path.rsplit('/').next().unwrap();
    SourceFile {
        path: path.to_owned(),
        stem: Some(name.split('.').next().unwrap().to_owned()),
        contents: Ok(contents.to_owned()),
    }
}

fn figures() -> TechnicalFigures {
    TechnicalFigures {
        input: "1.50".to_owned(),
        load_time: "500.000".to_owned(),
        total_time: "2.000".to_owned(),
        throughput: "0.50".to_owned(),
        version: "0.1.0".to_owned(),
        build_profile: "debug".to_owned(),
        system: "linux".to_owned(),
        architecture: "x86_64".to_owned(),
    }
}

fn sources() -> BookSources {
    BookSources {
        root: "root".to_owned(),
        data: file("root/data.snbt", r#"{ title: "Test", version: 13 }"#),
        groups: Some(file("root/chapter_groups.snbt", r#"{ chapter_groups: [{ id: "G" }] }"#)),
        chapters: Ok(vec![file(
            "root/chapters/one.snbt",
            r#"{
                filename: "one"
                group: "G"
                quests: [
                    { id: "A", tasks: [{ type: "item" }], rewards: [{ type: "xp" }] }
                    { id: "B", dependencies: ["A" "MISSING"] }
                ]
            }"#,
        )]),
        reward_tables: Ok(vec![file(
            "root/reward_tables/loot.snbt",
            r#"{ rewards: [{ item: "minecraft:stone" }] }"#,
        )]),
    }
}

#[test]
fn loads_book_and_counts_dependencies() {
    let book = QuestBook::load(&sources()).unwrap();
    assert_eq!(book.groups, 1);
    assert_eq!(book.chapters, 1);
    assert_eq!(book.quests, 2);
    assert_eq!(book.dependencies, 2);
    assert_eq!(book.broken_dependencies, 1);
    assert_eq!(book.broken_dependency_details.len(), 1);
    assert_eq!(book.broken_dependency_details[0].chapter, "one");
    assert_eq!(book.broken_dependency_details[0].quest_id, "B");
    assert_eq!(book.broken_dependency_details[0].missing_quest_id, "MISSING");
    assert!(book.report().contains("[one] B -> MISSING (квест не найден)"));
    assert_eq!(book.tasks, 1);
    assert_eq!(book.rewards, 1);
    assert_eq!(book.reward_table_entries, 1);
    assert_eq!(book.processing.snbt_files, 4);
    assert!(book.processing.input_bytes > 0);
    assert!(book.technical_report(0, &figures()).contains("SNBT-файлов обработано: 4"));
}

#[test]
fn the_report_is_complete() {
    let book = QuestBook::load(&sources()).unwrap();
    assert_eq!(
        book.report(),
        "FTB Quests: Test\nПуть: root\nВерсия формата: 13\n\nГрупп глав: 1\n\
         Глав: 1 (в группах: 1, без группы: 0, пустых: 0)\nКвестов: 2\n\
         Связей-зависимостей: 2 (уникальных: 2, между главами: 0, битых: 1)\n\
         Визуальных ссылок на квесты: 0\nЗадач: 1\nНаград: 1\n\
         Таблиц наград: 1 (вариантов наград: 1)\nПовторяющихся ID квестов: 0\n\n\
         Битые зависимости:\n  [one] B -> MISSING (квест не найден)\n\n\
         Типы задач:\n  item: 1\n\nТипы наград:\n  xp: 1\n\n\
         Крупнейшие главы:\n     2  one [one]\n"
    );
    let mut book = book;
    book.processing.input_bytes = 1536;
    book.processing.load_time = 500_000_000;
    assert_eq!(
        book.technical_report(2_000_000_000, &figures()),
        "\nТехническая статистика:\n  SNBT-файлов обработано: 4\n  Объём входных данных: 1.50 KiB\n  \
         Загрузка и анализ: 500.000 ms\n  Полное время выполнения: 2.000 s\n  \
         Скорость обработки: 0.50 MiB/s\n  Программа: ftbgui v0.1.0 (debug)\n  \
         Платформа: linux-x86_64\n"
    );
}

#[test]
fn bytes_are_counted_as_they_are_stored() {
    let mut sources = sources();
    sources.groups = None;
    sources.chapters = Ok(Vec::new());
    sources.reward_tables = Ok(Vec::new());
    sources.data = file("root/data.snbt", "{ title: \"Ёж€🦔\" }");
    let book = QuestBook::load(&sources).unwrap();
    assert_eq!(book.processing.input_bytes, "{ title: \"Ёж€🦔\" }".len() as u64);
    assert_eq!(book.title, "Ёж€🦔");
    assert_eq!(book.format_version, None);
    assert_eq!(book.groups, 0);
}

#[test]
fn repeated_ids_types_and_crossings_are_counted() {
    let mut sources = sources();
    sources.chapters = Ok(vec![
        file(
            "root/chapters/a.snbt",
            r#"{ quests: [
                { id: "A", tasks: [{ type: "item" } {} { type: "item" }] }
                { id: "A" }
                { title: "no id" tasks: [{ type: "kill" }] }
            ] quest_links: [1 2] }"#,
        ),
        file(
            "root/chapters/b.snbt",
            r#"{ group: "" title: "Second" quests: [
                { id: "B" dependencies: ["A" "A" "Z"] rewards: [{ type: "xp" }] }
            ] }"#,
        ),
        file("root/chapters/c.snbt", "{ }"),
    ]);
    let book = QuestBook::load(&sources).unwrap();
    assert_eq!(book.chapters, 3);
    assert_eq!(book.grouped_chapters, 0);
    assert_eq!(book.empty_chapters, 1);
    assert_eq!(book.quests, 4);
    assert_eq!(book.quest_links, 2);
    assert_eq!(book.duplicate_quest_ids, 1);
    assert_eq!(book.tasks, 3);
    assert_eq!(book.task_types.get("item"), Some(&2));
    assert_eq!(book.task_types.get("(не указан)"), Some(&1));
    assert_eq!(book.task_types.get("kill"), None);
    assert_eq!(book.dependencies, 3);
    assert_eq!(book.unique_dependencies, 2);
    assert_eq!(book.cross_chapter_dependencies, 2);
    assert_eq!(book.broken_dependencies, 1);
    let sizes: Vec<(String, usize)> =
        book.largest_chapters.iter().map(|c| (c.title.clone(), c.quests)).collect();
    assert_eq!(sizes, [("a".to_owned(), 3), ("Second".to_owned(), 1), ("c".to_owned(), 0)]);
    assert!(book.report().contains("Типы задач:\n  item: 2\n  (не указан): 1\n"));
}

#[test]
fn only_the_five_largest_chapters_are_named() {
    let mut sources = sources();
    let chapter = |n: usize| {
        let quests = (0..n).map(|i| format!("{{ id: \"{n}_{i}\" }}")).collect::<Vec<_>>().join(" ");
        file(&format!("root/chapters/c{n}.snbt"), &format!("{{ quests: [{quests}] }}"))
    };
    sources.chapters = Ok((1..=7).map(chapter).collect());
    let book = QuestBook::load(&sources).unwrap();
    let sizes: Vec<usize> = book.largest_chapters.iter().map(|c| c.quests).collect();
    assert_eq!(sizes, [7, 6, 5, 4, 3]);
    assert_eq!(book.chapters, 7);
}

#[test]
fn the_first_flaw_is_the_error() {
    let mut broken = sources();
    broken.data = file("root/data.snbt", "[]");
    broken.chapters = Err(FolderFault { path: "x".to_owned(), message: "y".to_owned() });
    let error = QuestBook::load(&broken).unwrap_err();
    assert_eq!(error.message(), "корень root/data.snbt не является SNBT-объектом");

    let mut unread = sources();
    unread.groups = Some(SourceFile {
        path: "root/chapter_groups.snbt".to_owned(),
        stem: None,
        contents: Err("denied".to_owned()),
    });
    let error = QuestBook::load(&unread).unwrap_err();
    assert_eq!(error.message(), "не удалось прочитать root/chapter_groups.snbt: denied");

    let mut faulty = sources();
    faulty.chapters = Ok(vec![file("root/chapters/a.snbt", "{ a }")]);
    let error = QuestBook::load(&faulty).unwrap_err();
    assert!(matches!(error, LoadError::Parse { .. }));
    assert!(error.message().starts_with("ошибка SNBT в root/chapters/a.snbt: "));

    let mut unlisted = sources();
    unlisted.reward_tables =
        Err(FolderFault { path: "root/reward_tables".to_owned(), message: "gone".to_owned() });
    let error = QuestBook::load(&unlisted).unwrap_err();
    assert_eq!(error.message(), "не удалось прочитать root/reward_tables: gone");
}

#[test]
fn a_book_stands_in_the_folder_or_in_its_quests() {
    let source = ProjectPath { parts: vec![PathPart::Name("p".to_owned())] };
    assert_eq!(find_quests_root(&source, "p", true, true).unwrap(), source);
    assert_eq!(find_quests_root(&source, "p", false, true).unwrap(), source.join("quests"));
    let error = find_quests_root(&source, "p", false, false).unwrap_err();
    assert_eq!(error.message(), "в p не найден data.snbt или quests/data.snbt");
}

#[test]
fn units_follow_the_size() {
    assert_eq!(byte_unit(1023), ByteUnit::Bytes);
    assert_eq!(byte_unit(1024), ByteUnit::Kibibytes);
    assert_eq!(byte_unit(1_048_576), ByteUnit::Mebibytes);
    assert_eq!(format_bytes(512, "ignored"), "512 B");
    assert_eq!(format_bytes(2048, "2.00"), "2.00 KiB");
    assert_eq!(format_bytes(3_145_728, "3.00"), "3.00 MiB");
    assert_eq!(time_unit(999_999), TimeUnit::Microseconds);
    assert_eq!(time_unit(1_000_000), TimeUnit::Milliseconds);
    assert_eq!(format_duration(1_000_000_000, "1.000"), "1.000 s");
    assert_eq!(format_duration(5, "0.005"), "0.005 us");
}
