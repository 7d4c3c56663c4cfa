use ftbgui::captions::{describe_hits, describe_next_snapshot, node_label};
use ftbgui::diagnostics::find_dependency_cycles;
use ftbgui::editor::{EditableBook, EditorError, IdGenerator, ImportReport, Number, Reward, Task};
use ftbgui::labels::find_quest;
use ftbgui::resources::ResourceKind;
use ftbgui::search::{lowercase_score, search_book, search_score, SearchTarget};
use ftbgui::session::{
    decide_save, make_reward, make_task, split_tags, CanvasTool, LogLevel, NewReward, NewTask,
    ResourcePickerTarget, RightTab, SaveDecision, Session, MAX_LOG_ENTRIES,
};

fn place() -> (Number, Number) {
    (Number::zero(), Number::zero())
}

fn session() -> Session {
    let mut ids = IdGenerator::new(11, 22);
    let book = EditableBook::blank(&mut ids);
    Session::new(book, ids)
}

fn add(session: &mut Session, id: &str) {
    session.add_quest(place());
    let quest = session.book.chapters[0].quests.last_mut().unwrap();
    quest.id = id.to_owned();
    quest.title = format!("Quest {id}");
}

fn with_quests(ids: &[&str]) -> Session {
    let mut session = session();
    for id in ids {
        add(&mut session, id);
    }
    session.clear_quest_selection();
    session
}

fn selected(session: &Session) -> Vec<String> {
    (0..session.selected_quests.len())
        .map(|i| session.selected_quests.key_at(i).to_owned())
        .collect()
}

#[test]
fn search_finds_quest_by_task_item() {
    let mut ids = IdGenerator::new(1, 1);
    let mut book = EditableBook::blank(&mut ids);
    book.add_quest(0, place(), &mut ids);
    book.chapters[0].quests[0].tasks.push(Task::Item {
        id: ids.next_id(),
        title: "Collect".to_owned(),
        item: "minecraft:diamond".to_owned(),
        count: 1,
        raw: None,
    });

    let (hits, total) = search_book(&book, "diamond", &Vec::new());
    assert_eq!(total, 1);
    assert!(matches!(hits[0].target, SearchTarget::Quest { .. }));
    let (loud, all) = search_book(&book, "  DIAMOND", &Vec::new());
    assert_eq!(all, 1);
    assert_eq!(loud[0].title, hits[0].title);
}

#[test]
fn hits_are_named_and_sorted() {
    let mut ids = IdGenerator::new(1, 1);
    let mut book = EditableBook::blank(&mut ids);
    book.add_group("Steam".to_owned(), &mut ids);
    book.groups[0].id = "G".to_owned();
    book.chapters[0].group = Some("G".to_owned());
    book.chapters[0].id = "C".to_owned();
    book.chapters[0].title = "steam age".to_owned();
    book.add_quest(0, place(), &mut ids);
    book.chapters[0].quests[0].id = "Q".to_owned();
    let places = vec![vec!["0.00, 0.00".to_owned()]];
    let (hits, total) = search_book(&book, " STEAM ", &places);
    let found: Vec<(u8, &str, &str)> =
        hits.iter().map(|h| (h.score, h.title.as_str(), h.subtitle.as_str())).collect();
    assert_eq!(total, 3);
    assert_eq!(
        found,
        [
            (1, "Группа: Steam", "ID: G"),
            (3, "Глава: steam age", "Steam · файл first_chapter · ID C"),
            (6, "Квест: Новый квест", "Steam / steam age · ID Q · [0.00, 0.00]"),
        ]
    );
}

#[test]
fn a_fit_is_scored() {
    assert_eq!(search_score("ab", "AB", "x", "x"), Some(0));
    assert_eq!(search_score("ab", "x", "aB", "x"), Some(1));
    assert_eq!(lowercase_score("ab", "abc", "x", "x"), Some(2));
    assert_eq!(lowercase_score("ab", "x", "abc", "x"), Some(3));
    assert_eq!(lowercase_score("ab", "xab", "x", "x"), Some(4));
    assert_eq!(lowercase_score("ab", "x", "xab", "x"), Some(5));
    assert_eq!(lowercase_score("ab", "x", "x", "xab"), Some(6));
    assert_eq!(lowercase_score("ab", "x", "x", "x"), None);
    assert_eq!(search_score("ёж", "x", "ЁЖ", "x"), Some(1));
}

#[test]
fn at_most_so_many_hits_are_shown() {
    let names: Vec<String> = (0..300).map(|i| format!("Q{i}")).collect();
    let session = with_quests(&names.iter().map(String::as_str).collect::<Vec<_>>());
    let (hits, total) = search_book(&session.book, "quest q", &Vec::new());
    assert_eq!(total, 300);
    assert_eq!(hits.len(), 250);
    assert_eq!(hits[0].title, "Квест: Quest Q0");
}

#[test]
fn quests_are_selected_and_unselected() {
    let mut session = with_quests(&["A", "B"]);
    session.click_quest("A".to_owned(), false, 0);
    assert_eq!(selected(&session), ["A"]);
    assert_eq!(session.selected_quest_index(), Some(0));
    session.click_quest("B".to_owned(), true, 0);
    assert_eq!(selected(&session), ["A", "B"]);
    assert_eq!(session.selected_quest.as_deref(), Some("B"));
    session.toggle_selection("B".to_owned());
    assert_eq!(selected(&session), ["A"]);
    assert_eq!(session.selected_quest.as_deref(), Some("A"));
    session.toggle_selection("A".to_owned());
    assert_eq!(session.selected_quest, None);
    session.select_area(&vec!["B".to_owned(), "A".to_owned()], true);
    assert_eq!(selected(&session), ["A", "B"]);
    assert_eq!(session.selected_quest.as_deref(), Some("A"));
    session.click_canvas();
    assert!(selected(&session).is_empty());
}

#[test]
fn selected_quests_are_copied_and_pasted() {
    let mut session = with_quests(&["A", "B", "C"]);
    session.paste_quests(&Vec::new());
    assert_eq!(session.status, "Буфер квестов пуст.");
    session.book.chapters[0].quests[1].dependencies = vec!["A".to_owned(), "C".to_owned()];
    session.select_area(&vec!["A".to_owned(), "B".to_owned()], false);
    session.copy_selected_quests();
    assert_eq!(session.status, "Скопировано квестов: 2.");
    session.paste_quests(&vec![(Number::half(), Number::one())]);
    assert_eq!(session.status, "Вставлено квестов: 2.");
    let quests = &session.book.chapters[0].quests;
    assert_eq!(quests.len(), 5);
    assert_eq!(quests[3].x, Number::half());
    assert_eq!(quests[4].x, Number::zero());
    assert_eq!(quests[4].dependencies, [quests[3].id.clone(), "C".to_owned()]);
    assert_eq!(selected(&session).len(), 2);
    assert_eq!(session.selected_quest, Some(quests[4].id.clone()));
}

#[test]
fn deleted_quests_are_forgotten_everywhere() {
    let mut session = with_quests(&["A", "B", "C"]);
    session.book.chapters[0].quests[2].dependencies = vec!["A".to_owned(), "B".to_owned()];
    session.request_delete_selected();
    assert!(session.delete_confirmation.is_none());
    session.select_only("A".to_owned());
    session.request_delete_selected();
    assert_eq!(session.delete_confirmation, Some(vec!["A".to_owned()]));
    session.confirm_delete();
    assert!(session.delete_confirmation.is_none());
    assert_eq!(session.status, "Удалено квестов: 1.");
    assert!(find_quest(&session.book.chapters[0].quests, "A").is_none());
    assert_eq!(session.book.chapters[0].quests[1].dependencies, ["B"]);
    session.delete_quests(&vec!["B".to_owned(), "B".to_owned(), "X".to_owned()]);
    assert_eq!(session.status, "Удалено квестов: 2.");
}

#[test]
fn connecting_takes_two_clicks_and_refuses_cycles() {
    let mut session = with_quests(&["A", "B"]);
    session.choose_tool(CanvasTool::Connect);
    session.click_quest("A".to_owned(), false, 1);
    assert_eq!(session.connection_start.as_deref(), Some("A"));
    session.click_quest("A".to_owned(), false, 1);
    assert_eq!(session.status, "Квест не может зависеть от самого себя.");
    session.click_quest("A".to_owned(), false, 1);
    session.click_quest("B".to_owned(), false, 1);
    assert_eq!(session.status, "Зависимость создана.");
    assert_eq!(session.book.chapters[0].quests[1].dependencies, ["A"]);
    session.click_quest("B".to_owned(), false, 2);
    session.click_quest("A".to_owned(), false, 2);
    assert_eq!(session.status, "Связь отклонена: она создаёт цикл.");
    assert_eq!(session.right_tab, RightTab::Logs);
    assert_eq!(
        session.logs.last().unwrap().message,
        "Отклонена новая зависимость, длина пути: 2. Маршрут: Quest A [A] → Quest B [B] → \
         Quest A [A]. Исправление: удалите одну зависимость в цикле, например Quest B [B] → \
         Quest A [A]."
    );
    assert!(session.book.chapters[0].quests[0].dependencies.is_empty());
}

#[test]
fn dependencies_are_switched() {
    let mut session = with_quests(&["A", "B"]);
    session.set_dependency(0, 0, "B", true, 0);
    session.set_dependency(0, 0, "B", true, 0);
    assert_eq!(session.book.chapters[0].quests[0].dependencies, ["B"]);
    session.set_dependency(0, 1, "A", true, 0);
    assert_eq!(
        session.status,
        "Зависимость не добавлена: получился бы циклический маршрут."
    );
    assert!(find_dependency_cycles(&session.book).is_empty());
    session.set_dependency(0, 0, "B", false, 0);
    assert!(session.book.chapters[0].quests[0].dependencies.is_empty());
    assert!(find_dependency_cycles(&session.book).is_empty());
}

#[test]
fn chapters_move_between_groups() {
    let mut session = session();
    session.book.add_group("Machines".to_owned(), &mut session.ids);
    let group = session.book.groups[0].id.clone();
    let chapter = session.book.chapters[0].id.clone();
    session.move_chapter_to_group(&chapter, Some(&group));
    assert_eq!(session.status, "Глава «Первая глава» перенесена в «Machines».");
    assert_eq!(session.book.chapters[0].group, Some(group.clone()));
    session.move_chapter_to_group(&chapter, Some("X"));
    assert_eq!(session.status, "Глава «Первая глава» перенесена в «неизвестную группу».");
    session.move_chapter_to_group(&chapter, None);
    assert_eq!(session.status, "Глава «Первая глава» перенесена в раздел без группы.");
    session.move_chapter_to_group(&chapter, Some(&group));
    session.book.remove_group(&group);
    assert!(session.book.groups.is_empty());
    assert_eq!(session.book.chapters[0].group, None);
    session.add_chapter("Новая глава".to_owned(), None);
    assert_eq!(session.selected_chapter, 1);
    session.remove_selected_chapter();
    assert_eq!(session.selected_chapter, 0);
    session.remove_selected_chapter();
    assert_eq!(session.book.chapters.len(), 1);
}

#[test]
fn what_was_found_is_opened() {
    let mut session = with_quests(&["A", "B"]);
    session.book.chapters[0].group = Some("G".to_owned());
    session.right_tab = RightTab::Search;
    let quest = SearchTarget::Quest { chapter_index: 0, quest_id: "B".to_owned() };
    assert!(!session.is_shown(&quest));
    assert!(!session.clears_selection(&quest));
    assert!(session.clears_selection(&SearchTarget::Chapter { chapter_index: 0 }));
    assert!(session.clears_selection(&SearchTarget::Group { group_id: "G".to_owned() }));
    assert!(!session.clears_selection(&SearchTarget::Group { group_id: "none".to_owned() }));
    assert_eq!(session.open_search_target(quest.clone()), Some((0, 1)));
    assert!(session.is_shown(&quest));
    assert_eq!(session.right_tab, RightTab::Inspector);
    assert_eq!(session.open_search_target(SearchTarget::Chapter { chapter_index: 0 }), None);
    assert!(session.is_shown(&SearchTarget::Chapter { chapter_index: 0 }));
    session.select_only("A".to_owned());
    session.open_search_target(SearchTarget::Group { group_id: "G".to_owned() });
    assert_eq!(session.selected_quest, None);
    session.select_only("A".to_owned());
    session.open_search_target(SearchTarget::Group { group_id: "none".to_owned() });
    assert_eq!(session.selected_quest.as_deref(), Some("A"));
}

#[test]
fn resources_go_where_they_were_chosen_for() {
    let mut session = with_quests(&["A"]);
    let item = make_task(NewTask::Item, &mut session.ids);
    let kill = make_task(NewTask::Kill, &mut session.ids);
    let reward = make_reward(NewReward::Item, &mut session.ids);
    session.book.chapters[0].quests[0].tasks = vec![item, kill];
    session.book.chapters[0].quests[0].rewards = vec![reward];
    let id = || "A".to_owned();
    let targets = [
        ResourcePickerTarget::QuestIcon { quest_id: id() },
        ResourcePickerTarget::TaskItem { quest_id: id(), index: 0 },
        ResourcePickerTarget::TaskEntity { quest_id: id(), index: 1 },
        ResourcePickerTarget::RewardItem { quest_id: id(), index: 0 },
        ResourcePickerTarget::TaskItem { quest_id: id(), index: 1 },
        ResourcePickerTarget::TaskItem { quest_id: id(), index: 9 },
    ];
    assert_eq!(targets[2].kind(), ResourceKind::Entity);
    assert_eq!(targets[0].kind(), ResourceKind::Item);
    for (n, target) in targets.iter().enumerate() {
        session.apply_resource_choice(target, format!("r{n}"));
    }
    let quest = &session.book.chapters[0].quests[0];
    assert_eq!(quest.icon, "r0");
    assert!(matches!(&quest.tasks[0], Task::Item { item, .. } if item == "r1"));
    assert!(matches!(&quest.tasks[1], Task::Kill { entity, .. } if entity == "r2"));
    assert!(matches!(&quest.rewards[0], Reward::Item { item, .. } if item == "r3"));
}

#[test]
fn new_tasks_and_rewards_have_defaults() {
    let mut ids = IdGenerator::new(4, 4);
    assert!(matches!(
        make_task(NewTask::Checkmark, &mut ids),
        Task::Checkmark { title, raw: None, .. } if title == "Выполнить"
    ));
    assert!(matches!(
        make_reward(NewReward::Xp, &mut ids),
        Reward::Xp { amount: 10, raw: None, .. }
    ));
}

#[test]
fn tags_are_split_at_commas() {
    assert_eq!(split_tags(" a, b ,,c "), ["a", "b", "c"]);
    assert!(split_tags(" , ").is_empty());
}

#[test]
fn the_log_keeps_the_newest_entries() {
    let mut session = session();
    for i in 0..(MAX_LOG_ENTRIES + 3) {
        session.push_log(LogLevel::Info, i.to_string(), i as u64);
    }
    assert_eq!(session.logs.len(), MAX_LOG_ENTRIES);
    assert_eq!(session.logs[0].message, "3");
    assert_eq!(session.logs.last().unwrap().message, (MAX_LOG_ENTRIES + 2).to_string());
}

#[test]
fn diagnostics_are_logged() {
    let mut session = with_quests(&["A", "B"]);
    session.run_diagnostics("Проверка", 5);
    assert_eq!(session.logs[0].message, "Проверка: циклов — 0, битых зависимостей — 0.");
    assert_eq!(session.logs[0].level, LogLevel::Info);
    session.book.chapters[0].quests[0].dependencies = vec!["B".to_owned(), "X".to_owned()];
    session.book.chapters[0].quests[1].dependencies = vec!["A".to_owned()];
    session.run_diagnostics("Проверка", 6);
    let messages: Vec<&str> = session.logs[1..].iter().map(|e| e.message.as_str()).collect();
    assert_eq!(
        messages,
        [
            "Проверка: циклов — 1, битых зависимостей — 1.",
            "Обнаружен цикл, длина пути: 2. Маршрут: Quest A [A] → Quest B [B] → Quest A [A]. \
             Исправление: удалите одну зависимость в цикле, например Quest B [B] → Quest A [A].",
            "Битая зависимость: Quest A [A] ссылается на отсутствующий квест X. Исправление: \
             удалите эту зависимость или восстановите квест с данным ID.",
        ]
    );
    assert!(session.logs[1..].iter().all(|e| e.level == LogLevel::Warning && e.elapsed == 6));
}

#[test]
fn projects_are_reset_imported_and_saved() {
    let mut session = with_quests(&["A"]);
    session.reset_project(1);
    assert_eq!(session.status, "Создан новый проект.");
    assert!(session.book.chapters[0].quests.is_empty());
    let loaded = with_quests(&["A", "B"]).book;
    let report = ImportReport { preserved_tasks: 1, preserved_rewards: 2, imported_languages: 3 };
    session.import_project(Ok((loaded, report)), "out", 2);
    assert_eq!(
        session.status,
        "Импортировано: 0 групп, 1 глав, 2 квестов, 3 языков. Экспорт: out Сохранено без потерь \
         в режиме только чтения: 1 задач, 2 наград."
    );
    assert_eq!(session.logs.len(), 3);
    session.import_project(Err(EditorError::InvalidBook("p".to_owned())), "out", 2);
    assert_eq!(
        session.status,
        "Ошибка импорта: в p не найден data.snbt или quests/data.snbt"
    );
    assert_eq!(decide_save("  ", false, false), SaveDecision::NoFolder);
    assert_eq!(decide_save("p", true, false), SaveDecision::Occupied);
    assert_eq!(decide_save("p", true, true), SaveDecision::Save);
    session.note_save(SaveDecision::Occupied, "p/quests", None, 3);
    assert_eq!(
        session.status,
        "Сохранение отменено: p/quests уже содержит книгу. Выберите пустую папку."
    );
    session.note_save(SaveDecision::Save, "p/quests", None, 3);
    assert_eq!(session.status, "Сохранено: 0 групп, 1 глав, 2 квестов.");
    session.note_save(SaveDecision::Save, "p/quests", Some("disk full"), 3);
    assert_eq!(session.status, "Ошибка сохранения: disk full");
    session.note_save(SaveDecision::NoFolder, "", None, 3);
    assert_eq!(session.status, "Укажите папку для сохранения.");
    session.note_autosave("p_autosave", None, 4);
    assert_eq!(session.status, "Автосохранение: p_autosave");
    session.note_autosave("p_autosave", Some("x"), 4);
    assert_eq!(session.status, "Ошибка автосохранения: x");
}

#[test]
fn a_whole_book_is_localized() {
    let mut session = with_quests(&["A"]);
    session.book.chapters[0].quests[0].description = "  ".to_owned();
    let task = make_task(NewTask::Kill, &mut session.ids);
    session.book.chapters[0].quests[0].tasks.push(task);
    let title = session.book.title.clone();
    let count = session.localize_entire_book(0);
    assert_eq!(count, 4);
    assert_eq!(session.status, "Создано 4 ключей для языка en_us.");
    assert!(session.book.title.starts_with("{ftbgui."));
    assert_eq!(session.book.translations.resolve(&session.book.title), title);
    assert_eq!(session.book.chapters[0].quests[0].description, "  ");
    assert_eq!(session.localize_entire_book(0), 0);
}

#[test]
fn a_session_is_restored() {
    let mut session = with_quests(&["A", "B"]);
    session.book.translations.add_locale("ru_ru");
    session.book.translations.active_locale = "en_us".to_owned();
    let chapter = session.book.chapters[0].id.clone();
    session.restore("ru_ru", Some(&chapter), Some("B"));
    assert_eq!(session.book.translations.active_locale, "ru_ru");
    assert_eq!(session.selected_quest.as_deref(), Some("B"));
    session.restore("xx_xx", Some("missing"), Some("missing"));
    assert_eq!(session.book.translations.active_locale, "ru_ru");
    assert_eq!(session.selected_quest, None);
    assert_eq!(session.selected_chapter, 0);
    assert_eq!(CanvasTool::Delete.title(), "Удаление");
}

#[test]
fn captions_are_short() {
    assert_eq!(node_label("  Железо и медь "), "Жел");
    assert_eq!(node_label(" ab "), "ab");
    assert_eq!(node_label("  "), "?");
    assert_eq!(describe_hits(7, 7), "Найдено: 7");
    assert_eq!(describe_hits(300, 250), "Найдено: 300, показаны первые 250");
    assert_eq!(
        describe_next_snapshot(true, 1_000_000_000, "/p/book_autosave"),
        "Следующее автосохранение через 4:59. Текущий снимок: /p/book_autosave"
    );
    assert_eq!(
        describe_next_snapshot(true, u64::MAX, "x"),
        "Следующее автосохранение через 0:00. Текущий снимок: x"
    );
    assert_eq!(describe_next_snapshot(false, 0, "x"), "Автосохранение выключено.");
}

#[test]
fn log_lines_show_the_time() {
    let mut session = session();
    session.note_autosave_switch(true, 65);
    assert_eq!(session.logs.last().unwrap().line(), "[01:05] Автосохранение включено.");
    session.note_autosave_switch(false, 6000);
    assert_eq!(session.logs.last().unwrap().line(), "[100:00] Автосохранение выключено.");
    assert!(session.begin_autosave("book", 6000));
    assert!(!session.begin_autosave("  ", 6001));
    assert_eq!(
        session.logs.last().unwrap().line(),
        "[100:01] Автосохранение пропущено: не указана папка проекта."
    );
}

#[test]
fn languages_are_added_once() {
    let mut session = session();
    assert!(session.add_language(" RU-ru "));
    let locale = session.book.translations.active_locale.clone();
    assert_eq!(session.status, format!("Добавлен язык {locale}."));
    assert!(!session.add_language("RU-ru"));
    assert_eq!(session.status, "Язык уже существует или код локали некорректен.");
    assert_eq!(session.book.translations.active_locale, locale);
    assert!(!session.add_language("   "));
}
