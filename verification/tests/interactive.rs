use ftbgui::digits::{parse_number, parse_whole};
use ftbgui::editor::{EditorError, IdGenerator, Number, Reward, Task};
use ftbgui::interactive::{
    grid_place, run_editor, trim_line_end, Dialog, DialogAction, Stage, Turn,
};

fn begin() -> (Dialog, Turn) {
    run_editor("out/quests", false, IdGenerator::new(1, 1)).unwrap()
}

fn play(dialog: &mut Dialog, lines: &[&str]) -> Turn {
    let mut last = None;
    for line in lines {
        last = Some(dialog.answer(&format!("{line}\n"), Number::zero(), Number::zero()));
    }
    last.unwrap()
}

#[test]
fn an_existing_book_is_not_overwritten() {
    let error = run_editor("out/quests", true, IdGenerator::new(1, 1)).err().unwrap();
    assert!(matches!(error, EditorError::ExistingBook(path) if path == "out/quests"));
}

#[test]
fn a_title_is_needed() {
    let (mut dialog, turn) = begin();
    assert_eq!(turn.output, "Создание новой книги FTB Quests\nНазвание книги: ");
    let turn = play(&mut dialog, &["  "]);
    assert!(matches!(
        turn.action,
        DialogAction::Fail(EditorError::EmptyInput(field)) if field == "Название книги"
    ));
}

#[test]
fn the_menu_answers_every_choice() {
    let (mut dialog, _) = begin();
    let turn = play(&mut dialog, &["Book", "Chapter One", "My File"]);
    assert_eq!(dialog.book.chapters[0].filename, "my_file");
    assert_eq!(
        turn.output,
        "\n1. Добавить квест\n2. Добавить задачу к квесту\n3. Связать квесты зависимостью\n\
         4. Добавить награду\n5. Показать книгу\n6. Сохранить\n0. Сохранить и выйти\nВыбор: "
    );
    assert!(play(&mut dialog, &["9"]).output.starts_with("Неизвестный пункт меню.\n"));
    assert!(play(&mut dialog, &["2"]).output.starts_with("Сначала добавьте хотя бы один квест.\n"));
    assert!(play(&mut dialog, &["3"]).output.starts_with("Для связи нужно хотя бы два квеста.\n"));
    assert!(play(&mut dialog, &["5"])
        .output
        .starts_with("\nКнига: Book\nГлава: Chapter One (my_file)\nКвестов пока нет.\n"));
    let turn = play(&mut dialog, &["1", "First", ""]);
    let id = dialog.book.chapters[0].quests[0].id.clone();
    assert!(turn.output.starts_with(&format!("Добавлен квест #1 с ID {id}.\n\n1. ")));
    assert!(play(&mut dialog, &["5"]).output.contains(&format!(
        "1. First [{id}] — задач: 0, наград: 0, зависимостей: 0\n"
    )));
    let turn = play(&mut dialog, &["6"]);
    assert!(matches!(turn.action, DialogAction::Save));
    let turn = dialog.saved(None);
    assert!(turn.output.starts_with("Сохранено в out/quests\n\n1. "));
    let turn = play(&mut dialog, &["0"]);
    assert!(matches!(turn.action, DialogAction::Save));
    let turn = dialog.saved(Some(EditorError::Io("disk full".to_owned())));
    assert!(matches!(turn.action, DialogAction::Fail(EditorError::Io(_))));
    assert!(matches!(dialog.stage, Stage::Over));
}

#[test]
fn tasks_and_rewards_are_asked_for() {
    let (mut dialog, _) = begin();
    play(&mut dialog, &["Book", "Chapter", "", "1", "First", "", "1", "Second", ""]);
    let turn = play(&mut dialog, &["2", "7"]);
    assert_eq!(turn.output, "Введите номер из списка.\nНомер квеста (0 — отмена): ");
    play(&mut dialog, &["+2", "3", "Fight", "minecraft:zombie"]);
    let turn = play(&mut dialog, &["0"]);
    assert_eq!(turn.output, "Введите положительное целое число.\nКоличество [1]: ");
    let turn = play(&mut dialog, &["12"]);
    assert!(turn.output.starts_with("Задача добавлена.\n"));
    assert!(matches!(
        &dialog.book.chapters[0].quests[1].tasks[0],
        Task::Kill { entity, count: 12, .. } if entity == "minecraft:zombie"
    ));
    assert!(play(&mut dialog, &["2", "1", "x", "Title"]).output.starts_with("Неизвестный тип задачи.\n"));
    assert!(play(&mut dialog, &["2", "0"]).output.starts_with("\n1. "));
    play(&mut dialog, &["4", "1", "1", ""]);
    play(&mut dialog, &["4", "1", "2", "minecraft:stone", "5"]);
    let rewards = &dialog.book.chapters[0].quests[0].rewards;
    assert!(matches!(rewards[0], Reward::Xp { amount: 10, .. }));
    assert!(matches!(&rewards[1], Reward::Item { item, count: 5, .. } if item == "minecraft:stone"));
    assert!(play(&mut dialog, &["4", "1", "9"]).output.starts_with("Неизвестный тип награды.\n"));
    assert!(play(&mut dialog, &["3", "1", "1"])
        .output
        .starts_with("Квест не может зависеть от самого себя.\n"));
    assert!(play(&mut dialog, &["3", "2", "1"]).output.starts_with("Зависимость добавлена.\n"));
    play(&mut dialog, &["3", "2", "1"]);
    let quests = &dialog.book.chapters[0].quests;
    assert_eq!(quests[1].dependencies, [quests[0].id.clone()]);
}

#[test]
fn lines_and_numbers_are_read() {
    assert_eq!(trim_line_end("abc\r\n"), "abc");
    assert_eq!(trim_line_end("a\nb \n\n"), "a\nb ");
    assert_eq!(parse_number("42", 100), Some(42));
    assert_eq!(parse_number("+007", 100), Some(7));
    assert_eq!(parse_number("101", 100), None);
    assert_eq!(parse_number("", 100), None);
    assert_eq!(parse_number("+", 100), None);
    assert_eq!(parse_number("-1", 100), None);
    assert_eq!(parse_number("18446744073709551616", u64::MAX), None);
    assert_eq!(parse_whole("-0012"), Some(-12));
    assert_eq!(parse_whole("+12"), Some(12));
    assert_eq!(parse_whole("-+12"), None);
    assert_eq!(parse_whole("1.5"), None);
    assert_eq!(parse_whole("9007199254740992"), Some(9_007_199_254_740_992));
    assert_eq!(parse_whole("9007199254740993"), None);
    assert_eq!(parse_number("18446744073709551615", u64::MAX), Some(u64::MAX));
    assert_eq!(grid_place(13), (1, 2));
}
