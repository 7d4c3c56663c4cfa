use ftbgui::choices::{label_of_choice, GroupChoice};
use ftbgui::diagnostics::DependencyCycle;
use ftbgui::editor::{EditableBook, IdGenerator, Number, Quest, QuestSettings, TranslationCatalog};
use ftbgui::labels::{dependency_candidate_label, format_cycle_route, group_display_title};
use ftbgui::table::TextMap;

#[test]
fn short_cycle_route_is_complete() {
    let cycle = DependencyCycle {
        quest_ids: ["A", "B", "C", "D", "A"].into_iter().map(str::to_owned).collect(),
    };
    assert_eq!(format_cycle_route(&cycle, &cycle.quest_ids.clone()), "A → B → C → D → A");
}

#[test]
fn long_cycle_route_keeps_first_and_last_five_points() {
    let mut ids = (0..12).map(|id| id.to_string()).collect::<Vec<_>>();
    ids.push("0".to_owned());
    let labels = ids.clone();
    let route = format_cycle_route(&DependencyCycle { quest_ids: ids }, &labels);
    assert_eq!(route, "0 → 1 → 2 → 3 → 4 → … → 8 → 9 → 10 → 11 → 0");
}

#[test]
fn a_route_of_nine_edges_is_complete_and_one_of_ten_is_not() {
    let route = |n: usize| {
        let mut ids = (0..n).map(|id| id.to_string()).collect::<Vec<_>>();
        ids.push("0".to_owned());
        let labels = ids.clone();
        format_cycle_route(&DependencyCycle { quest_ids: ids }, &labels)
    };
    assert_eq!(route(9), "0 → 1 → 2 → 3 → 4 → 5 → 6 → 7 → 8 → 0");
    assert_eq!(route(10), "0 → 1 → 2 → 3 → 4 → … → 6 → 7 → 8 → 9 → 0");
}

fn quest(id: &str, title: &str) -> Quest {
    Quest {
        id: id.to_owned(),
        title: title.to_owned(),
        description: String::new(),
        description_raw: None,
        x: Number::zero(),
        y: Number::zero(),
        size: Number::one(),
        shape: String::new(),
        icon: String::new(),
        icon_raw: None,
        dependencies: Vec::new(),
        tasks: Vec::new(),
        rewards: Vec::new(),
        settings: QuestSettings::default(),
        extra: TextMap::new(),
    }
}

#[test]
fn dependency_label_uses_active_translation() {
    let mut translations = TranslationCatalog::default();
    translations.set_translation("en_us", "quest.power", "Power Generation".to_owned());
    let quest = quest("QUEST_ID", "{quest.power}");
    assert_eq!(dependency_candidate_label(&translations, &quest), "Power Generation");
}

#[test]
fn dependency_label_shows_the_id_of_a_key_without_a_text() {
    let translations = TranslationCatalog::default();
    assert_eq!(
        dependency_candidate_label(&translations, &quest("ID", "{quest.power}")),
        "{quest.power} [ID]"
    );
    assert_eq!(dependency_candidate_label(&translations, &quest("ID", "Plain")), "Plain");
}

#[test]
fn group_label_uses_active_translation() {
    let mut translations = TranslationCatalog::default();
    translations.set_translation("en_us", "chapters.group.1", "Technology".to_owned());
    assert_eq!(group_display_title(&translations, "{chapters.group.1}"), "Technology");
}

#[test]
fn quests_and_cycles_are_described() {
    let mut ids = IdGenerator::new(1, 2);
    let mut book = EditableBook::blank(&mut ids);
    book.push_quest(0, quest("A", "First"));
    book.push_quest(0, quest("B", "Second"));
    assert_eq!(book.quest_label("A"), "First [A]");
    assert_eq!(book.quest_label("Z"), "[Z]");
    let cycle = DependencyCycle {
        quest_ids: vec!["A".to_owned(), "B".to_owned(), "A".to_owned()],
    };
    assert_eq!(
        book.describe_cycle(&cycle, "Обнаружен цикл"),
        "Обнаружен цикл, длина пути: 2. Маршрут: First [A] → Second [B] → First [A]. \
         Исправление: удалите одну зависимость в цикле, например Second [B] → First [A]."
    );
    let empty = DependencyCycle { quest_ids: Vec::new() };
    assert_eq!(
        book.describe_cycle(&empty, "Цикл"),
        "Цикл, длина пути: 0. Маршрут: . Исправление: удалите циклическую зависимость."
    );
}

#[test]
fn choices_are_listed() {
    let mut ids = IdGenerator::new(3, 4);
    let mut book = EditableBook::blank(&mut ids);
    let group = book.add_group("{g}".to_owned(), &mut ids);
    book.translations.set_translation("en_us", "g", "Machines".to_owned());
    book.add_chapter("Magic".to_owned(), Some(group.clone()), &mut ids);
    book.add_chapter("Ores".to_owned(), None, &mut ids);
    assert_eq!(book.chapters_of_group(None), [0, 2]);
    assert_eq!(book.chapters_of_group(Some(&group)), [1]);
    assert!(book.chapters_of_group(Some("x")).is_empty());
    let choices = book.group_choices();
    assert_eq!(
        choices,
        [GroupChoice { id: group.clone(), label: "Machines".to_owned(), title: "{g}".to_owned() }]
    );
    assert_eq!(label_of_choice(&choices, Some(&group)), "Machines");
    assert_eq!(label_of_choice(&choices, Some("x")), "Без группы");
    assert_eq!(label_of_choice(&choices, None), "Без группы");
    for id in ["A", "B", "C"] {
        book.add_quest(0, (Number::zero(), Number::zero()), &mut ids);
        book.chapters[0].quests.last_mut().unwrap().id = id.to_owned();
    }
    book.chapters[0].quests[1].title = "{missing}".to_owned();
    book.chapters[0].quests[0].dependencies = vec!["C".to_owned()];
    let found: Vec<(String, String, bool)> = book
        .dependency_candidates(0, 0)
        .into_iter()
        .map(|candidate| (candidate.id, candidate.label, candidate.required))
        .collect();
    assert_eq!(
        found,
        [
            ("B".to_owned(), "{missing} [B]".to_owned(), false),
            ("C".to_owned(), "Новый квест".to_owned(), true),
        ]
    );
}
