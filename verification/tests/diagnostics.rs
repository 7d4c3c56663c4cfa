use ftbgui::diagnostics::{
    cycle_after_adding_dependency, find_broken_dependencies, find_dependency_cycles,
    DependencyCycle,
};
use ftbgui::editor::{
    Chapter, EditableBook, Number, Quest, QuestSettings, TranslationCatalog,
};
use ftbgui::graph::canonical_cycle_key;
use ftbgui::table::TextMap;

fn quest(id: &str, dependencies: &[&str]) -> Quest {
    Quest {
        id: id.to_owned(),
        title: id.to_owned(),
        description: String::new(),
        description_raw: None,
        x: Number::zero(),
        y: Number::zero(),
        size: Number::one(),
        shape: "circle".to_owned(),
        icon: String::new(),
        icon_raw: None,
        dependencies: dependencies.iter().map(|id| (*id).to_owned()).collect(),
        tasks: Vec::new(),
        rewards: Vec::new(),
        settings: QuestSettings::default(),
        extra: TextMap::new(),
    }
}

fn book(quests: Vec<Quest>) -> EditableBook {
    EditableBook {
        title: "Test".to_owned(),
        grid_scale: Number::half(),
        groups: Vec::new(),
        chapters: vec![Chapter {
            id: "CHAPTER".to_owned(),
            filename: "chapter".to_owned(),
            title: "Chapter".to_owned(),
            group: None,
            order_index: 0,
            quests,
            extra: TextMap::new(),
        }],
        preserved_files: Vec::new(),
        translations: TranslationCatalog::default(),
    }
}

#[test]
fn finds_long_recursive_cycle() {
    let book = book(vec![
        quest("A", &["B"]),
        quest("B", &["C"]),
        quest("C", &["D"]),
        quest("D", &["A"]),
    ]);
    let cycles = find_dependency_cycles(&book);
    assert_eq!(cycles.len(), 1);
    assert_eq!(cycles[0].length(), 4);
    assert_eq!(cycles[0].quest_ids, ["A", "B", "C", "D", "A"]);
}

#[test]
fn checks_new_edge_across_the_whole_path() {
    let book = book(vec![
        quest("A", &[]),
        quest("B", &["C"]),
        quest("C", &["D"]),
        quest("D", &["A"]),
    ]);
    let cycle = cycle_after_adding_dependency(&book, "A", "B").unwrap();
    assert_eq!(cycle.quest_ids, ["A", "B", "C", "D", "A"]);
}

#[test]
fn a_quest_cannot_depend_on_itself() {
    let book = book(vec![quest("A", &[])]);
    let cycle = cycle_after_adding_dependency(&book, "A", "A").unwrap();
    assert_eq!(cycle.quest_ids, ["A", "A"]);
    assert_eq!(cycle.length(), 1);
}

#[test]
fn an_edge_that_closes_nothing_is_allowed() {
    let book = book(vec![quest("A", &[]), quest("B", &["A"])]);
    assert!(cycle_after_adding_dependency(&book, "B", "A").is_none());
    assert!(cycle_after_adding_dependency(&book, "A", "MISSING").is_none());
    assert!(cycle_after_adding_dependency(&book, "A", "B").is_some());
}

#[test]
fn the_shortest_way_closes_the_cycle() {
    let book = book(vec![
        quest("A", &[]),
        quest("B", &["C", "A"]),
        quest("C", &["A"]),
    ]);
    let cycle = cycle_after_adding_dependency(&book, "A", "B").unwrap();
    assert_eq!(cycle.quest_ids, ["A", "B", "A"]);
}

#[test]
fn shorter_cycles_come_first_and_each_is_reported_once() {
    let book = book(vec![
        quest("A", &["B"]),
        quest("B", &["C"]),
        quest("C", &["A"]),
        quest("X", &["Y"]),
        quest("Y", &["X"]),
    ]);
    let cycles = find_dependency_cycles(&book);
    assert_eq!(cycles.len(), 2);
    assert_eq!(cycles[0].quest_ids, ["X", "Y", "X"]);
    assert_eq!(cycles[1].quest_ids, ["A", "B", "C", "A"]);
}

#[test]
fn broken_dependencies_are_sorted() {
    let book = book(vec![quest("B", &["Z", "A"]), quest("A", &["Y", "X"])]);
    let broken = find_broken_dependencies(&book);
    let found: Vec<(&str, &str)> = broken
        .iter()
        .map(|b| (b.quest_id.as_str(), b.missing_quest_id.as_str()))
        .collect();
    assert_eq!(found, [("A", "X"), ("A", "Y"), ("B", "Z")]);
}

#[test]
fn the_edge_to_take_away_closes_the_cycle() {
    let cycle = DependencyCycle {
        quest_ids: vec!["A".to_owned(), "B".to_owned(), "A".to_owned()],
    };
    assert_eq!(cycle.suggested_edge(), Some(("B", "A")));
    let nothing = DependencyCycle { quest_ids: Vec::new() };
    assert_eq!(nothing.length(), 0);
    assert_eq!(nothing.suggested_edge(), None);
}

#[test]
fn rotations_of_a_cycle_have_one_key() {
    let ids = |list: &[&str]| list.iter().map(|id| (*id).to_owned()).collect::<Vec<String>>();
    assert_eq!(
        canonical_cycle_key(&ids(&["A", "B", "C", "A"])),
        canonical_cycle_key(&ids(&["B", "C", "A", "B"]))
    );
}
