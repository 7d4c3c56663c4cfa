use ftbgui::path::{PathPart, ProjectPath};
use ftbgui::resources::{
    file_use, folder_id, humanize, is_auxiliary_translation, join_words, lang_namespace, matches_query,
    minecraft_jar_path, model_from, model_id, name_words, normalize_model_reference, read_model,
    registry_path, resolve_model_icon, resolve_texture_reference, texture_id_from_path,
    ArchiveFile, FileUse, JsonField, Model, NamespaceFolder, ResourceEntry, ResourceIndex, ResourceKind,
};
use ftbgui::table::TextMap;
use std::sync::Arc;

fn path(parts: &[&str]) -> ProjectPath {
    ProjectPath { parts: parts.iter().map(|p| PathPart::Name((*p).to_owned())).collect() }
}

fn bytes(text: &str) -> Arc<Vec<u8>> {
    Arc::new(text.as_bytes().to_vec())
}

fn file(name: &str, contents: &str) -> ArchiveFile {
    ArchiveFile { name: name.to_owned(), contents: bytes(contents) }
}

#[test]
fn humanizes_resource_paths() {
    assert_eq!(humanize("materials/brass_ingot"), "Brass Ingot");
}

#[test]
fn humanizing_leaves_out_empty_words() {
    assert_eq!(humanize("__oak__log_"), "Oak Log");
    assert_eq!(humanize("a/b/"), "");
    assert_eq!(humanize("ёлка"), "Ёлка");
    assert_eq!(humanize("ßharp"), "SSharp");
    assert_eq!(name_words("materials/brass_ingot"), ["brass", "ingot"]);
    assert_eq!(
        join_words(
            &vec!["brass".to_owned(), "ingot".to_owned()],
            &vec!["X".to_owned(), "YZ".to_owned()]
        ),
        "Xrass YZngot"
    );
}

#[test]
fn strips_vanilla_translation_variants_from_registry_ids() {
    assert_eq!(registry_path("minecraft", "villager.armorer"), "villager");
    assert_eq!(registry_path("example", "machine.active"), "machine.active");
}

#[test]
fn rejects_tooltip_and_description_translation_keys() {
    assert!(is_auxiliary_translation("haunted_bell.tooltip.summary"));
    assert!(is_auxiliary_translation("machine.description"));
    assert!(!is_auxiliary_translation("haunted_bell"));
}

#[test]
fn every_marker_is_seen_at_the_end_and_before_a_dot() {
    for marker in [".tooltip", ".description", ".desc", ".summary", ".condition", ".behaviour", ".behavior"] {
        assert!(is_auxiliary_translation(&format!("x{marker}")));
        assert!(is_auxiliary_translation(&format!("x{marker}.y")));
    }
    assert!(!is_auxiliary_translation("x.tooltips"));
}

fn model(parent: Option<&str>, textures: &[(&str, &str)]) -> Model {
    let mut map: TextMap<Option<String>> = TextMap::new();
    for (key, value) in textures {
        map.insert((*key).to_owned(), Some((*value).to_owned()));
    }
    Model {
        textures: if textures.is_empty() { None } else { Some(map) },
        parent: parent.map(str::to_owned),
    }
}

#[test]
fn resolves_item_icon_through_a_block_model_parent() {
    let mut models: TextMap<Model> = TextMap::new();
    models.insert(
        "example:item/cogwheel".to_owned(),
        read_model(&br#"{"parent": "example:block/cogwheel"}"#.to_vec()).unwrap(),
    );
    models.insert(
        "example:block/cogwheel".to_owned(),
        read_model(&br#"{"textures": {"0": "example:block/cogwheel"}}"#.to_vec()).unwrap(),
    );
    let expected = Arc::new(vec![1u8, 2, 3]);
    let mut textures: TextMap<Arc<Vec<u8>>> = TextMap::new();
    textures.insert("example:block/cogwheel".to_owned(), Arc::clone(&expected));

    let actual = resolve_model_icon("example:item/cogwheel", &models, &textures).unwrap();

    assert_eq!(&*actual, &*expected);
}

#[test]
fn models_that_lead_back_to_themselves_have_no_icon() {
    let mut models: TextMap<Model> = TextMap::new();
    models.insert("e:item/a".to_owned(), model(Some("e:item/b"), &[]));
    models.insert("e:item/b".to_owned(), model(Some("e:item/a"), &[]));
    models.insert("e:item/c".to_owned(), model(Some("item/generated"), &[]));
    let textures: TextMap<Arc<Vec<u8>>> = TextMap::new();
    assert!(resolve_model_icon("e:item/a", &models, &textures).is_none());
    assert!(resolve_model_icon("e:item/c", &models, &textures).is_none());
    assert!(resolve_model_icon("e:item/missing", &models, &textures).is_none());
}

#[test]
fn preferred_textures_win_and_aliases_are_followed_once() {
    let mut models: TextMap<Model> = TextMap::new();
    models.insert(
        "e:item/a".to_owned(),
        model(None, &[("aaa", "e:other"), ("layer0", "#alias"), ("alias", "e:wanted")]),
    );
    models.insert("e:item/b".to_owned(), model(None, &[("zzz", "e:other")]));
    models.insert("e:item/c".to_owned(), model(None, &[("layer0", "#x"), ("x", "#y"), ("y", "e:other")]));
    let mut textures: TextMap<Arc<Vec<u8>>> = TextMap::new();
    textures.insert("e:wanted".to_owned(), bytes("wanted"));
    textures.insert("e:other".to_owned(), bytes("other"));
    let icon = |id: &str| resolve_model_icon(id, &models, &textures).map(|b| b.to_vec());
    assert_eq!(icon("e:item/a"), Some(b"wanted".to_vec()));
    assert_eq!(icon("e:item/b"), Some(b"other".to_vec()));
    assert_eq!(icon("e:item/c"), Some(b"other".to_vec()));
}

#[test]
fn references_get_a_namespace() {
    assert_eq!(normalize_model_reference("a:b", "e"), "a:b");
    assert_eq!(normalize_model_reference("item/x", "e"), "minecraft:item/x");
    assert_eq!(normalize_model_reference("block/x", "e"), "minecraft:block/x");
    assert_eq!(normalize_model_reference("x", "e"), "e:x");
    let none: TextMap<Option<String>> = TextMap::new();
    assert_eq!(resolve_texture_reference("#missing", &none, "e"), None);
    assert_eq!(resolve_texture_reference("x", &none, "e"), Some("e:x".to_owned()));
}

#[test]
fn models_are_read_from_json() {
    let read = read_model(
        &br##"{"parent": 5, "textures": {"b": "x", "a": 7}, "textures2": {}}"##.to_vec(),
    )
    .unwrap();
    assert_eq!(read.parent, None);
    let textures = read.textures.unwrap();
    assert_eq!(textures.len(), 2);
    assert_eq!(textures.get("b"), Some(&Some("x".to_owned())));
    assert_eq!(textures.get("a"), Some(&None));
    assert!(read_model(&b"not json".to_vec()).is_none());
    let list = read_model(&b"[1]".to_vec()).unwrap();
    assert!(list.textures.is_none() && list.parent.is_none());
}

#[test]
fn models_are_made_of_fields() {
    let made = model_from(&vec![
        ("parent".to_owned(), JsonField::Text("e:p".to_owned())),
        ("textures".to_owned(), JsonField::Object(vec![("k".to_owned(), Some("v".to_owned()))])),
        ("other".to_owned(), JsonField::Other),
    ]);
    assert_eq!(made.parent, Some("e:p".to_owned()));
    assert_eq!(made.textures.unwrap().get("k"), Some(&Some("v".to_owned())));
}

#[test]
fn names_of_archive_files_are_understood() {
    assert_eq!(lang_namespace("assets/create/lang/en_us.json"), Some("create".to_owned()));
    assert_eq!(lang_namespace("assets/create/lang/en_gb.json"), Some("create".to_owned()));
    assert_eq!(lang_namespace("assets/create/lang/ru_ru.json"), None);
    assert_eq!(lang_namespace("data/assets/create/lang/en_us.json"), None);
    assert_eq!(model_id("assets/create/models/item/x.json"), Some("create:item/x".to_owned()));
    assert_eq!(model_id("assets/create/models/item/x.png"), None);
    assert_eq!(
        texture_id_from_path("assets/create/textures/block/x.png"),
        Some("create:block/x".to_owned())
    );
    assert_eq!(folder_id("create", "item\\x.json", 5), "create:item/x");
}

#[test]
fn contains_builtin_item_and_entity_entries() {
    let mut index = ResourceIndex::new();
    index.add_builtin_entries();
    index.finish();
    assert!(index
        .entries
        .iter()
        .any(|entry| entry.id == "minecraft:diamond" && entry.kind == ResourceKind::Item));
    assert!(index
        .entries
        .iter()
        .any(|entry| entry.id == "minecraft:zombie" && entry.kind == ResourceKind::Entity));
    assert_eq!(index.entries.len(), 12);
    assert_eq!(index.entries[0].id, "minecraft:carpet");
    assert_eq!(index.entries[7].id, "minecraft:creeper");
}

#[test]
fn scans_only_the_current_projects_mods_directory() {
    let mut index_a = ResourceIndex::new();
    index_a.add_builtin_entries();
    index_a.scan_directory(
        "project_a/mods/example",
        &vec![NamespaceFolder {
            name: "example".to_owned(),
            languages: vec![br#"{"item.example.private_item":"Private Item","item.example.private_item.tooltip.summary":"Internal tooltip"}"#.to_vec()],
            models: Vec::new(),
            pictures: Vec::new(),
        }],
    );
    index_a.finish();
    let mut index_b = ResourceIndex::new();
    index_b.add_builtin_entries();
    index_b.finish();

    assert!(index_a.entries.iter().any(|entry| entry.id == "example:private_item"));
    assert!(!index_a.entries.iter().any(|entry| entry.id.contains("tooltip")));
    assert!(!index_b.entries.iter().any(|entry| entry.id == "example:private_item"));
    assert_eq!(index_a.scanned_sources, ["project_a/mods/example"]);
}

#[test]
fn imports_and_scans_a_minecraft_client_jar() {
    let mut index = ResourceIndex::new();
    index.add_builtin_entries();
    index.scan_jar(
        "client.jar",
        Ok(vec![file(
            "assets/minecraft/lang/en_us.json",
            r#"{"item.minecraft.diamond":"Diamond","block.minecraft.stone":"Stone","entity.minecraft.villager.armorer":"Armorer"}"#,
        )]),
    );
    index.finish();

    assert_eq!(
        minecraft_jar_path(&path(&["project", "quests"])),
        path(&["project", ".ftbgui", "minecraft-client.jar"])
    );
    assert!(index.entries.iter().any(|entry| entry.id == "minecraft:diamond"));
    assert!(index.entries.iter().any(|entry| entry.id == "minecraft:villager"));
    assert!(!index.entries.iter().any(|entry| entry.id == "minecraft:villager.armorer"));
}

#[test]
fn an_archive_gives_items_with_pictures() {
    let mut index = ResourceIndex::new();
    index.scan_jar(
        "mod.jar",
        Ok(vec![
            file("assets/e/lang/en_us.json", r#"{"item.e.tools.hammer":"Hammer"}"#),
            file("assets/e/lang/en_gb.json", "broken"),
            file("assets/e/models/item/tools/hammer.json", r#"{"textures":{"layer0":"e:item/hammer"}}"#),
            file("assets/e/models/item/odd_thing.json", "{}"),
            file("assets/minecraft/models/item/air.json", "{}"),
            file("assets/e/textures/item/hammer.png", "PNG"),
            file("META-INF/MANIFEST.MF", ""),
        ]),
    );
    index.finish();
    let ids: Vec<&str> = index.entries.iter().map(|e| e.id.as_str()).collect();
    assert_eq!(ids, ["e:odd_thing", "e:tools.hammer", "e:tools/hammer"]);
    assert_eq!(index.entries[0].name, "Odd Thing");
    assert_eq!(index.entries[2].name, "Hammer");
    assert_eq!(index.entries[2].icon_png.as_ref().map(|b| b.to_vec()), Some(b"PNG".to_vec()));
    assert_eq!(index.entries[1].icon_png, None);
}

#[test]
fn an_archive_that_cannot_be_read_is_a_warning() {
    let mut index = ResourceIndex::new();
    index.scan_jar("bad.jar", Err("invalid Zip archive".to_owned()));
    assert!(index.entries.is_empty() && index.scanned_sources.is_empty());
    assert_eq!(index.warnings, ["bad.jar: invalid Zip archive"]);
}

fn entry(id: &str, name: &str, kind: ResourceKind, icon: Option<&str>) -> ResourceEntry {
    ResourceEntry {
        id: id.to_owned(),
        name: name.to_owned(),
        kind,
        source: "test".to_owned(),
        icon_png: icon.map(bytes),
    }
}

#[test]
fn the_first_entry_stays_and_takes_the_first_picture() {
    let mut index = ResourceIndex::new();
    index.entries.push(entry("a:x", "First", ResourceKind::Item, None));
    index.entries.push(entry("a:x", "Other", ResourceKind::Entity, None));
    index.entries.push(entry("a:x", "Second", ResourceKind::Item, Some("one")));
    index.entries.push(entry("a:x", "Third", ResourceKind::Item, Some("two")));
    index.finish();
    assert_eq!(index.entries.len(), 2);
    assert_eq!(index.entries[0].name, "First");
    assert_eq!(index.entries[0].icon_png.as_ref().map(|b| b.to_vec()), Some(b"one".to_vec()));
    assert_eq!(index.entries[1].kind, ResourceKind::Entity);
}

#[test]
fn resources_are_found_by_id_and_name_in_any_case() {
    let mut index = ResourceIndex::new();
    index.add_builtin_entries();
    index.finish();
    let found: Vec<String> =
        index.find(ResourceKind::Item, "  INGOT ").iter().map(|e| e.id.clone()).collect();
    assert_eq!(found, ["minecraft:gold_ingot", "minecraft:iron_ingot"]);
    assert_eq!(index.find(ResourceKind::Entity, "").len(), 5);
    assert_eq!(index.find(ResourceKind::Entity, "ingot").len(), 0);
    let stone = entry("minecraft:stone", "Stone", ResourceKind::Item, None);
    assert!(matches_query(&stone, ResourceKind::Item, "st", "minecraft:stone", "stone"));
    assert!(!matches_query(&stone, ResourceKind::Entity, "st", "minecraft:stone", "stone"));
    assert!(!matches_query(&stone, ResourceKind::Item, "zz", "minecraft:stone", "stone"));
}

fn pictured(id: &str, icon: Option<Vec<u8>>) -> ResourceEntry {
    ResourceEntry {
        id: id.to_owned(),
        name: id.to_owned(),
        kind: ResourceKind::Item,
        source: String::new(),
        icon_png: icon.map(Arc::new),
    }
}

#[test]
fn pictures_are_decoded() {
    let png: Vec<u8> = vec![
        137, 80, 78, 71, 13, 10, 26, 10, 0, 0, 0, 13, 73, 72, 68, 82, 0, 0, 0, 2, 0, 0, 0, 1, 8, 6,
        0, 0, 0, 244, 34, 127, 138, 0, 0, 0, 17, 73, 68, 65, 84, 120, 156, 99, 248, 207, 192, 240,
        159, 145, 137, 185, 1, 0, 13, 140, 2, 133, 110, 52, 1, 72, 0, 0, 0, 0, 73, 69, 78, 68, 174,
        66, 96, 130,
    ];
    let mut index = ResourceIndex::new();
    index.entries = vec![
        pictured("a:plain", None),
        pictured("a:broken", Some(vec![1, 2, 3])),
        pictured("a:dots", Some(png.clone())),
        pictured("a:dots", None),
    ];
    assert!(index.find_picture("a:missing").is_none());
    assert!(index.find_picture("a:plain").is_none());
    assert!(matches!(index.find_picture("a:broken"), Some(None)));
    let picture = index.find_picture("a:dots").unwrap().unwrap();
    assert_eq!((picture.width, picture.height), (2, 1));
    assert_eq!(picture.points, [255, 0, 0, 255, 1, 2, 3, 128]);
    assert_eq!(index.find_icon("a:dots").unwrap().as_slice(), png.as_slice());
}

#[test]
fn files_of_an_archive_are_told_apart() {
    assert_eq!(file_use("assets/a/lang/en_us.json"), FileUse::Text);
    assert_eq!(file_use("assets/a/models/item/b.json"), FileUse::Text);
    assert_eq!(file_use("assets/a/textures/item/b.png"), FileUse::Bytes);
    assert_eq!(file_use("assets/a/sounds.json"), FileUse::Skip);
}
