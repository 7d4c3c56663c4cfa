use ftbgui::editor::{translation_display_text, translation_storage_text, TranslationCatalog};
use ftbgui::translation::normalize_locale;

#[test]
fn keys_are_replaced_in_the_active_language_and_else_in_english() {
    let mut catalog = TranslationCatalog::default();
    catalog.set_translation("en_us", "a", "English".to_owned());
    catalog.set_translation("en_us", "b", "Only\\nEnglish".to_owned());
    assert!(catalog.add_locale("ru_RU"));
    catalog.set_translation("ru_ru", "a", "Русский".to_owned());
    assert_eq!(catalog.resolve("{a} and {b}"), "Русский and Only\nEnglish");
    assert_eq!(catalog.resolve("{missing}"), "{missing}");
    assert_eq!(catalog.resolve("no keys\\n"), "no keys\n");
    assert_eq!(catalog.resolve("open {a"), "open {a");
    assert_eq!(catalog.resolve("{}"), "{}");
    assert_eq!(catalog.translation("ru_ru", "b"), None);
    assert_eq!(catalog.translation("en_us", "b"), Some("Only\\nEnglish"));
}

#[test]
fn only_a_key_in_braces_is_a_key() {
    let catalog = TranslationCatalog::default();
    assert_eq!(catalog.exact_key(" {a.b} "), Some("a.b".to_owned()));
    assert_eq!(catalog.exact_key("{a} b"), None);
    assert_eq!(catalog.exact_key("{}"), None);
    assert_eq!(catalog.exact_key("{a}{b}"), None);
}

#[test]
fn a_language_is_added_once() {
    let mut catalog = TranslationCatalog::default();
    assert!(catalog.add_locale("de-DE"));
    assert_eq!(catalog.active_locale, "de_de");
    assert!(!catalog.add_locale("DE_de"));
    assert!(!catalog.add_locale("!!!"));
    assert_eq!(normalize_locale(" pt-BR "), "pt_br");
}

#[test]
fn line_breaks_are_kept_as_signs() {
    assert_eq!(translation_storage_text("a\nb"), "a\\nb");
    assert_eq!(translation_display_text("a\\nb"), "a\nb");
    assert_eq!(translation_display_text(&translation_storage_text("x\n\ny")), "x\n\ny");
}

#[test]
fn a_text_moved_under_a_key_is_shown_as_before() {
    let mut catalog = TranslationCatalog::default();
    let mut text = "Line\nbreak".to_owned();
    assert_eq!(catalog.localize_as(&mut text, "k".to_owned()), "k");
    assert_eq!(text, "{k}");
    assert_eq!(catalog.translation("en_us", "k"), Some("Line\\nbreak"));
    assert_eq!(catalog.resolve(&text), "Line\nbreak");
    assert_eq!(catalog.localize_as(&mut text, "other".to_owned()), "k");
    let mut second = "Text".to_owned();
    let key = catalog.localize(&mut second);
    assert_eq!(second, format!("{{{key}}}"));
    assert!(key.starts_with("ftbgui."));
}

#[test]
fn a_text_is_edited_in_place_of_its_key() {
    let mut catalog = TranslationCatalog::default();
    assert_eq!(catalog.edited_text("plain"), None);
    assert_eq!(catalog.edited_text("{k}"), Some(("k".to_owned(), "{k}".to_owned())));
    catalog.set_translation("en_us", "k", "English".to_owned());
    catalog.add_locale("ru_ru");
    assert_eq!(catalog.edited_text("{k}"), Some(("k".to_owned(), "English".to_owned())));
    catalog.store_edited_text("k", "Русский\nтекст");
    assert_eq!(catalog.translation("ru_ru", "k"), Some("Русский\\nтекст"));
    assert_eq!(catalog.edited_text(" {k} "), Some(("k".to_owned(), "Русский\nтекст".to_owned())));
    assert_eq!(catalog.translation("en_us", "k"), Some("English"));
}
