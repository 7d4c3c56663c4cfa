use ftbgui::snbt;
use ftbgui::snbt::{is_bare_literal, parse, stringify_key, Value};

#[test]
fn parses_ftb_style_without_commas() {
    let value = parse(
        r#"{
                id: "ABC"
                enabled: true
                dependencies: ["ONE" "TWO"]
                task: { type: "item", count: 2 }
            }"#,
    )
    .unwrap();

    assert_eq!(value.get("id").and_then(Value::as_str), Some("ABC"));
    assert_eq!(value.get("dependencies").and_then(Value::as_list).unwrap().len(), 2);
}

#[test]
fn parses_namespaced_values_typed_arrays_and_comments() {
    let value = parse(
        r#"{
                item: minecraft:stone
                bytes: [B; 1b, 2b]
                // FTB files may contain comments.
                text: "line\n\u0041"
            }"#,
    )
    .unwrap();

    assert_eq!(value.get("item").and_then(Value::as_str), Some("minecraft:stone"));
    assert_eq!(value.get("bytes").and_then(Value::as_list).unwrap().len(), 2);
    assert_eq!(value.get("text").and_then(Value::as_str), Some("line\nA"));
}

#[test]
fn stringifies_values_without_changing_scalar_types() {
    let value = parse(
        r#"{ id: "minecraft:stone", title: "Алмаз", count: 2L, enabled: true, tags: ["a" "b"] }"#,
    )
    .unwrap();
    let output = snbt::stringify(&value);
    let reparsed = parse(&output).unwrap();
    assert_eq!(reparsed, value);
}

#[test]
fn writes_fields_in_the_order_of_their_keys() {
    let value = parse("{ b: 2 a: [1 \"x y\"] 'odd key': {} }").unwrap();
    assert_eq!(snbt::stringify(&value), "{ a: [1, \"x y\"], b: 2, \"odd key\": {  } }");
}

#[test]
fn the_last_of_two_equal_keys_counts() {
    let value = parse("{ a: 1, a: 2 }").unwrap();
    assert_eq!(value.get("a").and_then(Value::as_str), Some("2"));
    assert_eq!(value.as_compound().unwrap().len(), 1);
}

#[test]
fn a_scalar_has_no_fields_and_a_list_no_text() {
    let scalar = parse("stone").unwrap();
    assert!(scalar.get("a").is_none());
    assert!(scalar.as_compound().is_none());
    assert!(scalar.as_list().is_none());
    assert_eq!(scalar.as_str(), Some("stone"));
    let list = parse("[]").unwrap();
    assert!(list.as_str().is_none());
    assert_eq!(list.as_list().unwrap().len(), 0);
}

#[test]
fn fields_can_be_changed_in_place() {
    let mut value = parse("{ a: 1 }").unwrap();
    value.as_compound_mut().unwrap().insert("b".to_owned(), Value::Scalar("2".to_owned()));
    assert_eq!(snbt::stringify(&value), "{ a: 1, b: 2 }");
    let mut list = parse("[1]").unwrap();
    assert!(list.as_compound_mut().is_none());
}

#[test]
fn failures_tell_the_line_and_the_column() {
    let error = parse("{\n  a: 1\n  b\n}").unwrap_err();
    assert_eq!(error.message(), "ожидался символ ':', найден '}' (строка 4, столбец 2)");
    assert!(parse("").is_err());
    assert!(parse("{ a: \"open }").is_err());
    assert!(parse("{ a: 1 } rest").is_err());
    assert!(parse("[1, 2").is_err());
    assert!(parse("{ a: \"\\u00zz\" }").is_err());
}

#[test]
fn escapes_are_read_and_written() {
    let value = parse("\"tab\\t quote\\\" slash\\\\ bell\\u0007\"").unwrap();
    assert_eq!(value.as_str(), Some("tab\t quote\" slash\\ bell\u{7}"));
    let output = snbt::stringify(&value);
    assert_eq!(parse(&output).unwrap(), value);
}

#[test]
fn literals_and_keys_are_recognised() {
    assert!(is_bare_literal("true"));
    assert!(is_bare_literal("-2.5d"));
    assert!(is_bare_literal("1e5"));
    assert!(is_bare_literal("infinity"));
    assert!(!is_bare_literal("inf"));
    assert!(!is_bare_literal("minecraft:stone"));
    assert!(!is_bare_literal(""));
    assert_eq!(stringify_key("plain_key"), "plain_key");
    assert_eq!(stringify_key("minecraft:name"), "\"minecraft:name\"");
}
