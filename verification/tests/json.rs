//! JSON documents.

use ambidiff_core::json::{Integer, Json, JsonMap, JsonNumber};

fn json(text: &str) -> Json {
    Json::parse(text).expect("json")
}

#[test]
fn documents_keep_their_order_and_kinds() {
    let text = r#"{"b":1,"a":[true,null,-2,1.5,"x\n"],"c":{}}"#;
    let doc = json(text);
    assert_eq!(doc.to_compact(), text);
    assert_eq!(doc.kind_name(), "object");
    let Json::Object(map) = &doc else {
        panic!("an object");
    };
    assert_eq!(map.len(), 3);
    assert_eq!(map.key_at(0), "b");
    assert_eq!(map.key_at(1), "a");
    assert_eq!(map.value_at(2).kind_name(), "object");
    assert_eq!(doc.get("b"), Some(&Json::Number(JsonNumber::Unsigned(1))));
    assert_eq!(doc.get("nope"), None);
    assert_eq!(json("[1]").get("b"), None);
}

#[test]
fn pretty_text_indents_by_two() {
    assert_eq!(
        json(r#"{"a":[1,{"b":"c"}]}"#).to_pretty().expect("pretty"),
        "{\n  \"a\": [\n    1,\n    {\n      \"b\": \"c\"\n    }\n  ]\n}"
    );
}

#[test]
fn both_texts_read_back() {
    for text in [
        "null",
        "true",
        "\"\u{4f60}\u{1F600}\\u0000\"",
        "[]",
        "[[[1]],{\"k\":[-1,0.25,18446744073709551615,-9223372036854775808]}]",
        "1e300",
        "-0.0",
    ] {
        let doc = json(text);
        assert_eq!(json(&doc.to_compact()), doc, "{text}");
        assert_eq!(json(&doc.to_pretty().expect("pretty")), doc, "{text}");
        assert_eq!(json(&format!("{}\n", doc.to_pretty().expect("pretty"))), doc);
        assert_eq!(doc.clone(), doc, "{text}");
    }
}

#[test]
fn integers_are_told_from_other_numbers() {
    let integer = |text: &str| match json(text) {
        Json::Number(n) => n.integer(),
        other => panic!("{other:?}"),
    };
    assert_eq!(integer("0"), Integer::Unsigned(0));
    assert_eq!(integer("18446744073709551615"), Integer::Unsigned(u64::MAX));
    assert_eq!(integer("-1"), Integer::Negative(-1));
    assert_eq!(integer("-9223372036854775808"), Integer::Negative(i64::MIN));
    assert_eq!(integer("2.0"), Integer::NoInteger);
    assert_eq!(integer("18446744073709551616"), Integer::NoInteger);
}

#[test]
fn bad_text_is_refused_in_the_readers_words() {
    for text in ["", "{", "[1,]", "nope", "{\"a\" 1}", "1 2"] {
        let words = serde_json::from_str::<serde_json::Value>(text)
            .expect_err("refused")
            .to_string();
        assert_eq!(Json::parse(text), Err(words), "{text}");
    }
}

#[test]
fn a_key_that_stands_twice_keeps_its_last_value() {
    let doc = json(r#"{"a":1,"b":2,"a":3}"#);
    assert_eq!(doc.to_compact(), r#"{"a":3,"b":2}"#);
}

#[test]
fn maps_insert_remove_and_merge() {
    let mut map = JsonMap::new();
    assert!(map.is_empty());
    map.insert("a".into(), Json::Bool(true));
    map.insert("b".into(), Json::Null);
    map.insert("c".into(), Json::Text("x".into()));
    map.insert("a".into(), Json::Bool(false));
    assert_eq!(
        Json::Object(map.clone()).to_compact(),
        r#"{"a":false,"b":null,"c":"x"}"#
    );
    assert_eq!(map.position("c"), 2);
    assert_eq!(map.position("z"), 3);
    assert_eq!(
        Json::Object(map.except(&["b", "z"])).to_compact(),
        r#"{"a":false,"c":"x"}"#
    );
    assert_eq!(map.remove("a"), Some(Json::Bool(false)));
    assert_eq!(map.remove("a"), None);
    assert!(!map.contains_key("a"));
    let mut other = JsonMap::new();
    other.insert("d".into(), Json::Null);
    other.insert("b".into(), Json::Bool(true));
    map.put_all(&other);
    assert_eq!(
        Json::Object(map).to_compact(),
        r#"{"b":true,"c":"x","d":null}"#
    );
}

#[test]
fn objects_are_equal_whatever_the_order_of_their_members() {
    let same = |a: &str, b: &str| json(a) == json(b);
    assert!(same(r#"{"a":1,"b":{"x":[],"y":null}}"#, r#"{"b":{"y":null,"x":[]},"a":1}"#));
    assert!(!same(r#"{"a":1,"b":2}"#, r#"{"a":2,"b":1}"#));
    assert!(!same(r#"{"a":1}"#, r#"{"a":1,"b":1}"#));
    assert!(!same(r#"{"a":1}"#, r#"{"b":1}"#));
    assert!(!same("[1,2]", "[2,1]"));
    assert!(!same("[1]", "[1,2]"));
    assert!(!same("{}", "[]"));
}

#[test]
fn numbers_are_equal_by_their_value() {
    let same = |a: &str, b: &str| json(a) == json(b);
    assert!(same("1.5", "1.50"));
    assert!(same("0.0", "-0.0"));
    assert!(same("-3", "-3"));
    assert!(!same("1", "1.0"));
    assert!(!same("1", "-1"));
    assert!(!same("1.5", "2.5"));
}
