use projector::path::DirPath;
use projector::projector::Projector;
use projector::store::{Scope, Store};

fn loaded(contents: Option<&str>) -> Projector {
    Projector::from_config(String::from("/cfg"), "/", contents)
}

#[test]
fn missing_file_loads_empty() {
    let proj = loaded(None);
    assert_eq!(proj.get_value_all().entry_count(), 0);
}

#[test]
fn empty_file_loads_empty() {
    let proj = loaded(Some(""));
    assert_eq!(proj.get_value_all().entry_count(), 0);
}

#[test]
fn invalid_syntax_loads_empty() {
    for bad in ["not json {", "{\"projector\": ", "[]", "{\"projector\": 3}"] {
        let proj = loaded(Some(bad));
        assert_eq!(proj.get_value_all().entry_count(), 0);
    }
}

#[test]
fn empty_object_loads_empty() {
    assert_eq!(loaded(Some("{}")).get_value_all().entry_count(), 0);
    assert_eq!(
        loaded(Some("{\"projector\": {}}")).get_value_all().entry_count(),
        0
    );
}

#[test]
fn serialized_form_is_exact() {
    let mut store = Store::new();
    let mut sc = Scope::new();
    sc.insert("k".to_string(), "v".to_string());
    store.put_scope(DirPath::parse("/foo"), sc);
    let proj = Projector {
        data: store,
        config: String::from("/cfg"),
        pwd: DirPath::parse("/"),
    };
    assert_eq!(proj.to_json(), "{\"projector\":{\"/foo\":{\"k\":\"v\"}}}");
}

#[test]
fn empty_store_serializes_to_empty_object() {
    let proj = loaded(None);
    assert_eq!(proj.to_json(), "{\"projector\":{}}");
}

#[test]
fn escapes_are_written_and_read_back() {
    let mut store = Store::new();
    let mut sc = Scope::new();
    sc.insert("quote\"key".to_string(), "back\\slash\nand\ttabs\r".to_string());
    store.put_scope(DirPath::parse("/"), sc);
    let proj = Projector {
        data: store,
        config: String::from("/cfg"),
        pwd: DirPath::parse("/"),
    };
    let json = proj.to_json();
    assert_eq!(
        json,
        "{\"projector\":{\"/\":{\"quote\\\"key\":\"back\\\\slash\\nand\\ttabs\\r\"}}}"
    );
    let back = Projector::from_config(String::from("/cfg"), "/", Some(&json));
    assert_eq!(
        back.get_value("quote\"key"),
        Some(String::from("back\\slash\nand\ttabs\r"))
    );
}

#[test]
fn round_trip_preserves_resolution() {
    let mut proj = loaded(None);
    proj.set_value("alpha", "1");
    let at_deep = Projector {
        data: proj.data,
        config: String::from("/cfg"),
        pwd: DirPath::parse("/a/b"),
    };
    let json = at_deep.to_json();
    let back = Projector::from_config(String::from("/cfg"), "/a/b", Some(&json));
    assert_eq!(back.get_value("alpha"), Some(String::from("1")));
    assert_eq!(back.to_json(), json);
}

#[test]
fn whitespace_and_escaped_keys_are_read() {
    let text = " {\n  \"projector\" : {\n    \"/a\" : { \"k1\" : \"v1\" , \"k2\" : \"v2\" },\n    \"/a/b\" : { \"k1\" : \"w\" }\n  }\n} ";
    let proj = Projector::from_config(String::from("/cfg"), "/a/b", Some(text));
    assert_eq!(proj.get_value("k1"), Some(String::from("w")));
    assert_eq!(proj.get_value("k2"), Some(String::from("v2")));
}

#[test]
fn unicode_escape_in_field_name_is_decoded() {
    let text = "{\"\\u0070rojector\":{\"/a\":{\"k\":\"v\"}}}";
    let proj = Projector::from_config(String::from("/cfg"), "/a", Some(text));
    assert_eq!(proj.get_value("k"), Some(String::from("v")));
}

#[test]
fn unicode_escapes_in_keys_and_values_are_decoded() {
    let text = "{\"projector\":{\"/a\":{\"\\u0041\":\"\\u00e9 and \\u0042\"}}}";
    let proj = Projector::from_config(String::from("/cfg"), "/a", Some(text));
    assert_eq!(proj.get_value("A"), Some(String::from("\u{e9} and B")));
}

#[test]
fn surrogate_pair_escape_is_decoded() {
    let text = "{\"projector\":{\"/a\":{\"k\":\"\\uD834\\uDD1E\"}}}";
    let proj = Projector::from_config(String::from("/cfg"), "/a", Some(text));
    assert_eq!(proj.get_value("k"), Some(String::from("\u{1D11E}")));
}

#[test]
fn lone_surrogate_escape_loads_empty() {
    let text = "{\"projector\":{\"/a\":{\"k\":\"\\uD834\"}}}";
    let proj = Projector::from_config(String::from("/cfg"), "/a", Some(text));
    assert_eq!(proj.get_value("k"), None);
    assert_eq!(proj.get_value_all().entry_count(), 0);
}

#[test]
fn raw_control_character_loads_empty() {
    let text = "{\"projector\":{\"/a\":{\"k\":\"a\u{0001}b\"}}}";
    let proj = Projector::from_config(String::from("/cfg"), "/a", Some(text));
    assert_eq!(proj.get_value_all().entry_count(), 0);
}

#[test]
fn control_characters_are_escaped_and_read_back() {
    let mut store = Store::new();
    let mut sc = Scope::new();
    sc.insert("k".to_string(), "a\u{0001}b\u{0008}c\u{000C}d\u{001F}e".to_string());
    store.put_scope(DirPath::parse("/"), sc);
    let proj = Projector {
        data: store,
        config: String::from("/cfg"),
        pwd: DirPath::parse("/"),
    };
    let json = proj.to_json();
    assert_eq!(
        json,
        "{\"projector\":{\"/\":{\"k\":\"a\\u0001b\\bc\\fd\\u001fe\"}}}"
    );
    let back = Projector::from_config(String::from("/cfg"), "/", Some(&json));
    assert_eq!(
        back.get_value("k"),
        Some(String::from("a\u{0001}b\u{0008}c\u{000C}d\u{001F}e"))
    );
}

#[test]
fn duplicate_keys_in_file_take_the_later_value() {
    let text = "{\"projector\":{\"/\":{\"k\":\"first\",\"k\":\"second\"}}}";
    let proj = Projector::from_config(String::from("/cfg"), "/", Some(text));
    assert_eq!(proj.get_value("k"), Some(String::from("second")));
}

#[test]
fn unnormalized_paths_in_file_are_normalized() {
    let text = "{\"projector\":{\"/a//b/.\":{\"k\":\"v\"}}}";
    let proj = Projector::from_config(String::from("/cfg"), "/a/b/c", Some(text));
    assert_eq!(proj.get_value("k"), Some(String::from("v")));
}
