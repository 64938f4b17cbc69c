use json_parser::{Json, JsonObject};

fn read(input: &str) -> Json {
    Json::from_str(input).unwrap()
}

#[test]
fn reading_twice_gives_equal_values() {
    let text = "{\"a\":[null, true, \"x\", {\"b\":7,}], \"c\":{}}";
    assert_eq!(read(text), read(text));
    assert_eq!(Json::from_str("[1"), Json::from_str("[1"));
}

#[test]
fn blanks_in_front_of_the_value_are_skipped() {
    assert_eq!(read(" \n  null"), Json::Null);
    assert_eq!(read("\n\n[\nnull,\n true]"), Json::Array(vec![Json::Null, Json::Boolean(true)]));
}

#[test]
fn what_follows_the_first_value_is_not_read() {
    assert_eq!(read("null and more"), Json::Null);
    assert_eq!(read("truefalse"), Json::Boolean(true));
    assert_eq!(read("[]]"), Json::Array(Vec::new()));
    assert_eq!(read("\"a\"\"b\""), Json::String("a".to_string()));
}

#[test]
fn string_escapes_are_resolved() {
    assert_eq!(read("\"a\\\\b\""), Json::String("a\\b".to_string()));
    assert_eq!(read("\"\\\"\\\"\""), Json::String("\"\"".to_string()));
    assert_eq!(read("\"\\\\\\\"\""), Json::String("\\\"".to_string()));
    assert_eq!(read("\"\""), Json::String(String::new()));
}

#[test]
fn string_keeps_other_characters_as_they_are() {
    assert_eq!(read("\"line one\nline two\""), Json::String("line one\nline two".to_string()));
    assert_eq!(read("\"é [1, 2] {} \t\""), Json::String("é [1, 2] {} \t".to_string()));
}

#[test]
fn position_after_a_newline_inside_a_string() {
    let res = Json::from_str("[\"a\nb\", ?]");
    assert_eq!(
        res,
        Err(json_parser::JsonError::ParseError(
            "unexpected character (Some('?')) at line: 1, column: 5 ".to_string()
        ))
    );
}

#[test]
fn number_reads_decimal_digits() {
    assert_eq!(read("0"), Json::Number(0));
    assert_eq!(read("7"), Json::Number(7));
    assert_eq!(read("10"), Json::Number(10));
    assert_eq!(read("007"), Json::Number(7));
    assert_eq!(read("1234567890"), Json::Number(1234567890));
}

#[test]
fn number_ends_at_a_comma() {
    assert_eq!(read("12,34"), Json::Number(12));
    assert_eq!(read("[1,]"), Json::Array(vec![Json::Number(1)]));
    assert_eq!(read("[1,2,]"), Json::Array(vec![Json::Number(1), Json::Number(2)]));
    assert_eq!(read("[1, 22,\n333,]"), Json::Array(vec![
        Json::Number(1),
        Json::Number(22),
        Json::Number(333),
    ]));
}

#[test]
fn largest_number_is_read() {
    assert_eq!(read(&usize::MAX.to_string()), Json::Number(usize::MAX));
    assert_eq!(read(&format!("000{}", usize::MAX)), Json::Number(usize::MAX));
    assert_eq!(read(&format!("[{},]", usize::MAX - 1)), Json::Array(vec![Json::Number(usize::MAX - 1)]));
}

#[test]
fn commas_are_skipped_wherever_they_stand() {
    assert_eq!(read("[,]"), Json::Array(Vec::new()));
    assert_eq!(read("[,,null,,true,]"), Json::Array(vec![Json::Null, Json::Boolean(true)]));
    assert_eq!(read("[null true]"), Json::Array(vec![Json::Null, Json::Boolean(true)]));
    assert_eq!(read("{,}"), Json::Object(JsonObject::new()));
    let mut map = JsonObject::new();
    map.insert("a".to_string(), Json::Null);
    assert_eq!(read("{ , \"a\":null , , }"), Json::Object(map));
}

#[test]
fn number_as_object_value() {
    let mut map = JsonObject::new();
    map.insert("a".to_string(), Json::Number(1));
    map.insert("b".to_string(), Json::Number(20));
    assert_eq!(read("{\"a\":1,\"b\":20,}"), Json::Object(map));
}

#[test]
fn blanks_around_members() {
    let mut map = JsonObject::new();
    map.insert("a".to_string(), Json::Boolean(true));
    map.insert("b".to_string(), Json::Array(Vec::new()));
    assert_eq!(read("{\n  \"a\":   true\n,\n \"b\":\n[]\n  }"), Json::Object(map));
}

#[test]
fn duplicate_key_keeps_the_last_value() {
    let mut map = JsonObject::new();
    map.insert("k".to_string(), Json::Boolean(true));
    assert_eq!(read("{\"k\":null,\"k\":true}"), Json::Object(map));

    let res = read("{\"k\":null,\"j\":[],\"k\":\"x\",\"k\":false}");
    match res {
        Json::Object(members) => {
            assert_eq!(members.len(), 2);
            assert_eq!(members.get(&"k".to_string()), Some(&Json::Boolean(false)));
            assert_eq!(members.get(&"j".to_string()), Some(&Json::Array(Vec::new())));
        }
        other => panic!("not an object: {:?}", other),
    }
}

#[test]
fn key_escapes_are_resolved() {
    let mut map = JsonObject::new();
    map.insert("a\"b".to_string(), Json::Null);
    assert_eq!(read("{\"a\\\"b\":null}"), Json::Object(map));
}

#[test]
fn object_equality_ignores_insertion_order() {
    let mut left = JsonObject::new();
    left.insert("a".to_string(), Json::Null);
    left.insert("b".to_string(), Json::Boolean(true));
    let mut right = JsonObject::new();
    right.insert("b".to_string(), Json::Boolean(true));
    right.insert("a".to_string(), Json::Null);
    assert_eq!(left, right);
    assert_eq!(read("{\"a\":null,\"b\":true}"), read("{\"b\":true,\"a\":null}"));
    assert_eq!(read("{\"a\":null,\"b\":true}"), Json::Object(right));
}

#[test]
fn object_equality_compares_keys_and_values() {
    assert_ne!(read("{\"a\":null}"), read("{\"a\":true}"));
    assert_ne!(read("{\"a\":null}"), read("{\"b\":null}"));
    assert_ne!(read("{\"a\":null}"), read("{\"a\":null,\"b\":null}"));
    assert_ne!(read("{\"a\":null,\"b\":null}"), read("{\"a\":null}"));
    assert_ne!(read("{\"a\":null,\"b\":null}"), read("{\"a\":null,\"c\":null}"));
    assert_ne!(read("{}"), read("[]"));
}

#[test]
fn array_equality_is_sensitive_to_order() {
    assert_ne!(read("[null, true]"), read("[true, null]"));
    assert_ne!(read("[null]"), read("[null, null]"));
    assert_eq!(read("[null,true]"), read("[null, true]"));
}

#[test]
fn values_of_different_kinds_differ() {
    assert_ne!(read("null"), read("false"));
    assert_ne!(read("0"), read("false"));
    assert_ne!(read("\"0\""), read("0"));
    assert_ne!(read("\"a\""), read("\"b\""));
    assert_ne!(read("1"), read("2"));
    assert_ne!(read("true"), read("false"));
}

#[test]
fn object_insert_returns_the_previous_value() {
    let mut map = JsonObject::new();
    assert_eq!(map.len(), 0);
    assert_eq!(map.insert("a".to_string(), Json::Number(1)), None);
    assert_eq!(map.insert("b".to_string(), Json::Number(2)), None);
    assert_eq!(map.len(), 2);
    assert_eq!(map.insert("a".to_string(), Json::Number(3)), Some(Json::Number(1)));
    assert_eq!(map.len(), 2);
    assert_eq!(map.get(&"a".to_string()), Some(&Json::Number(3)));
    assert_eq!(map.get(&"b".to_string()), Some(&Json::Number(2)));
    assert_eq!(map.get(&"c".to_string()), None);
}

#[test]
fn deeply_nested_arrays_are_read() {
    let depth = 200;
    let text = format!("{}{}", "[".repeat(depth), "]".repeat(depth));
    let mut expected = Json::Array(Vec::new());
    for _ in 1..depth {
        expected = Json::Array(vec![expected]);
    }
    assert_eq!(read(&text), expected);
}

#[test]
fn object_keys_are_listed_once() {
    let res = read("{\"b\":null,\"a\":[],\"b\":true}");
    match res {
        Json::Object(members) => {
            let mut keys: Vec<String> = members.keys().into_iter().cloned().collect();
            keys.sort();
            assert_eq!(keys, vec!["a".to_string(), "b".to_string()]);
        }
        other => panic!("not an object: {:?}", other),
    }
    assert!(JsonObject::new().keys().is_empty());
}
