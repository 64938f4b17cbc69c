use json_parser::{Json, JsonError, JsonObject};

#[test]
fn parse_null() {
    let res = Json::from_str("null").unwrap();

    assert_eq!(res, Json::Null);
}

#[test]
fn parse_bool_is_false() {
    let res = Json::from_str("false").unwrap();

    assert_eq!(res, Json::Boolean(false));
}

#[test]
fn parse_bool_is_true() {
    let res = Json::from_str("true").unwrap();

    assert_eq!(res, Json::Boolean(true));
}

#[test]
fn parse_string() {
    let res = Json::from_str("\"foo\"").unwrap();

    assert_eq!(res, Json::String("foo".to_string()));
}

#[test]
fn parse_string_with_escaped_quote() {
    let res = Json::from_str("\"fo\\\"o\"").unwrap();

    assert_eq!(res, Json::String("fo\"o".to_string()));
}

#[test]
fn parse_unclosed_string_should_return_parseerror() {
    let res = Json::from_str("\"foo");

    assert_eq!(res, Err(JsonError::ParseError("Unexpected eof.".to_string())));
}

#[test]
fn parse_empty_list() {
    let res = Json::from_str("[]").unwrap();

    assert_eq!(res, Json::Array(Vec::new()));
}

#[test]
fn parse_list_one_item() {
    let res = Json::from_str("[null]").unwrap();

    assert_eq!(res, Json::Array(vec![Json::Null]));
}

#[test]
fn parse_list_two_item() {
    let res = Json::from_str("[null, false]").unwrap();

    assert_eq!(res, Json::Array(vec![Json::Null, Json::Boolean(false)]));
}

#[test]
fn parse_nested_list() {
    let res = Json::from_str("[[null, false], [null, true]]").unwrap();

    assert_eq!(
        res,
        Json::Array(vec![
            Json::Array(vec![Json::Null, Json::Boolean(false)]),
            Json::Array(vec![Json::Null, Json::Boolean(true)])
        ])
    );
}

#[test]
fn parse_empty_object() {
    let res = Json::from_str("{}").unwrap();

    assert_eq!(res, Json::Object(JsonObject::new()));
}

#[test]
fn parse_object_one_item() {
    let mut map = JsonObject::new();
    map.insert("something".to_string(), Json::Null);

    let res = Json::from_str("{\"something\":null}").unwrap();

    assert_eq!(res, Json::Object(map));
}

#[test]
fn parse_object_two_item() {
    let mut map = JsonObject::new();
    map.insert("something".to_string(), Json::Null);
    map.insert("something_else".to_string(), Json::Boolean(true));

    let res = Json::from_str("{\"something\":null,\"something_else\":true}").unwrap();

    assert_eq!(res, Json::Object(map));
}

#[test]
fn parse_nested_objects() {
    let mut map = JsonObject::new();
    map.insert("1".to_string(), Json::Object(JsonObject::new()));
    map.insert("2".to_string(), Json::Object(JsonObject::new()));

    let res = Json::from_str("{\"1\":{}, \"2\":{}}").unwrap();

    assert_eq!(res, Json::Object(map));
}

#[test]
fn parse_complex_multiline_json_string() {
    let mut map = JsonObject::new();
    let mut inner_map = JsonObject::new();
    inner_map.insert(
        "foo".to_string(),
        Json::Array(vec![Json::Null, Json::Boolean(false), Json::Boolean(true)]),
    );
    map.insert("1".to_string(), Json::Object(inner_map));
    map.insert("2".to_string(), Json::Object(JsonObject::new()));
    map.insert("3".to_string(), Json::Boolean(false));

    let res = Json::from_str("
{
    \"1\":
        {
            \"foo\": [null, false, true]
        },
    \"2\": {},
    \"3\": false
}
").unwrap();

    assert_eq!(res, Json::Object(map));
}

#[test]
fn parse_simple_number() {
    let res = Json::from_str("9876").unwrap();

    assert_eq!(res, Json::Number(9876));
}
