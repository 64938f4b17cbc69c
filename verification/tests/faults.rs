use json_parser::{Json, JsonError};

fn fault(input: &str) -> String {
    match Json::from_str(input) {
        Err(JsonError::ParseError(message)) => message,
        other => panic!("no report for {:?}: {:?}", input, other),
    }
}

#[test]
fn empty_text_is_an_unexpected_end() {
    assert_eq!(
        Json::from_str(""),
        Err(JsonError::ParseError("Unexpected eof.".to_string()))
    );
}

#[test]
fn blank_text_is_an_unexpected_end() {
    assert_eq!(fault("  \n "), "Unexpected eof.");
}

#[test]
fn stray_character_is_reported_with_its_position() {
    assert_eq!(
        fault("x"),
        "unexpected character (Some('x')) at line: 0, column: 1 "
    );
}

#[test]
fn position_counts_lines_and_restarts_columns() {
    assert_eq!(
        fault("\n\n  x"),
        "unexpected character (Some('x')) at line: 2, column: 3 "
    );
}

#[test]
fn stray_character_is_shown_escaped() {
    assert_eq!(
        fault("\t"),
        "unexpected character (Some('\\t')) at line: 0, column: 1 "
    );
    assert_eq!(
        fault("'"),
        "unexpected character (Some('\\'')) at line: 0, column: 1 "
    );
    assert_eq!(
        fault("é"),
        "unexpected character (Some('é')) at line: 0, column: 1 "
    );
}

#[test]
fn misspelt_literals_are_faults() {
    assert_eq!(fault("nul"), "woot");
    assert_eq!(fault("nulx"), "woot");
    assert_eq!(fault("tru e"), "woot");
    assert_eq!(fault("fals"), "woot");
    assert_eq!(fault("[nil]"), "woot");
}

#[test]
fn unknown_escape_is_a_fault() {
    assert_eq!(fault("\"a\\nb\""), "escape error.");
}

#[test]
fn text_that_ends_in_an_escape_is_a_fault() {
    assert_eq!(fault("\"abc\\"), "Unexpected eof.");
}

#[test]
fn unclosed_array_reports_the_end_of_input_token() {
    assert_eq!(
        fault("["),
        "Unexpected character (None) at line: 0, column: 2."
    );
    assert_eq!(
        fault("[null"),
        "Unexpected character (None) at line: 0, column: 6."
    );
    assert_eq!(
        fault("[null,\n"),
        "Unexpected eof."
    );
}

#[test]
fn blank_before_closing_bracket_is_a_fault() {
    assert_eq!(
        fault("[ ]"),
        "unexpected character (Some(']')) at line: 0, column: 3 "
    );
}

#[test]
fn number_must_be_followed_by_comma_or_end() {
    assert_eq!(
        fault("[1]"),
        "unexpected character (Some(']')) at line: 0, column: 3 "
    );
    assert_eq!(
        fault("1 "),
        "unexpected character (Some(' ')) at line: 0, column: 2 "
    );
    assert_eq!(
        fault("{\"a\":1}"),
        "unexpected character (Some('}')) at line: 0, column: 7 "
    );
}

#[test]
fn number_inside_a_container_may_not_end_the_text() {
    assert_eq!(fault("[1"), "Unexpected eof.");
    assert_eq!(fault("{\"a\":12"), "Unexpected eof.");
    assert_eq!(fault("[[],1"), "Unexpected eof.");
}

#[test]
fn number_above_the_largest_is_a_fault() {
    let above = (usize::MAX as u128 + 1).to_string();
    assert_eq!(
        fault(&above),
        format!("Couldn't parse number: {}", above)
    );
    let far_above = format!("{}0", usize::MAX);
    assert_eq!(
        fault(&far_above),
        format!("Couldn't parse number: {}", far_above)
    );
    assert_eq!(
        fault("99999999999999999999999999999999999999999999999999,"),
        "Couldn't parse number: 99999999999999999999999999999999999999999999999999"
    );
}

#[test]
fn unclosed_object_is_an_unexpected_end() {
    assert_eq!(fault("{"), "Unexpected eof.");
    assert_eq!(fault("{ \n"), "Unexpected eof.");
    assert_eq!(fault("{\"a\":"), "Unexpected eof.");
    assert_eq!(fault("{\"a\":null"), "Unexpected eof.");
    assert_eq!(fault("{\"a"), "Unexpected eof.");
}

#[test]
fn stray_character_in_object_is_reported() {
    assert_eq!(
        fault("{x}"),
        "Unexpected character (Some('x')) at line: 0, column: 2."
    );
    assert_eq!(
        fault("{\n  null}"),
        "Unexpected character (Some('n')) at line: 1, column: 3."
    );
}

#[test]
fn key_must_be_followed_by_colon_at_once() {
    assert_eq!(
        fault("{\"a\" :1}"),
        "Expected to find ':', but found: Some(' ') at line: 0, column: 5."
    );
    assert_eq!(
        fault("{\"a\"}"),
        "Expected to find ':', but found: Some('}') at line: 0, column: 5."
    );
    assert_eq!(
        fault("{\"a\""),
        "Expected to find ':', but found: None at line: 0, column: 5."
    );
}

#[test]
fn fault_in_an_element_is_the_fault_of_the_whole() {
    assert_eq!(fault("[null, [true, \"x\\y\"]]"), "escape error.");
    assert_eq!(
        fault("{\"a\":[null, {\"b\":?}]}"),
        "unexpected character (Some('?')) at line: 0, column: 18 "
    );
}

#[test]
fn broken_multiline_text_reports_line_and_column() {
    let broken = "
{
    \"1\":
        {
            \"foo\": [null, false, true]
        },
    \"2\": {},
    \"3\": maybe
}
";
    assert_eq!(
        fault(broken),
        "unexpected character (Some('m')) at line: 7, column: 10 "
    );
    let unclosed = "
{
    \"1\":
        {
            \"foo\": [null, false, true
        },
    \"2\": {}
}
";
    assert_eq!(
        fault(unclosed),
        "unexpected character (Some('}')) at line: 5, column: 9 "
    );
}

#[test]
fn no_text_reads_as_not_implemented() {
    for input in ["", "[", "{", "\"", "x", "1 ", "nul"] {
        assert_ne!(Json::from_str(input), Err(JsonError::NotImplemented));
        assert!(Json::from_str(input).is_err());
    }
}
