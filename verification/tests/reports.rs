use json_parser::text::{
    misplaced_token_report, missing_colon_report, number_range_report, push_decimal, shown_some,
    shown_token, stray_token_report,
};

fn decimal(n: usize) -> String {
    let mut text = String::new();
    push_decimal(&mut text, n);
    text
}

#[test]
fn decimal_notation_of_small_and_large_numbers() {
    assert_eq!(decimal(0), "0");
    assert_eq!(decimal(9), "9");
    assert_eq!(decimal(10), "10");
    assert_eq!(decimal(109), "109");
    assert_eq!(decimal(1234567890), "1234567890");
    assert_eq!(decimal(usize::MAX), usize::MAX.to_string());
}

#[test]
fn decimal_notation_is_appended() {
    let mut text = "line: ".to_string();
    push_decimal(&mut text, 42);
    assert_eq!(text, "line: 42");
}

#[test]
fn token_is_shown_as_an_option() {
    assert_eq!(shown_token(None), "None");
    assert_eq!(shown_token(Some('a')), "Some('a')");
    assert_eq!(shown_token(Some('\n')), "Some('\\n')");
    assert_eq!(shown_token(Some('"')), "Some('\"')");
    assert_eq!(shown_token(Some('\\')), "Some('\\\\')");
    assert_eq!(shown_some("'q'"), "Some('q')");
}

#[test]
fn reports_quote_token_line_and_column() {
    assert_eq!(
        stray_token_report("Some('x')", 3, 14),
        "unexpected character (Some('x')) at line: 3, column: 14 "
    );
    assert_eq!(
        misplaced_token_report("None", 0, 2),
        "Unexpected character (None) at line: 0, column: 2."
    );
    assert_eq!(
        missing_colon_report("Some(' ')", 10, 0),
        "Expected to find ':', but found: Some(' ') at line: 10, column: 0."
    );
}

#[test]
fn number_report_quotes_the_digits() {
    assert_eq!(number_range_report("123"), "Couldn't parse number: 123");
}
