//! The texts of the error reports, and the decimal notation they use.

use vstd::prelude::*;

verus! {

/// The character that shows the digit `d`, for `d` below ten.
pub open spec fn digit_char(d: nat) -> char {
    (48 + d) as char
}

/// The decimal notation of `n`, without leading zeros.
pub open spec fn decimal_text(n: nat) -> Seq<char>
    decreases n,
{
    if n < 10 {
        seq![digit_char(n)]
    } else {
        decimal_text(n / 10).push(digit_char(n % 10))
    }
}

/// What `{:?}` prints for a character: the character between single quotes,
/// escaped where it is not printable.
pub uninterp spec fn char_debug_text(c: char) -> Seq<char>;

/// How a report shows a token that is a character, given how the character
/// itself is shown.
pub open spec fn some_text(inner: Seq<char>) -> Seq<char> {
    "Some("@ + inner + ")"@
}

/// How a report shows the token that was found: as `{:?}` prints an
/// `Option<char>`.
pub open spec fn token_text(token: Option<char>) -> Seq<char> {
    match token {
        Some(c) => some_text(char_debug_text(c)),
        None => "None"@,
    }
}

/// The report of a value that starts with a character no value starts with,
/// or of a number followed by a character that may not follow it.
pub open spec fn stray_token_message(shown: Seq<char>, line: nat, column: nat) -> Seq<char> {
    "unexpected character ("@ + shown + ") at line: "@ + decimal_text(line) + ", column: "@
        + decimal_text(column) + " "@
}

/// The report of a token that cannot stand where an array element or an
/// object member is expected.
pub open spec fn misplaced_token_message(shown: Seq<char>, line: nat, column: nat) -> Seq<char> {
    "Unexpected character ("@ + shown + ") at line: "@ + decimal_text(line) + ", column: "@
        + decimal_text(column) + "."@
}

/// The report of an object key that is not followed by a colon.
pub open spec fn missing_colon_message(shown: Seq<char>, line: nat, column: nat) -> Seq<char> {
    "Expected to find ':', but found: "@ + shown + " at line: "@ + decimal_text(line)
        + ", column: "@ + decimal_text(column) + "."@
}

/// The report of a text that ends inside a value.
pub open spec fn end_of_input_message() -> Seq<char> {
    "Unexpected eof."@
}

/// The report of a backslash followed by anything but `"` or `\`.
pub open spec fn escape_message() -> Seq<char> {
    "escape error."@
}

/// The report of a misspelt `null`, `true` or `false`.
pub open spec fn literal_message() -> Seq<char> {
    "woot"@
}

/// The report of a digit run that stands for a number above `usize::MAX`.
pub open spec fn number_range_message(digits: Seq<char>) -> Seq<char> {
    "Couldn't parse number: "@ + digits
}

/// `std::string::String::push` appends one character and changes nothing else.
pub assume_specification[ std::string::String::push ](s: &mut std::string::String, ch: char)
    ensures
        final(s)@ == old(s)@.push(ch),
;

/// Calls `<char as std::fmt::Debug>::fmt` through `format!`; the result is
/// known only by its name, [`char_debug_text`].
#[verifier::external_body]
fn char_debug(c: char) -> (shown: String)
    ensures
        shown@ == char_debug_text(c),
{
    format!("{:?}", c)
}

/// Appends the decimal notation of `n` to `text`.
pub fn push_decimal(text: &mut String, n: usize)
    ensures
        final(text)@ == old(text)@ + decimal_text(n as nat),
    decreases n,
{
    if n >= 10 {
        push_decimal(text, n / 10);
    }
    let d: u8 = (n % 10) as u8;
    text.push((48 + d) as char);
}

/// The text that shows a token that is a character, given the text that
/// shows the character.
pub fn shown_some(inner: &str) -> (shown: String)
    ensures
        shown@ == some_text(inner@),
{
    let mut shown = "Some(".to_owned();
    shown.append(inner);
    shown.append(")");
    shown
}

/// The text that shows `token` in a report.
pub fn shown_token(token: Option<char>) -> (shown: String)
    ensures
        shown@ == token_text(token),
{
    match token {
        Some(c) => shown_some(char_debug(c).as_str()),
        None => "None".to_owned(),
    }
}

/// Puts together a report that quotes a token and its position.
fn located(
    head: &str,
    shown: &str,
    middle: &str,
    line: usize,
    column: usize,
    tail: &str,
) -> (message: String)
    ensures
        message@ == head@ + shown@ + middle@ + decimal_text(line as nat) + ", column: "@
            + decimal_text(column as nat) + tail@,
{
    let mut message = head.to_owned();
    message.append(shown);
    message.append(middle);
    push_decimal(&mut message, line);
    message.append(", column: ");
    push_decimal(&mut message, column);
    message.append(tail);
    message
}

/// Builds [`stray_token_message`] for a token already shown as text.
pub fn stray_token_report(shown: &str, line: usize, column: usize) -> (message: String)
    ensures
        message@ == stray_token_message(shown@, line as nat, column as nat),
{
    located("unexpected character (", shown, ") at line: ", line, column, " ")
}

/// Builds [`misplaced_token_message`] for a token already shown as text.
pub fn misplaced_token_report(shown: &str, line: usize, column: usize) -> (message: String)
    ensures
        message@ == misplaced_token_message(shown@, line as nat, column as nat),
{
    located("Unexpected character (", shown, ") at line: ", line, column, ".")
}

/// Builds [`missing_colon_message`] for a token already shown as text.
pub fn missing_colon_report(shown: &str, line: usize, column: usize) -> (message: String)
    ensures
        message@ == missing_colon_message(shown@, line as nat, column as nat),
{
    located("Expected to find ':', but found: ", shown, " at line: ", line, column, ".")
}

/// Builds [`number_range_message`] for the digits that were read.
pub fn number_range_report(digits: &str) -> (message: String)
    ensures
        message@ == number_range_message(digits@),
{
    let mut message = "Couldn't parse number: ".to_owned();
    message.append(digits);
    message
}

} // verus!
