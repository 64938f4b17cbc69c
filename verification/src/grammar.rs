//! The accepted language, as spec functions from a text to what reading it
//! gives.
//!
//! A text is read token by token. Taking a token when none is left yields
//! the end-of-input token `None`; that step counts too, so a position is the
//! number of tokens taken so far, `0` before the first. The current token is
//! the one taken last. Every function here returns what it read together
//! with the position at which it stopped, or the report of the fault that
//! stopped it.

use vstd::prelude::*;
use crate::text::{
    end_of_input_message, escape_message, literal_message, misplaced_token_message,
    missing_colon_message, number_range_message, stray_token_message, token_text,
};
use crate::value::JsonValue;

verus! {

/// The token that the `taken`-th step yields: a character of the text, or
/// `None` before the first step and at the end of the text.
pub open spec fn token_at(input: Seq<char>, taken: nat) -> Option<char> {
    if 1 <= taken <= input.len() {
        Some(input[taken - 1])
    } else {
        None
    }
}

/// The line counter after `taken` steps: the number of newlines taken.
pub open spec fn line_at(input: Seq<char>, taken: nat) -> nat
    decreases taken,
{
    if taken == 0 {
        0
    } else if token_at(input, taken) == Some('\n') {
        line_at(input, (taken - 1) as nat) + 1
    } else {
        line_at(input, (taken - 1) as nat)
    }
}

/// The column counter after `taken` steps: the number of steps since the last
/// newline, the end-of-input step included.
pub open spec fn column_at(input: Seq<char>, taken: nat) -> nat
    decreases taken,
{
    if taken == 0 {
        0
    } else if token_at(input, taken) == Some('\n') {
        0
    } else {
        column_at(input, (taken - 1) as nat) + 1
    }
}

/// How many steps can still yield a character or the end of the input.
pub open spec fn steps_left(input: Seq<char>, taken: nat) -> nat {
    if taken <= input.len() {
        (input.len() + 1 - taken) as nat
    } else {
        0
    }
}

/// Space and newline are the only blanks.
pub open spec fn is_blank(token: Option<char>) -> bool {
    token == Some(' ') || token == Some('\n')
}

/// `'0'` to `'9'`.
pub open spec fn is_digit(c: char) -> bool {
    '0' <= c <= '9'
}

/// The length of the run of blanks that starts with the current token.
pub open spec fn blank_run(input: Seq<char>, taken: nat) -> nat
    decreases steps_left(input, taken),
{
    if is_blank(token_at(input, taken)) {
        1 + blank_run(input, taken + 1)
    } else {
        0
    }
}

/// The position of the last character of a literal whose first character is
/// the current token and whose other characters are `rest`.
pub open spec fn literal_end(input: Seq<char>, taken: nat, rest: Seq<char>) -> Result<nat, Seq<char>>
    decreases rest.len(),
{
    if rest.len() == 0 {
        Ok(taken)
    } else if token_at(input, taken + 1) == Some(rest[0]) {
        literal_end(input, taken + 1, rest.drop_first())
    } else {
        Err(literal_message())
    }
}

/// The rest of a string whose characters up to the current token gave `text`:
/// the final text, and the position of the closing quote.
///
/// `escaped` holds when the current token is a backslash that starts an
/// escape. A string never ends at the end of the input.
pub open spec fn string_tail(input: Seq<char>, taken: nat, escaped: bool, text: Seq<char>) -> Result<
    (Seq<char>, nat),
    Seq<char>,
>
    decreases steps_left(input, taken),
{
    match token_at(input, taken + 1) {
        None => Err(end_of_input_message()),
        Some(c) => if escaped {
            if c == '"' || c == '\\' {
                string_tail(input, taken + 1, false, text.push(c))
            } else {
                Err(escape_message())
            }
        } else {
            if c == '"' {
                Ok((text, taken + 1))
            } else if c == '\\' {
                string_tail(input, taken + 1, true, text)
            } else {
                string_tail(input, taken + 1, false, text.push(c))
            }
        },
    }
}

/// The string whose opening quote is the current token.
pub open spec fn string_from(input: Seq<char>, taken: nat) -> Result<(Seq<char>, nat), Seq<char>> {
    string_tail(input, taken, false, Seq::empty())
}

/// The rest of a digit run whose digits up to the current token are `digits`:
/// all its digits, and the position of the token that ends it.
///
/// Only a comma ends a digit run, or the end of the input where that is
/// allowed.
pub open spec fn digits_tail(input: Seq<char>, taken: nat, eof_allowed: bool, digits: Seq<char>) -> Result<
    (Seq<char>, nat),
    Seq<char>,
>
    decreases steps_left(input, taken),
{
    match token_at(input, taken + 1) {
        None => if eof_allowed {
            Ok((digits, taken + 1))
        } else {
            Err(end_of_input_message())
        },
        Some(c) => if is_digit(c) {
            digits_tail(input, taken + 1, eof_allowed, digits.push(c))
        } else if c == ',' {
            Ok((digits, taken + 1))
        } else {
            Err(
                stray_token_message(
                    token_text(Some(c)),
                    line_at(input, taken + 1),
                    column_at(input, taken + 1),
                ),
            )
        },
    }
}

/// The number that a digit stands for.
pub open spec fn digit_value(c: char) -> nat {
    (c as nat - 48) as nat
}

/// The number that a run of digits stands for in decimal notation.
pub open spec fn decimal_value(digits: Seq<char>) -> nat
    decreases digits.len(),
{
    if digits.len() == 0 {
        0
    } else {
        decimal_value(digits.drop_last()) * 10 + digit_value(digits.last())
    }
}

/// The number whose first digit is the current token, and the position of the
/// token that ends it.
pub open spec fn number_from(input: Seq<char>, taken: nat, eof_allowed: bool) -> Result<
    (nat, nat),
    Seq<char>,
> {
    match digits_tail(input, taken, eof_allowed, seq![token_at(input, taken)->0]) {
        Err(message) => Err(message),
        Ok((digits, end)) => if decimal_value(digits) <= usize::MAX {
            Ok((decimal_value(digits), end))
        } else {
            Err(number_range_message(digits))
        },
    }
}

/// A value that was read, and the state in which reading it left the reader.
pub struct Parsed {
    /// The value.
    pub value: JsonValue,
    /// The position of the value's last token; for a number, of the token
    /// that ends it.
    pub taken: nat,
    /// Whether the end of the input may still end a number: no longer once
    /// an array or an object was entered.
    pub eof_allowed: bool,
}

/// The value that starts at the current token or after the blanks that start
/// there.
pub open spec fn value_from(input: Seq<char>, taken: nat, eof_allowed: bool) -> Result<Parsed, Seq<char>>
    decreases steps_left(input, taken), 1int,
{
    let start: nat = taken + blank_run(input, taken);
    match token_at(input, start) {
        None => Err(end_of_input_message()),
        Some(c) => if c == 'n' {
            match literal_end(input, start, "ull"@) {
                Ok(end) => Ok(Parsed { value: JsonValue::Null, taken: end, eof_allowed }),
                Err(message) => Err(message),
            }
        } else if c == 't' {
            match literal_end(input, start, "rue"@) {
                Ok(end) => Ok(Parsed { value: JsonValue::Boolean(true), taken: end, eof_allowed }),
                Err(message) => Err(message),
            }
        } else if c == 'f' {
            match literal_end(input, start, "alse"@) {
                Ok(end) => Ok(Parsed { value: JsonValue::Boolean(false), taken: end, eof_allowed }),
                Err(message) => Err(message),
            }
        } else if c == '"' {
            match string_from(input, start) {
                Ok((text, end)) => Ok(Parsed { value: JsonValue::String(text), taken: end, eof_allowed }),
                Err(message) => Err(message),
            }
        } else if c == '[' {
            match array_tail(input, start, Seq::empty()) {
                Ok((items, end)) => Ok(
                    Parsed { value: JsonValue::Array(items), taken: end, eof_allowed: false },
                ),
                Err(message) => Err(message),
            }
        } else if c == '{' {
            match object_tail(input, start, Map::empty()) {
                Ok((members, end)) => Ok(
                    Parsed { value: JsonValue::Object(members), taken: end, eof_allowed: false },
                ),
                Err(message) => Err(message),
            }
        } else if is_digit(c) {
            match number_from(input, start, eof_allowed) {
                Ok((n, end)) => Ok(Parsed { value: JsonValue::Number(n), taken: end, eof_allowed }),
                Err(message) => Err(message),
            }
        } else {
            Err(stray_token_message(token_text(Some(c)), line_at(input, start), column_at(input, start)))
        },
    }
}

/// The rest of an array whose elements up to the current token are `items`:
/// all its elements, and the position of the closing bracket.
///
/// Commas are skipped wherever they stand; blanks are skipped only in front
/// of an element. That an element ends behind the current token always
/// holds ([`lemma_value_end`]); the test shows that the definition is well
/// founded.
pub open spec fn array_tail(input: Seq<char>, taken: nat, items: Seq<JsonValue>) -> Result<
    (Seq<JsonValue>, nat),
    Seq<char>,
>
    decreases steps_left(input, taken), 0int,
{
    match token_at(input, taken + 1) {
        None => Err(
            misplaced_token_message(
                token_text(None),
                line_at(input, taken + 1),
                column_at(input, taken + 1),
            ),
        ),
        Some(c) => if c == ']' {
            Ok((items, taken + 1))
        } else if c == ',' {
            array_tail(input, taken + 1, items)
        } else {
            match value_from(input, taken + 1, false) {
                Err(message) => Err(message),
                Ok(element) => if element.taken > taken {
                    array_tail(input, element.taken, items.push(element.value))
                } else {
                    Err(Seq::empty())
                },
            }
        },
    }
}

/// The key whose opening quote is the current token, and the position of
/// the colon, which must stand right behind the closing quote.
pub open spec fn key_from(input: Seq<char>, taken: nat) -> Result<(Seq<char>, nat), Seq<char>> {
    match string_from(input, taken) {
        Err(message) => Err(message),
        Ok((name, quote)) => if token_at(input, quote + 1) == Some(':') {
            Ok((name, quote + 1))
        } else {
            Err(
                missing_colon_message(
                    token_text(token_at(input, quote + 1)),
                    line_at(input, quote + 1),
                    column_at(input, quote + 1),
                ),
            )
        },
    }
}

/// The member whose key starts at the current token: the key, and the value
/// that starts behind the colon.
pub open spec fn member_from(input: Seq<char>, taken: nat) -> Result<(Seq<char>, Parsed), Seq<char>>
    decreases steps_left(input, taken), 0int,
{
    match key_from(input, taken) {
        Err(message) => Err(message),
        Ok((name, colon)) => {
            proof {
                lemma_string_tail_end(input, taken, false, Seq::empty());
            }
            match value_from(input, colon + 1, false) {
                Err(message) => Err(message),
                Ok(parsed) => Ok((name, parsed)),
            }
        },
    }
}

/// The rest of an object whose members up to the current token are
/// `members`: all its members, and the position of the closing brace.
///
/// Blanks are skipped in front of a member, a comma and the closing brace;
/// commas are skipped wherever they stand. A key that comes again replaces
/// the value it had. That a member ends behind the current token always
/// holds ([`lemma_member_end`]); the test shows that the definition is well
/// founded.
pub open spec fn object_tail(input: Seq<char>, taken: nat, members: Map<Seq<char>, JsonValue>) -> Result<
    (Map<Seq<char>, JsonValue>, nat),
    Seq<char>,
>
    decreases steps_left(input, taken), 0int,
{
    let start: nat = taken + 1 + blank_run(input, taken + 1);
    match token_at(input, start) {
        None => Err(end_of_input_message()),
        Some(c) => if c == '}' {
            Ok((members, start))
        } else if c == ',' {
            object_tail(input, start, members)
        } else if c == '"' {
            match member_from(input, start) {
                Err(message) => Err(message),
                Ok((name, parsed)) => if parsed.taken > taken {
                    object_tail(input, parsed.taken, members.insert(name, parsed.value))
                } else {
                    Err(Seq::empty())
                },
            }
        } else {
            Err(misplaced_token_message(token_text(Some(c)), line_at(input, start), column_at(input, start)))
        },
    }
}

/// What reading a whole text gives: its first value, whatever follows it, or
/// the report of the first fault.
pub open spec fn first_value(input: Seq<char>) -> Result<JsonValue, Seq<char>> {
    match value_from(input, 1, true) {
        Ok(parsed) => Ok(parsed.value),
        Err(message) => Err(message),
    }
}

/// Neither counter runs ahead of the number of steps.
pub proof fn lemma_position_bound(input: Seq<char>, taken: nat)
    ensures
        line_at(input, taken) + column_at(input, taken) <= taken,
    decreases taken,
{
    if taken > 0 {
        lemma_position_bound(input, (taken - 1) as nat);
    }
}

/// A literal ends where it starts or later, at a character of the text.
pub proof fn lemma_literal_end(input: Seq<char>, taken: nat, rest: Seq<char>)
    requires
        token_at(input, taken) is Some,
    ensures
        literal_end(input, taken, rest) matches Ok(end) ==> taken <= end && token_at(input, end) is Some,
    decreases rest.len(),
{
    if rest.len() > 0 && token_at(input, taken + 1) == Some(rest[0]) {
        lemma_literal_end(input, taken + 1, rest.drop_first());
    }
}

/// A string ends behind the token at which it starts.
pub proof fn lemma_string_tail_end(input: Seq<char>, taken: nat, escaped: bool, text: Seq<char>)
    ensures
        string_tail(input, taken, escaped, text) matches Ok((_, quote)) ==> taken < quote
            <= input.len(),
    decreases steps_left(input, taken),
{
    match token_at(input, taken + 1) {
        None => {},
        Some(c) => {
            if escaped {
                if c == '"' || c == '\\' {
                    lemma_string_tail_end(input, taken + 1, false, text.push(c));
                }
            } else {
                if c == '"' {
                } else if c == '\\' {
                    lemma_string_tail_end(input, taken + 1, true, text);
                } else {
                    lemma_string_tail_end(input, taken + 1, false, text.push(c));
                }
            }
        },
    }
}

/// A digit run ends behind the token at which it starts, and at the end of
/// the input only where that is allowed.
pub proof fn lemma_digits_tail_end(input: Seq<char>, taken: nat, eof_allowed: bool, digits: Seq<char>)
    ensures
        digits_tail(input, taken, eof_allowed, digits) matches Ok((_, end)) ==> taken < end && (
        token_at(input, end) is Some || eof_allowed),
    decreases steps_left(input, taken),
{
    match token_at(input, taken + 1) {
        Some(c) => {
            if '0' <= c <= '9' {
                lemma_digits_tail_end(input, taken + 1, eof_allowed, digits.push(c));
            }
        },
        None => {},
    }
}

/// A value ends where it is looked for or later. It ends at a character of
/// the text, unless it is a number that the end of the input may end. The
/// end of the input may end a later number only if it might have ended this
/// value.
pub proof fn lemma_value_end(input: Seq<char>, taken: nat, eof_allowed: bool)
    ensures
        value_from(input, taken, eof_allowed) matches Ok(parsed) ==> {
            &&& taken + blank_run(input, taken) <= parsed.taken
            &&& token_at(input, parsed.taken) is Some || parsed.eof_allowed
            &&& parsed.eof_allowed ==> eof_allowed
        },
    decreases steps_left(input, taken), 1int,
{
    let start: nat = taken + blank_run(input, taken);
    match token_at(input, start) {
        None => {},
        Some(c) => {
            if c == 'n' {
                lemma_literal_end(input, start, "ull"@);
            } else if c == 't' {
                lemma_literal_end(input, start, "rue"@);
            } else if c == 'f' {
                lemma_literal_end(input, start, "alse"@);
            } else if c == '"' {
                lemma_string_tail_end(input, start, false, Seq::empty());
            } else if c == '[' {
                lemma_array_tail_end(input, start, Seq::empty());
            } else if c == '{' {
                lemma_object_tail_end(input, start, Map::empty());
            } else if '0' <= c <= '9' {
                lemma_digits_tail_end(input, start, eof_allowed, seq![c]);
            }
        },
    }
}

/// An array ends behind the token at which it starts, at a character of the
/// text.
pub proof fn lemma_array_tail_end(input: Seq<char>, taken: nat, items: Seq<JsonValue>)
    ensures
        array_tail(input, taken, items) matches Ok((_, end)) ==> taken < end && token_at(input, end) is Some,
    decreases steps_left(input, taken), 0int,
{
    match token_at(input, taken + 1) {
        None => {},
        Some(c) => {
            if c == ']' {
            } else if c == ',' {
                lemma_array_tail_end(input, taken + 1, items);
            } else {
                lemma_value_end(input, taken + 1, false);
                match value_from(input, taken + 1, false) {
                    Ok(element) => {
                        lemma_array_tail_end(input, element.taken, items.push(element.value));
                    },
                    Err(_) => {},
                }
            }
        },
    }
}

/// A member ends behind the token at which it starts, at a character of the
/// text.
pub proof fn lemma_member_end(input: Seq<char>, taken: nat)
    ensures
        member_from(input, taken) matches Ok((_, parsed)) ==> taken < parsed.taken && token_at(
            input,
            parsed.taken,
        ) is Some && !parsed.eof_allowed,
    decreases steps_left(input, taken), 0int,
{
    lemma_string_tail_end(input, taken, false, Seq::empty());
    match key_from(input, taken) {
        Ok((_, colon)) => {
            lemma_value_end(input, colon + 1, false);
        },
        Err(_) => {},
    }
}

/// An object ends behind the token at which it starts, at a character of the
/// text.
pub proof fn lemma_object_tail_end(input: Seq<char>, taken: nat, members: Map<Seq<char>, JsonValue>)
    ensures
        object_tail(input, taken, members) matches Ok((_, end)) ==> taken < end && token_at(input, end) is Some,
    decreases steps_left(input, taken), 0int,
{
    let start: nat = taken + 1 + blank_run(input, taken + 1);
    match token_at(input, start) {
        None => {},
        Some(c) => {
            if c == '}' {
            } else if c == ',' {
                lemma_object_tail_end(input, start, members);
            } else if c == '"' {
                lemma_member_end(input, start);
                match member_from(input, start) {
                    Ok((name, parsed)) => {
                        lemma_object_tail_end(input, parsed.taken, members.insert(name, parsed.value));
                    },
                    Err(_) => {},
                }
            }
        },
    }
}

} // verus!
