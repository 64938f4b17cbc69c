//! What holds of every text: reading is a function of the text, a fault
//! inside a container is the fault of the container, and a container that
//! was read holds all that was read into it. Then what the smaller parts of
//! the language are, said without recursion where that can be done.

use vstd::prelude::*;
use vstd::std_specs::cmp::PartialEqSpec;
use crate::grammar::{
    array_tail, blank_run, column_at, decimal_value, digits_tail, first_value, is_blank, is_digit,
    lemma_member_end, lemma_value_end, line_at, literal_end, member_from, object_tail,
    steps_left, token_at, value_from,
};
use crate::text::{decimal_text, digit_char, literal_message};
use crate::value::{is_outcome, Json, JsonError, JsonValue};

verus! {

/// Reading is a function of the text: two results of reading one text are
/// the same value, and `==` holds of them, or they are the same report.
pub proof fn lemma_reading_is_deterministic(
    input: Seq<char>,
    first: Result<Json, JsonError>,
    second: Result<Json, JsonError>,
)
    requires
        is_outcome(first, first_value(input)),
        is_outcome(second, first_value(input)),
    ensures
        match (first, second) {
            (Ok(a), Ok(b)) => a@ == b@ && a.eq_spec(&b),
            (Err(JsonError::ParseError(a)), Err(JsonError::ParseError(b))) => a@ == b@,
            _ => false,
        },
{
}

/// A result of reading is a value exactly if the text holds one, and a
/// report otherwise: no value stands in for a fault.
pub proof fn lemma_fault_is_reported(input: Seq<char>, result: Result<Json, JsonError>)
    requires
        is_outcome(result, first_value(input)),
    ensures
        result is Ok <==> value_from(input, 1, true) is Ok,
        result is Err ==> result != Err::<Json, JsonError>(JsonError::NotImplemented),
{
}

/// A fault in an element is the fault of the array.
pub proof fn lemma_element_fault(input: Seq<char>, taken: nat, items: Seq<JsonValue>)
    requires
        token_at(input, taken + 1) matches Some(c) && c != ']' && c != ',',
        value_from(input, taken + 1, false) is Err,
    ensures
        array_tail(input, taken, items) == Err::<(Seq<JsonValue>, nat), Seq<char>>(
            value_from(input, taken + 1, false)->Err_0,
        ),
{
}

/// A fault in a member is the fault of the object.
pub proof fn lemma_member_fault(input: Seq<char>, taken: nat, members: Map<Seq<char>, JsonValue>)
    requires
        token_at(input, taken + 1 + blank_run(input, taken + 1)) == Some('"'),
        member_from(input, taken + 1 + blank_run(input, taken + 1)) is Err,
    ensures
        object_tail(input, taken, members) == Err::<(Map<Seq<char>, JsonValue>, nat), Seq<char>>(
            member_from(input, taken + 1 + blank_run(input, taken + 1))->Err_0,
        ),
{
}

/// An object that was read holds the keys that were read before: none is
/// dropped.
pub proof fn lemma_object_keeps_keys(input: Seq<char>, taken: nat, members: Map<Seq<char>, JsonValue>)
    ensures
        object_tail(input, taken, members) matches Ok((all, _)) ==> members.dom().subset_of(all.dom()),
    decreases steps_left(input, taken),
{
    let start: nat = taken + 1 + blank_run(input, taken + 1);
    match token_at(input, start) {
        None => {},
        Some(c) => {
            if c == '}' {
            } else if c == ',' {
                lemma_object_keeps_keys(input, start, members);
            } else if c == '"' {
                lemma_member_end(input, start);
                match member_from(input, start) {
                    Ok((name, parsed)) => {
                        lemma_object_keeps_keys(input, parsed.taken, members.insert(name, parsed.value));
                    },
                    Err(_) => {},
                }
            }
        },
    }
}

/// An array that was read holds, in front and in their order, the elements
/// that were read before: none is dropped.
pub proof fn lemma_array_keeps_items(input: Seq<char>, taken: nat, items: Seq<JsonValue>)
    ensures
        array_tail(input, taken, items) matches Ok((all, _)) ==> items.is_prefix_of(all),
    decreases steps_left(input, taken),
{
    match token_at(input, taken + 1) {
        None => {},
        Some(c) => {
            if c == ']' {
            } else if c == ',' {
                lemma_array_keeps_items(input, taken + 1, items);
            } else {
                lemma_value_end(input, taken + 1, false);
                match value_from(input, taken + 1, false) {
                    Ok(element) => {
                        lemma_array_keeps_items(input, element.taken, items.push(element.value));
                    },
                    Err(_) => {},
                }
            }
        },
    }
}

/// The column is the number of steps since the last newline, and the line
/// does not change where no newline is taken.
pub proof fn lemma_column_since_newline(input: Seq<char>, from: nat, taken: nat)
    requires
        from <= taken,
        from == 0 || token_at(input, from) == Some('\n'),
        forall|at: nat| from < at <= taken ==> token_at(input, at) != Some('\n'),
    ensures
        column_at(input, taken) == taken - from,
        line_at(input, taken) == line_at(input, from),
    decreases taken - from,
{
    if from < taken {
        lemma_column_since_newline(input, from, (taken - 1) as nat);
    }
}

/// A run of blanks is as long as it can be: it holds blanks only, and the
/// token behind it is no blank.
pub proof fn lemma_blank_run(input: Seq<char>, taken: nat)
    ensures
        forall|at: nat| taken <= at < taken + blank_run(input, taken) ==> is_blank(token_at(input, at)),
        !is_blank(token_at(input, taken + blank_run(input, taken))),
    decreases steps_left(input, taken),
{
    if is_blank(token_at(input, taken)) {
        lemma_blank_run(input, taken + 1);
    }
}

/// A digit run holds the digits before it and the characters up to the
/// token that ends it, which are all digits; it is ended by a comma, or by
/// the end of the input where that is allowed.
pub proof fn lemma_digit_run(input: Seq<char>, taken: nat, eof_allowed: bool, digits: Seq<char>)
    requires
        taken <= input.len(),
    ensures
        digits_tail(input, taken, eof_allowed, digits) matches Ok((all, end)) ==> {
            &&& taken < end <= input.len() + 1
            &&& all == digits + input.subrange(taken as int, end - 1)
            &&& forall|i: int| taken <= i < end - 1 ==> is_digit(#[trigger] input[i])
            &&& token_at(input, end) == Some(',') || (token_at(input, end) is None && eof_allowed)
        },
    decreases steps_left(input, taken),
{
    match token_at(input, taken + 1) {
        Some(c) => {
            if is_digit(c) {
                lemma_digit_run(input, taken + 1, eof_allowed, digits.push(c));
                match digits_tail(input, taken, eof_allowed, digits) {
                    Ok((all, end)) => {
                        assert(digits.push(c) + input.subrange((taken + 1) as int, end - 1) =~= digits
                            + input.subrange(taken as int, end - 1));
                    },
                    Err(_) => {},
                }
            } else if c == ',' {
                assert(digits + input.subrange(taken as int, taken as int) =~= digits);
            }
        },
        None => {
            assert(digits + input.subrange(taken as int, taken as int) =~= digits);
        },
    }
}

/// The characters of a literal must follow its first character one by one:
/// a literal is read exactly where the text holds `rest` behind the current
/// token, and it ends with the last of them.
pub proof fn lemma_literal_is_subrange(input: Seq<char>, taken: nat, rest: Seq<char>)
    requires
        taken <= input.len(),
    ensures
        literal_end(input, taken, rest) == if taken + rest.len() <= input.len() && input.subrange(
            taken as int,
            (taken + rest.len()) as int,
        ) == rest {
            Ok::<nat, Seq<char>>(taken + rest.len())
        } else {
            Err::<nat, Seq<char>>(literal_message())
        },
    decreases rest.len(),
{
    if rest.len() == 0 {
        assert(input.subrange(taken as int, taken as int) =~= rest);
    } else if taken < input.len() {
        let tail = rest.drop_first();
        lemma_literal_is_subrange(input, taken + 1, tail);
        if taken + rest.len() <= input.len() {
            let here = input.subrange(taken as int, (taken + rest.len()) as int);
            let there = input.subrange((taken + 1) as int, (taken + 1 + tail.len()) as int);
            assert(here[0] == input[taken as int]);
            if here == rest {
                assert(there =~= tail);
            }
            if token_at(input, taken + 1) == Some(rest[0]) && there == tail {
                assert forall|i: int| 0 <= i < rest.len() implies here[i] == rest[i] by {
                    if i > 0 {
                        assert(here[i] == there[i - 1]);
                        assert(rest[i] == tail[i - 1]);
                    }
                }
                assert(here =~= rest);
            }
        }
    }
}

/// The decimal notation of a number stands for that number.
pub proof fn lemma_decimal_round_trip(n: nat)
    ensures
        decimal_value(decimal_text(n)) == n,
    decreases n,
{
    reveal_with_fuel(decimal_value, 2);
    if n < 10 {
        assert(decimal_text(n).drop_last() =~= Seq::<char>::empty());
    } else {
        lemma_decimal_round_trip(n / 10);
        assert(decimal_text(n).drop_last() =~= decimal_text(n / 10));
        assert(decimal_text(n).last() == digit_char(n % 10));
    }
}

} // verus!
