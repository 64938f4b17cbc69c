//! The reader: a cursor over the tokens of a text and one routine for each
//! kind of value, each proved to return what [`crate::grammar`] says.

use vstd::prelude::*;
use crate::grammar::{
    array_tail, blank_run, column_at, decimal_value, digit_value, digits_tail, first_value, is_blank,
    is_digit, key_from, lemma_member_end, lemma_position_bound, lemma_string_tail_end,
    lemma_value_end, line_at, literal_end, member_from, number_from, object_tail, steps_left,
    string_from, string_tail, token_at, value_from,
};
use crate::text::{
    misplaced_token_report, missing_colon_report, number_range_report, shown_token,
    stray_token_report,
};
use crate::value::{
    is_outcome, lemma_values_of_push, values_of, Json, JsonError, JsonObject, JsonValue,
};

verus! {

/// A cursor over the tokens of a text, with the counters that the reports
/// quote.
struct JsonBuilder {
    /// The characters of the text, then the end-of-input token. With that
    /// token stored, the number of steps is at most the length of a vector,
    /// and the counters cannot overflow.
    tokens: Vec<Option<char>>,
    /// How many tokens were taken.
    taken: usize,
    /// The token taken last.
    token: Option<char>,
    /// Steps since the last newline.
    column: usize,
    /// Newlines taken.
    line: usize,
    /// Whether the end of the input may end a number.
    eof_allowed: bool,
}

/// Whether `token` is a space or a newline.
fn is_blank_token(token: Option<char>) -> (blank: bool)
    ensures
        blank == is_blank(token),
{
    match token {
        Some(c) => c == ' ' || c == '\n',
        None => false,
    }
}

/// Whether `c` is a decimal digit.
fn is_digit_char(c: char) -> (digit: bool)
    ensures
        digit == is_digit(c),
{
    '0' <= c && c <= '9'
}

/// The number that the digit `c` stands for.
fn digit_of(c: char) -> (d: usize)
    requires
        is_digit(c),
    ensures
        d == digit_value(c),
        d <= 9,
{
    (c as u8 - 48) as usize
}

impl JsonBuilder {
    /// The text that is read.
    spec fn input(self) -> Seq<char> {
        Seq::new((self.tokens.len() - 1) as nat, |i: int| self.tokens[i]->0)
    }

    /// The tokens are a text and its end, and the other fields are what the
    /// position makes them.
    spec fn wf(self) -> bool {
        &&& self.tokens.len() >= 1
        &&& forall|i: int| 0 <= i < self.tokens.len() - 1 ==> (#[trigger] self.tokens[i]) is Some
        &&& self.tokens[self.tokens.len() - 1] is None
        &&& self.taken <= self.tokens.len()
        &&& self.token == token_at(self.input(), self.taken as nat)
        &&& self.line == line_at(self.input(), self.taken as nat)
        &&& self.column == column_at(self.input(), self.taken as nat)
    }

    /// The cursor reads the text that `before` reads, and stands at `taken`.
    spec fn at(self, before: JsonBuilder, taken: nat, eof_allowed: bool) -> bool {
        &&& self.wf()
        &&& self.tokens == before.tokens
        &&& self.taken == taken
        &&& self.eof_allowed == eof_allowed
    }

    /// How many steps the cursor can still take.
    spec fn left(self) -> nat {
        steps_left(self.input(), self.taken as nat)
    }

    /// A cursor in front of the first token of `input`.
    fn new(input: &str) -> (builder: JsonBuilder)
        ensures
            builder.wf(),
            builder.input() == input@,
            builder.taken == 0,
            builder.eof_allowed,
    {
        let mut tokens: Vec<Option<char>> = Vec::new();
        for c in chars: input.chars()
            invariant
                chars.seq() == input@,
                tokens@.len() == chars.index(),
                forall|i: int| 0 <= i < tokens@.len() ==> tokens@[i] == Some(input@[i]),
        {
            tokens.push(Some(c));
        }
        tokens.push(None);
        let builder = JsonBuilder { tokens, taken: 0, token: None, column: 0, line: 0, eof_allowed: true };
        assert(builder.input() =~= input@);
        builder
    }

    /// Reads the first value of the text.
    fn build(self) -> (r: Result<Json, JsonError>)
        requires
            self.wf(),
            self.taken == 0,
            self.eof_allowed,
        ensures
            is_outcome(r, first_value(self.input())),
    {
        let mut builder = self;
        builder.next();
        builder.parse()
    }

    /// Takes the next token and counts the step. After the end-of-input
    /// token no further step can be taken.
    fn next(&mut self) -> (token: Option<char>)
        requires
            old(self).wf(),
            old(self).taken < old(self).tokens.len(),
        ensures
            final(self).at(*old(self), (old(self).taken + 1) as nat, old(self).eof_allowed),
            token == final(self).token,
    {
        proof {
            lemma_position_bound(self.input(), self.taken as nat);
        }
        self.token = self.tokens[self.taken];
        self.taken += 1;
        match self.token {
            Some('\n') => {
                self.line += 1;
                self.column = 0;
            },
            _ => {
                self.column += 1;
            },
        };
        self.token
    }

    /// Skips blanks, then reads the value that the current token starts.
    fn parse(&mut self) -> (r: Result<Json, JsonError>)
        requires
            old(self).wf(),
        ensures
            match value_from(old(self).input(), old(self).taken as nat, old(self).eof_allowed) {
                Ok(parsed) => {
                    &&& r matches Ok(json) && json@ == parsed.value
                    &&& final(self).at(*old(self), parsed.taken, parsed.eof_allowed)
                },
                Err(message) => r matches Err(JsonError::ParseError(text)) && text@ == message,
            },
        decreases old(self).left(), 1int,
    {
        self.parse_whitespace();
        match self.token {
            Some(c) => {
                if c == 'n' {
                    self.parse_ident("ull", Json::Null)
                } else if c == 't' {
                    self.parse_ident("rue", Json::Boolean(true))
                } else if c == 'f' {
                    self.parse_ident("alse", Json::Boolean(false))
                } else if c == '"' {
                    self.parse_string()
                } else if c == '[' {
                    self.parse_list()
                } else if c == '{' {
                    self.parse_object()
                } else if is_digit_char(c) {
                    self.parse_number()
                } else {
                    let shown = shown_token(self.token);
                    Err(JsonError::ParseError(stray_token_report(shown.as_str(), self.line, self.column)))
                }
            },
            None => Err(JsonError::ParseError("Unexpected eof.".to_owned())),
        }
    }

    /// Reads the number whose first digit is the current token.
    fn parse_number(&mut self) -> (r: Result<Json, JsonError>)
        requires
            old(self).wf(),
            old(self).token matches Some(c) && is_digit(c),
        ensures
            match number_from(old(self).input(), old(self).taken as nat, old(self).eof_allowed) {
                Ok((n, end)) => {
                    &&& r matches Ok(Json::Number(m)) && m == n
                    &&& final(self).at(*old(self), end, old(self).eof_allowed)
                },
                Err(message) => r matches Err(JsonError::ParseError(text)) && text@ == message,
            },
    {
        let first = match self.token {
            Some(d) => d,
            None => return Err(JsonError::ParseError("Unexpected eof.".to_owned())),
        };
        let mut num = String::new();
        num.push(first);
        let mut total: Option<usize> = Some(digit_of(first));
        proof {
            assert(num@ =~= seq![first]);
            assert(num@.drop_last() =~= Seq::<char>::empty());
            reveal_with_fuel(decimal_value, 2);
        }
        loop
            invariant_except_break
                self.token is Some,
                digits_tail(self.input(), self.taken as nat, self.eof_allowed, num@) == digits_tail(
                    old(self).input(),
                    old(self).taken as nat,
                    old(self).eof_allowed,
                    seq![first],
                ),
            invariant
                old(self).wf(),
                old(self).token == Some(first),
                self.at(*old(self), self.taken as nat, old(self).eof_allowed),
                match total {
                    Some(n) => n == decimal_value(num@),
                    None => decimal_value(num@) > usize::MAX,
                },
            ensures
                digits_tail(
                    old(self).input(),
                    old(self).taken as nat,
                    old(self).eof_allowed,
                    seq![first],
                ) == Ok::<(Seq<char>, nat), Seq<char>>((num@, self.taken as nat)),
            decreases self.left(),
        {
            self.next();
            match self.token {
                Some(d) => {
                    if is_digit_char(d) {
                        proof {
                            assert(num@.push(d).drop_last() =~= num@);
                        }
                        num.push(d);
                        total =
                        match total {
                            Some(n) => {
                                let digit: usize = digit_of(d);
                                if n <= (usize::MAX - digit) / 10 {
                                    Some(n * 10 + digit)
                                } else {
                                    None
                                }
                            },
                            None => None,
                        };
                    } else if d == ',' {
                        break;
                    } else {
                        let shown = shown_token(self.token);
                        return Err(
                            JsonError::ParseError(
                                stray_token_report(shown.as_str(), self.line, self.column),
                            ),
                        );
                    }
                },
                None => {
                    if self.eof_allowed {
                        break;
                    } else {
                        return Err(JsonError::ParseError("Unexpected eof.".to_owned()));
                    }
                },
            }
        }
        match total {
            Some(n) => Ok(Json::Number(n)),
            None => Err(JsonError::ParseError(number_range_report(num.as_str()))),
        }
    }

    /// Reads the characters of `ident` behind the current token and, if they
    /// are all there, returns `res`.
    fn parse_ident(&mut self, ident: &str, res: Json) -> (r: Result<Json, JsonError>)
        requires
            old(self).wf(),
            old(self).token is Some,
        ensures
            match literal_end(old(self).input(), old(self).taken as nat, ident@) {
                Ok(end) => {
                    &&& r == Ok::<Json, JsonError>(res)
                    &&& final(self).at(*old(self), end, old(self).eof_allowed)
                },
                Err(message) => r matches Err(JsonError::ParseError(text)) && text@ == message,
            },
    {
        assert(ident@.skip(0) =~= ident@);
        for c in chars: ident.chars()
            invariant
                chars.seq() == ident@,
                self.at(*old(self), self.taken as nat, old(self).eof_allowed),
                self.token is Some,
                literal_end(self.input(), self.taken as nat, ident@.skip(chars.index())) == literal_end(
                    old(self).input(),
                    old(self).taken as nat,
                    ident@,
                ),
        {
            proof {
                assert(ident@.skip(chars.index()).drop_first() =~= ident@.skip(chars.index() + 1));
            }
            match self.next() {
                Some(found) => {
                    if found != c {
                        return Err(JsonError::ParseError("woot".to_owned()));
                    }
                },
                None => {
                    return Err(JsonError::ParseError("woot".to_owned()));
                },
            }
        }
        Ok(res)
    }

    /// Reads the string whose opening quote is the current token.
    fn parse_string(&mut self) -> (r: Result<Json, JsonError>)
        requires
            old(self).wf(),
            old(self).token == Some('"'),
        ensures
            match string_from(old(self).input(), old(self).taken as nat) {
                Ok((expected, end)) => {
                    &&& r matches Ok(Json::String(text)) && text@ == expected
                    &&& final(self).at(*old(self), end, old(self).eof_allowed)
                },
                Err(message) => r matches Err(JsonError::ParseError(text)) && text@ == message,
            },
    {
        match self.parse_string_raw() {
            Ok(string) => Ok(Json::String(string)),
            Err(err) => Err(err),
        }
    }

    /// Reads the text between the current token, an opening quote, and the
    /// closing quote, and resolves the escapes.
    fn parse_string_raw(&mut self) -> (r: Result<String, JsonError>)
        requires
            old(self).wf(),
            old(self).token == Some('"'),
        ensures
            match string_from(old(self).input(), old(self).taken as nat) {
                Ok((expected, end)) => {
                    &&& r matches Ok(text) && text@ == expected
                    &&& final(self).at(*old(self), end, old(self).eof_allowed)
                },
                Err(message) => r matches Err(JsonError::ParseError(text)) && text@ == message,
            },
    {
        let mut string = String::new();
        let mut escape = false;
        loop
            invariant_except_break
                self.token is Some,
                string_tail(self.input(), self.taken as nat, escape, string@) == string_from(
                    old(self).input(),
                    old(self).taken as nat,
                ),
            invariant
                self.at(*old(self), self.taken as nat, old(self).eof_allowed),
            ensures
                string_from(old(self).input(), old(self).taken as nat) == Ok::<
                    (Seq<char>, nat),
                    Seq<char>,
                >((string@, self.taken as nat)),
            decreases self.left(),
        {
            self.next();
            if escape {
                match self.token {
                    Some(c) => {
                        if c == '"' {
                            string.push('"');
                        } else if c == '\\' {
                            string.push('\\');
                        } else {
                            return Err(JsonError::ParseError("escape error.".to_owned()));
                        }
                    },
                    None => {
                        return Err(JsonError::ParseError("Unexpected eof.".to_owned()));
                    },
                }
                escape = false;
            } else {
                match self.token {
                    Some(c) => {
                        if c == '"' {
                            break;
                        } else if c == '\\' {
                            escape = true;
                        } else {
                            string.push(c);
                        }
                    },
                    None => {
                        return Err(JsonError::ParseError("Unexpected eof.".to_owned()));
                    },
                }
            }
        }
        Ok(string)
    }

    /// Reads the array whose opening bracket is the current token.
    fn parse_list(&mut self) -> (r: Result<Json, JsonError>)
        requires
            old(self).wf(),
            old(self).token == Some('['),
        ensures
            match array_tail(old(self).input(), old(self).taken as nat, Seq::empty()) {
                Ok((items, end)) => {
                    &&& r matches Ok(Json::Array(list)) && values_of(list@) == items
                    &&& final(self).at(*old(self), end, false)
                },
                Err(message) => r matches Err(JsonError::ParseError(text)) && text@ == message,
            },
        decreases old(self).left(), 0int,
    {
        self.eof_allowed = false;
        let mut list: Vec<Json> = Vec::new();
        loop
            invariant_except_break
                self.token is Some,
                array_tail(self.input(), self.taken as nat, values_of(list@)) == array_tail(
                    old(self).input(),
                    old(self).taken as nat,
                    Seq::empty(),
                ),
            invariant
                self.at(*old(self), self.taken as nat, false),
                self.left() <= old(self).left(),
            ensures
                array_tail(old(self).input(), old(self).taken as nat, Seq::empty()) == Ok::<
                    (Seq<JsonValue>, nat),
                    Seq<char>,
                >((values_of(list@), self.taken as nat)),
            decreases self.left(),
        {
            self.next();
            match self.token {
                Some(c) => {
                    if c == ']' {
                        break;
                    } else if c == ',' {
                    } else {
                        proof {
                            lemma_value_end(self.input(), self.taken as nat, false);
                        }
                        let item = match self.parse() {
                            Ok(item) => item,
                            Err(err) => return Err(err),
                        };
                        proof {
                            lemma_values_of_push(list@, item);
                        }
                        list.push(item);
                    }
                },
                None => {
                    let shown = shown_token(self.token);
                    return Err(
                        JsonError::ParseError(
                            misplaced_token_report(shown.as_str(), self.line, self.column),
                        ),
                    );
                },
            };
        }
        Ok(Json::Array(list))
    }

    /// Reads the object whose opening brace is the current token.
    fn parse_object(&mut self) -> (r: Result<Json, JsonError>)
        requires
            old(self).wf(),
            old(self).token == Some('{'),
        ensures
            match object_tail(old(self).input(), old(self).taken as nat, Map::empty()) {
                Ok((members, end)) => {
                    &&& r matches Ok(Json::Object(map)) && map@ == members
                    &&& final(self).at(*old(self), end, false)
                },
                Err(message) => r matches Err(JsonError::ParseError(text)) && text@ == message,
            },
        decreases old(self).left(), 0int,
    {
        self.eof_allowed = false;
        let mut map = JsonObject::new();
        loop
            invariant_except_break
                self.token is Some,
                object_tail(self.input(), self.taken as nat, map@) == object_tail(
                    old(self).input(),
                    old(self).taken as nat,
                    Map::empty(),
                ),
            invariant
                self.at(*old(self), self.taken as nat, false),
                self.left() <= old(self).left(),
            ensures
                object_tail(old(self).input(), old(self).taken as nat, Map::empty()) == Ok::<
                    (Map<Seq<char>, JsonValue>, nat),
                    Seq<char>,
                >((map@, self.taken as nat)),
            decreases self.left(),
        {
            self.next();
            self.parse_whitespace();
            match self.token {
                Some(c) => {
                    if c == '}' {
                        break;
                    } else if c == '"' {
                        proof {
                            lemma_member_end(self.input(), self.taken as nat);
                        }
                        let (key, value) = match self.parse_object_key_value() {
                            Ok((key, value)) => (key, value),
                            Err(err) => return Err(err),
                        };
                        map.insert(key, value);
                    } else if c == ',' {
                    } else {
                        let shown = shown_token(self.token);
                        return Err(
                            JsonError::ParseError(
                                misplaced_token_report(shown.as_str(), self.line, self.column),
                            ),
                        );
                    }
                },
                None => {
                    return Err(JsonError::ParseError("Unexpected eof.".to_owned()));
                },
            };
        }
        Ok(Json::Object(map))
    }

    /// Skips the blanks that start with the current token.
    fn parse_whitespace(&mut self)
        requires
            old(self).wf(),
        ensures
            final(self).at(
                *old(self),
                (old(self).taken + blank_run(old(self).input(), old(self).taken as nat)) as nat,
                old(self).eof_allowed,
            ),
    {
        while is_blank_token(self.token)
            invariant
                self.at(*old(self), self.taken as nat, old(self).eof_allowed),
                self.taken + blank_run(self.input(), self.taken as nat) == old(self).taken + blank_run(
                    old(self).input(),
                    old(self).taken as nat,
                ),
            decreases self.left(),
        {
            self.next();
        }
    }

    /// Reads the member whose key starts at the current token.
    fn parse_object_key_value(&mut self) -> (r: Result<(String, Json), JsonError>)
        requires
            old(self).wf(),
            old(self).token == Some('"'),
            !old(self).eof_allowed,
        ensures
            match member_from(old(self).input(), old(self).taken as nat) {
                Ok((key, parsed)) => {
                    &&& r matches Ok((name, json)) && name@ == key && json@ == parsed.value
                    &&& final(self).at(*old(self), parsed.taken, false)
                },
                Err(message) => r matches Err(JsonError::ParseError(text)) && text@ == message,
            },
        decreases old(self).left(), 0int,
    {
        proof {
            lemma_string_tail_end(self.input(), self.taken as nat, false, Seq::empty());
        }
        let key = match self.parse_object_key() {
            Ok(key) => key,
            Err(err) => return Err(err),
        };
        self.next();
        proof {
            lemma_value_end(self.input(), self.taken as nat, false);
        }
        let value = match self.parse() {
            Ok(value) => value,
            Err(err) => return Err(err),
        };
        Ok((key, value))
    }

    /// Reads the key whose opening quote is the current token, and the colon
    /// behind it.
    fn parse_object_key(&mut self) -> (r: Result<String, JsonError>)
        requires
            old(self).wf(),
            old(self).token == Some('"'),
        ensures
            match key_from(old(self).input(), old(self).taken as nat) {
                Ok((expected, end)) => {
                    &&& r matches Ok(name) && name@ == expected
                    &&& final(self).at(*old(self), end, old(self).eof_allowed)
                },
                Err(message) => r matches Err(JsonError::ParseError(text)) && text@ == message,
            },
    {
        proof {
            lemma_string_tail_end(self.input(), self.taken as nat, false, Seq::empty());
        }
        let key = match self.parse_string_raw() {
            Ok(key) => key,
            Err(err) => return Err(err),
        };
        match self.next() {
            Some(':') => Ok(key),
            _ => {
                let shown = shown_token(self.token);
                Err(JsonError::ParseError(missing_colon_report(shown.as_str(), self.line, self.column)))
            },
        }
    }
}

impl Json {
    /// Reads the first value of `input`; what follows that value is not
    /// looked at.
    ///
    /// The result is the value or the report that [`first_value`] gives for the
    /// characters of `input`.
    pub fn from_str(input: &str) -> (r: Result<Json, JsonError>)
        ensures
            is_outcome(r, first_value(input@)),
    {
        let builder = JsonBuilder::new(input);
        builder.build()
    }
}

} // verus!
