//! A recursive-descent JSON reader whose results are proved against a
//! mathematical description of the accepted language.
//!
//! [`Json::from_str`] turns a text into a [`Json`] value or a [`JsonError`].
//! What it returns is fixed by [`grammar::first_value`]: the value that the
//! text starts with, or the report of the first fault.

mod builder;
pub mod grammar;
pub mod laws;
pub mod text;
pub mod value;

pub use value::{Json, JsonError, JsonObject, JsonValue};
