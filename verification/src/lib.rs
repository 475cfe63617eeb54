//! A decoder from JSON text to an in-memory tree.
//!
//! Every production takes a string slice, consumes a prefix of it and hands
//! back the unconsumed remainder beside the node it built. What each one
//! returns is stated against the functions of [`grammar`], which define the
//! accepted language over sequences of characters.

pub mod error;
pub mod grammar;
pub mod keys;
pub mod laws;
pub mod parser;
pub mod tokens;
pub mod value;

pub use error::{ErrorKind, ParseError};
pub use parser::{
    number_from, parse_array, parse_boolean, parse_json, parse_null, parse_number, parse_object,
    parse_string, parse_string_inner, ParseResult,
};
pub use value::{JsonNode, JsonObject};
