//! A small JSON library: a value tree, a recursive-descent parser over a
//! one-character-lookahead cursor, and a compact or indented serializer.
//!
//! Numbers are IEEE-754 double-precision values. The library never converts
//! between their binary form and decimal text itself: a [`Number`] carries
//! both, and a [`NumberTable`] tells the parser which number each token
//! denotes. The host fills both from its floating-point routines.

pub mod convert;
pub mod equality;
pub mod grammar;
pub mod input;
pub mod laws;
pub mod model;
pub mod number;
pub mod order;
pub mod parser;
pub mod serializer;
pub mod text;
pub mod value;

pub use crate::convert::{ValueCollectionItem, ValueKind, ValueLike};
pub use crate::grammar::ErrorKind;
pub use crate::input::Input;
pub use crate::model::{Json, Order, Type};
pub use crate::number::{Number, NumberError, NumberTable};
pub use crate::parser::{
    _parse_array, _parse_number, _parse_object, _parse_string, _read_digits, number_tokens, parse,
    parse_input, parse_string, DefaultParseContext, ParseError,
};
pub use crate::serializer::{
    is_first, pretty_print, serialize, JsonSerializationStyle, JsonSerializer, SerializeError,
    SerializeResult,
};
pub use crate::value::{Array, Object, Value, ValueKey};
