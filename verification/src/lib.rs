//! A JSON decoder: text in, a tagged value tree or a typed error out.
//!
//! - `derivation` states the JSON grammar as its productions: which texts
//!   are JSON, and what each denotes.
//! - `grammar` states what a reader meets at an offset of any text: a value
//!   and its length, or the first error.
//! - `parser` is the executable recursive-descent parser, on a `cursor` over
//!   the text. Each of its functions is proved to return exactly what
//!   `grammar` says.
//! - `laws` proves that the reader accepts exactly the texts that the
//!   productions derive, with the values they denote; that whitespace between
//!   tokens does not matter; and that parsing is deterministic.
//! - `value` holds the tree, its mathematical model and the accessors;
//!   `error` the error type; `text` the steps between `String` and `char`.
use vstd::prelude::*;

pub mod cursor;
pub mod derivation;
pub mod error;
pub mod grammar;
pub mod laws;
pub mod parser;
pub mod text;
pub mod value;

pub use cursor::Cursor;
pub use error::ParseError;
pub use parser::{parse, parse_any};
pub use value::{DecimalNumber, Json, JsonNumber, JsonResult};
