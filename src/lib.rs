//! A parser for a relaxed, JSON-derived text format: barewords, raw strings,
//! byte strings and an implicit top-level object.
//!
//! `grammar` states the format as spec functions; `parse_value` is proved to
//! compute exactly what `grammar::value` describes, and `laws` proves
//! properties of that grammar.

pub mod grammar;
pub mod laws;
mod lexical;
mod parser;
pub mod reader;
mod value;

pub use parser::parse_value;
pub use reader::PeekReader;
pub use value::{Failure, Number, ParseError, Tree, Value};
