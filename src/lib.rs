//! SYML: an indentation-based text format for nested texts, lists and
//! tables, with a parser and a serializer proved against one grammar.
//!
//! - `value`: the value tree (`Value`, `Table`) and its model `Tree`.
//! - `grammar`: the grammar as spec functions over characters.
//! - `parser`: the parser, which returns exactly what the grammar gives.
//! - `serialize`: the compact and indented forms, and `SYMLSerialize`.
//! - `scalars`: reading a text as an integer, a boolean or a character.
//! - `cli`: settings of the converters and how they read scalars as JSON.
//! - `laws`: what holds between parsing and writing.
pub mod value;
pub mod grammar;
pub mod parser;
pub mod serialize;
pub mod cli;
pub mod laws;
pub mod scalars;
mod reading;
mod parsed;

pub use serialize::{SYMLSerialize, do_indent};
pub use value::{Value, Table};
pub use cli::Config;
