//! A logic-less template engine in the Mustache family.
//!
//! A template text is compiled once into a tree and can then be rendered any
//! number of times, each time with a value to take its data from and,
//! optionally, a table of partials:
//!
//! * [`lexer`] cuts the text into tokens,
//! * [`parser`] builds the tree of [`ast`] nodes from them,
//! * [`context`] holds the data values, and
//! * [`template`] resolves names against them and renders the tree.
//!
//! Every function states what it computes over the mathematical views of
//! these types.

pub mod ast;
pub mod chars;
pub mod context;
pub mod error;
pub mod lexer;
pub mod parser;
pub mod template;

pub use context::{Context, MapBuilder, VecBuilder};
pub use error::{Error, Result};
pub use template::{Partials, Template};
