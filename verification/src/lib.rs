//! A parser for a small JSON-like text format, with machine-checked
//! contracts.
//!
//! The format knows the literals `null`, `true` and `false`, unsigned
//! integers, strings without escapes, arrays and objects. A parse reads one
//! value from the start of a byte source and returns it as a [`Value`], or
//! returns the [`ParseError`] that ended it.
//!
//! - [`value`] holds the tree that a parse produces and [`Tree`], its
//!   mathematical model;
//! - [`error`] holds the failures;
//! - [`grammar`] says which tree a text denotes;
//! - [`rson`] is the executable scanner and parser, proved to compute what
//!   [`grammar`] says;
//! - [`laws`] and [`render`] hold theorems about the grammar: what keywords,
//!   digits and quoted texts parse to, what every parsed tree looks like,
//!   and that the canonical text of a value parses back to it;
//! - [`text`] holds helpers on strings and bytes.
pub mod error;
pub mod grammar;
pub mod laws;
pub mod render;
pub mod rson;
pub mod text;
pub mod value;

pub use error::{Failure, ParseError};
pub use rson::Rson;
pub use value::{Literal, Number, RsonMap, StructuralChar, Tree, Value};
