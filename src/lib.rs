//! A verified parser for TOML configuration text.
//!
//! [`parse`] reads a whole text into a [`Document`]: a tree of tables whose every key is
//! unique within its table. Each stage states its result exactly over a model of the text:
//! the value grammar in [`parser`], scalar literals in [`number`], [`string`] and
//! [`datetime`], and the merging of headers, dotted keys and arrays of tables in [`document`].

pub mod error;
pub mod text;
pub mod value;
pub mod number;
pub mod string;
pub mod datetime;
pub mod parser;
pub mod document;

pub use document::{parse, Document};
pub use error::{ErrorKind, ParseError};
