//! Serialization and deserialization of www-form-urlencoded data.
//!
//! Structured values are written as flat `key=value` pairs joined by `&`.
//! Nesting is expressed by dot-separated path segments, and sequences by
//! numeric path segments plus a reserved `$length` marker holding the
//! element count:
//!
//! ```text
//! foo0.bar0=true&foo0.bar1="test"&foo1=2
//! foo0.0=0&foo0.1=1&foo0.2=2&foo0.$length=3
//! ```
//!
//! Decoding runs text through the tokenizer ([`lexer`]), the grammar
//! parser and the nested-value assembler ([`parser`]), and hands the tree
//! to the decode adapter ([`de`]).  Encoding builds an ordered tree on an
//! explicit composite stack and flattens it into the wire text ([`ser`]).
//! The scalar leaves travel as decimal or literal text ([`num`]).  The
//! round-trip laws of the format stand in [`laws`].

pub mod de;
pub mod error;
pub mod laws;
pub mod lexer;
pub mod num;
pub mod parser;
pub mod ser;
pub mod text;

pub use error::Error;
