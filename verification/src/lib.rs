//! A verified parser for RIS bibliographic text: a line-oriented,
//! tag-delimited citation interchange format.
//!
//! The input is an immutable byte buffer, optionally prefixed by a UTF-8
//! byte-order mark.  A record spans a `TY  - ` line through its `ER  - `
//! line; every field line begins with a recognized two-character tag and the
//! fixed separator `"  - "`, and a field's content may continue over lines
//! that do not themselves begin with a recognized tag.  The splitter
//! ([`ReferenceIterator`]) delimits records; the field scanner
//! ([`content_iter::ContentIterator`]) extracts (tag, content) pairs; the
//! builders ([`hashmap_handler::HashMapHandler`],
//! [`list_handler::ListHandler`]) fold pairs into field mappings; and
//! [`RisParser::parse`] runs the whole pipeline, mapping the records across
//! a worker pool and collecting the results in source order.
//!
//! Every step is specified against a byte-level model (the spec functions in
//! [`scan`], [`content_iter`], [`hashmap_handler`] and [`parser`]), and the
//! library-wide laws — record counting over well-formed inputs, last write
//! wins, list-tag ordering, multi-line content, byte-order-mark
//! transparency, and the unterminated-record failure — are proved in
//! [`laws`].

pub mod content_iter;
pub mod error;
pub mod field;
pub mod hashmap_handler;
pub mod laws;
pub mod list_handler;
pub mod parser;
pub mod reference;
pub mod ref_iter;
pub mod scan;
pub mod utils;

pub use error::Error;
pub use error::PResult;
pub use parser::RisParser;
pub use ref_iter::ReferenceIterator;
