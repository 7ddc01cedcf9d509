//! Verified parser for a small key/value configuration format.
//!
//! A document is a sequence of lines; each line is blank, a `#` comment, or a
//! pair `identifier : [comma-separated integers]`.  Parsing yields a mapping
//! from identifier to integer list, or one of two errors: a syntax error
//! naming the construct that was expected, or a conversion error naming the
//! key whose value could not be represented as a 32-bit integer.

pub mod engine;
pub mod error;
pub mod grammar;
pub mod mapping;
pub mod numbers;
pub mod render;
mod text;

pub use engine::parse_key_value_pairs;
pub use error::ParseError;
pub use mapping::KvMap;
