//! A compact vector-path mini-language: a tokenizer for letter and decimal
//! tokens, a grammar-driven parser producing typed commands with implicit
//! command repetition, geometric transforms (uniform scale, translation)
//! over the typed parameters, and a serializer back to the textual form.
//!
//! Coordinates are exact decimal numbers (sign, integer mantissa, power-of-ten
//! scale), which is precisely what the textual grammar can express; transforms
//! are exact arithmetic on that representation.

pub mod command;
pub mod format;
pub mod laws;
pub mod numeric;
pub mod ops;
pub mod parser;
pub mod render;
pub mod roundtrip;
pub mod tokenize;
pub mod transform;

pub use numeric::Decimal;
