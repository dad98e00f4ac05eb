//! Sapphire is a stream-based language; this crate holds its parser and
//! the containers that an evaluator fills while it walks a parsed program.

pub mod chars;
pub mod cursor;
pub mod decimal;
pub mod grammar;
pub mod laws;
pub mod message;
pub mod parse;
pub mod stream;
pub mod syntax;
pub mod truncation;
