//! A lexical scanner for a small expression/assignment language
//! (numeric literals, identifiers, quoted strings, arithmetic operators,
//! and an assignment-style colon separator, e.g. `12+3*2-2%2:x`).

pub mod chars;
pub mod scanner;
pub mod token;
pub mod tokenizer;
