//! A two-stage front end for a small EBNF-like rule language.
//!
//! The crate is split in two layers. The [`scanner`] module holds a generic,
//! pattern-driven tokenizer: it turns raw text into a vector of typed,
//! positioned tokens according to an ordered table of patterns, trying the
//! entries in table order and taking the first whose pattern matches at the
//! current position. The [`parser`] module drives one such tokenizer over a
//! grammar-rule source (`identifier := alternatives`) and assembles the token
//! stream into [`ast::Expression`] trees with a cursor-based combinator layer.

pub mod ast;
pub mod grammar;
pub mod laws;
pub mod matching;
pub mod parser;
pub mod scanner;
pub mod textops;
