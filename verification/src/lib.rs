//! A JSON reading and writing library, verified with Verus.
//!
//! Text goes through two stages: a lexer turns the characters into a
//! sequence of tokens, and a recursive-descent parser turns the tokens
//! into a tree of values. Every stage is specified by spec functions
//! over sequences of characters and tokens, and the executable code is
//! proved to return exactly what those spec functions describe. The
//! `laws` module states and proves the general properties of the
//! pipeline, and values render back to minimal JSON text through
//! `JsonValue::to_text`.

pub mod error;
pub mod json;
pub mod laws;
pub mod lexer;
pub mod parser;
pub mod text;
