//! A source-position-tracking lexer and a recursive-descent parser for a
//! small C-like expression language.
//!
//! The tokenizer scans an immutable source text and hands out tokens whose
//! spans carry exact line, column and byte positions; the parser builds an
//! abstract syntax tree on top of the tokenizer's primitives, keeping the
//! distinction between "this alternative does not apply" and "this
//! alternative committed and the input is malformed".

pub mod text;
pub mod token;
pub mod tokenizer;
pub mod ast;
