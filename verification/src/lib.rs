//! A reader for a small Lisp-like notation: S-expressions of integers,
//! floats, symbols (plain, keyword and special), strings, quotes and
//! lists. The reader, its helpers and its laws are verified against a
//! functional description of the grammar.
pub mod eval;
pub mod grammar;
pub mod laws;
pub mod primitives;
pub mod printer;
pub mod reader;
pub mod token;
