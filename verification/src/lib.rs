//! Core of a small Lisp read-eval pipeline: a tokenizer, a recursive-descent
//! parser that degrades gracefully on malformed input, a chained-scope
//! environment, a tree-walking evaluator with one special form (`def!`) and
//! four integer builtins, and a printer that renders a syntax tree to text.

pub mod env;
pub mod eval;
pub mod laws;
pub mod printer;
pub mod reader;
pub mod roundtrip;
pub mod types;
