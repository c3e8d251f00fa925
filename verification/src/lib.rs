//! A small interpreter for a bracket-loop tape language.
//!
//! A program is a stream of one-character tokens.  The parser turns the
//! stream into a tree of [`ast::LanguageNode`]s, honouring `[` / `]`
//! nesting; the evaluator walks the tree against a fixed-size tape of
//! numeric cells with a single cursor.

pub mod ast;
pub mod eval;
pub mod parser;
pub mod printer;
