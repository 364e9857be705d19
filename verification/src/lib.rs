//! A small interpreter for a Lisp-family expression language: a reader that
//! turns source text into values, an evaluator with a chained lexically
//! scoped environment and the special forms `def!` and `let*`, four
//! arithmetic built-ins, and a printer that renders values back to text.

pub mod built_ins;
pub mod env;
pub mod eval;
pub mod keyword;
pub mod laws;
pub mod printer;
pub mod reader;
pub mod repl;
pub mod symbol;
pub mod types;
