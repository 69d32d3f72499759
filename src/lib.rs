//! A desk-calculator expression language: a tokenizer, a precedence-climbing
//! parser, a lowering pass to stack-machine code, and the stack machine.
//!
//! Each stage is stated as a function on mathematical values and proved
//! against it: `tokenizer::tokens_of` gives the tokens of a text,
//! `parser::pstmts` the statements of a token sequence, `compiler::lower`
//! the code of a tree, and `interpreter::runs` what a run of code may give.
//! `session::run_source` runs a whole text statement by statement against
//! one set of bindings.
//!
//! The machine is generic in its values: the caller hands it a function
//! that does the arithmetic (the value of a literal, the operators, the
//! built-in functions), so the library holds no number system of its own.
pub mod tokenizer;
pub mod parser;
pub mod compiler;
pub mod environment;
pub mod interpreter;
pub mod session;
