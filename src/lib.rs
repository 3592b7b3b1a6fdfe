//! Minipyth: a tacit, one-letter-per-token language for code golf.
//!
//! A program is a string of letters. `lex` maps each letter to a token,
//! `parse` turns the tokens into one composition of expressions, and
//! `Func::execute` applies it to a value: an integer of any size, a list of
//! values, or an error value.
//!
//! Each step states its result over a mathematical model: `Val` for values,
//! `FuncM` for expressions, and the spec functions `lex_spec`, `parse_spec`,
//! `forward` and `inverse`. The laws that relate several evaluations are
//! proved in `laws`.

pub mod integer;
pub mod value;
pub mod func;
pub mod lexer;
pub mod parser;
pub mod basic;
pub mod eval;
pub mod laws;

pub use func::{BasicFunc, DoubleFunc, Func, HigherFunc};
pub use integer::Integer;
pub use lexer::lex;
pub use parser::parse;
pub use value::Object;
