//! Parsing and evaluation of mathematical formulas given as text.
//!
//! A text holds one or more statements, separated by `,` or `;`. It is
//! lexed, split into statements, and each statement is converted to postfix
//! order by precedence. A postfix program is then run on a stack machine,
//! or reduced ahead of time against the bindings that are already known.
//!
//! # Numbers and arithmetic
//!
//! A number is carried as a `u64` that holds its IEEE 754 binary64 bit
//! pattern. The library moves numbers around and never computes on them.
//! The caller supplies two functions:
//!
//! - `number` reads the text of a literal as a number, or says that it is
//!   none;
//! - `kernel` applies an operator, a builtin function or a custom function
//!   to its arguments, which it gets in the order of the text.
//!
//! # Reading the contracts
//!
//! The specification functions take the reading of numbers and the
//! arithmetic as parameters: `num`, a function from texts to numbers, and
//! `sem`, a function from a token and its arguments to a number. A contract
//! of the form `computes(kernel, sem) ==> result == evaluate(sem, ..)` says
//! that whatever function the kernel computes, the result is that of the
//! stack machine with this function as its arithmetic. Whether a program
//! fails, and with which error, never depends on the arithmetic, and the
//! contracts say so for every `sem`.
//!
//! Names are `String`s in executable code and `Seq<char>` in specifications;
//! the types that hold names take the representation as a parameter.
//!
//! # Laws
//!
//! Module `laws` proves that partial evaluation keeps the value of a
//! program and is idempotent. Modules `grammar` and `series` prove that
//! lexer, tokenizer, parser and stack machine together evaluate a text as
//! the grammar reads it.
pub mod context;
pub mod error;
pub mod eval;
pub mod expr;
pub mod grammar;
pub mod laws;
pub mod parse;
pub mod series;
pub mod token;
pub mod util;

pub use crate::context::Context;
pub use crate::error::EvalError;
pub use crate::eval::{eval_from_str, eval_from_str_with_context};
pub use crate::expr::Expr;
pub use crate::parse::parse_str_to_rpn;

