//! A small engine for a compact arithmetic notation: digits for numbers and
//! the letters `a`..`f` (or `+ - * / ( )`) for operators and grouping.
//!
//! [`tokenize`] turns text into an [`Expression`]; [`evaluate`] reduces it,
//! with an operand stack and an operator stack, to the [`Term`] whose value
//! is the result. The arithmetic on that term is left to the caller.
pub mod token;
pub mod tokenizer;
pub mod evaluator;
pub mod laws;
pub mod parser;

pub use token::{BinOp, ErrorKind, Expression, Term, TermView, Token, TokenView};
pub use evaluator::evaluate;
pub use parser::ExpressionParser;
pub use tokenizer::tokenize;
