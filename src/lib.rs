//! An arithmetic-expression engine: infix text is split into tokens, the
//! tokens are rearranged into postfix order, and the postfix sequence is
//! assembled into an expression tree ready for numeric evaluation.
pub mod converter;
pub mod engine;
pub mod err;
pub mod expr;
pub mod laws;
pub mod token;
pub mod tokenizer;

pub use converter::convert;
pub use engine::parse_expression;
pub use err::Error;
pub use expr::{Expr, build_expr};
pub use token::{DelimType, OperatorType, Symbol, Token};
pub use tokenizer::{sanitize_whitespace, tokenize};
