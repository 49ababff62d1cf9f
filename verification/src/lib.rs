//! Recognition of arithmetic expressions: a text is split into lexemes, the
//! lexemes are arranged into a token tree, and the tree is folded into an
//! expression by operator precedence.
//!
//! - [`lexer`]: the lexemes of a text.
//! - [`grammar`]: the grammar and the token tree that it makes of a text.
//! - [`pratt`]: the precedence table and the folding of a token tree.
//! - [`parser`]: both stages in a row.
//! - [`ast`], [`decimal`], [`token`], [`error`]: the data.
//! - [`laws`], [`spacing`], [`rejection`]: what holds of every text.

pub mod ast;
pub mod decimal;
pub mod error;
pub mod grammar;
pub mod laws;
pub mod lexer;
pub mod parser;
pub mod pratt;
pub mod rejection;
pub mod spacing;
pub mod token;

pub use ast::{Expr, Op};
pub use decimal::Decimal;
pub use error::ParseError;
pub use grammar::CalculatorParser;
pub use parser::parse;
pub use pratt::{parse_expr, parse_function};
pub use token::{Rule, Token};
