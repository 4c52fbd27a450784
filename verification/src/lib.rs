//! A minimal arithmetic-expression processor: a lexer turning one line of
//! text into tokens, a recursive-descent parser building a syntax tree with
//! operator precedence encoded structurally, and an evaluator computing the
//! exact rational value of the tree.

pub mod token;
pub mod ast;
pub mod lexer;
pub mod parser;
pub mod eval;
pub mod show;

pub use ast::{ASTNode, EElement, TElement};
pub use eval::Rat;
pub use lexer::lexer;
pub use parser::{parser, read_expression, read_factor, read_number, read_statement, read_term};
pub use token::{EvalError, LexError, ParseError, Token};
