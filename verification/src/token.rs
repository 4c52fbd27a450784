//! Lexical vocabulary of the expression language, and the error kinds of the
//! three pipeline stages.
use vstd::prelude::*;

verus! {

/// One lexical unit of an input statement.
#[derive(Debug, Clone, Copy, PartialEq, Eq, Structural)]
pub enum Token {
    Plus,
    Minus,
    Asterisk,
    Slash,
    Semicolon,
    Openparen,
    Closeparen,
    /// A run of ASCII decimal digits, read as an unsigned integer.
    Number(u64),
}

/// Failure of the lexer.
#[derive(Debug, Clone, Copy, PartialEq, Eq, Structural)]
pub enum LexError {
    /// The byte at the given offset of the trimmed input matches no token class.
    UnexpectedCharacter(u8, usize),
    /// A digit run's value exceeds `u64::MAX`.
    Overflow,
}

/// Failure of the parser: the token stream does not match the grammar.
#[derive(Debug, Clone, Copy, PartialEq, Eq, Structural)]
pub enum ParseError {
    /// A number token was required at the current position.
    ExpectedNumber,
    /// Neither a number nor an opening parenthesis stands where a factor must begin.
    ExpectedFactor,
    /// A parenthesized sub-expression is not closed by `)`.
    UnmatchedParen,
    /// The statement's expression is not followed by `;`.
    ExpectedSemicolon,
    /// Tokens remain after the terminating `;`.
    TrailingTokens,
}

/// Failure of the evaluator.
#[derive(Debug, Clone, Copy, PartialEq, Eq, Structural)]
pub enum EvalError {
    /// A divisor evaluated to zero.
    DivisionByZero,
    /// The tree violates the grammar's shape invariants.
    MalformedTree,
    /// An intermediate numerator or denominator does not fit in `i64`.
    Overflow,
}

} // verus!
