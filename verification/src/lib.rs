use vstd::prelude::*;

pub mod lexer;
pub mod parser;
pub mod token;

verus! {

/// The fatal conditions of the front end: an unterminated string literal met
/// while scanning, an unexpected token met while building an expression, and
/// the two conditions the surrounding program reports before scanning begins
/// (a source file that cannot be read, a missing file-path argument).
#[derive(Clone, Copy, Debug, PartialEq, Eq)]
pub enum ErrorKind {
    UnterminatedLiteral,
    UnreadableSource,
    UnexpectedToken,
    MissingArgument,
}

} // verus!
