use vstd::prelude::*;

use crate::token::Token;
use crate::ErrorKind;

verus! {

/// The binary operators the expression vocabulary reserves.
#[derive(Debug)]
pub enum BinaryOp {
    Plus,
    PlusEqual,
    Minus,
    MinusEqual,
    Slash,
    Modul,
    Star,
    Caret,
}

/// The unary operators the expression vocabulary reserves.
#[derive(Debug)]
pub enum UnaryOp {
    MinusMinus,
    PlusPlus,
}

/// An expression node. Only the identifier and string forms are ever built;
/// the rest of the vocabulary awaits a real grammar.
#[derive(Debug)]
pub enum Expr {
    Binary { left: Box<Expr>, op: BinaryOp, right: Box<Expr> },
    Unary { left: Box<Expr>, op: UnaryOp },
    Ident { name: String },
    String { value: String },
}

/// The downstream consumer of the token stream. Only the two demonstrated
/// expression-building paths exist; `parse` itself performs no work yet.
pub struct Parser<'a> {
    pub stream: &'a Vec<Token>,
    pub output: Vec<Expr>,
    pub token: usize,
}

impl<'a> Parser<'a> {
    /// The current token is always drawn from the stream.
    pub open spec fn wf(&self) -> bool {
        self.token < self.stream@.len()
    }

    /// Creates a parser resting on the first token of a non-empty stream.
    pub fn new(stream: &'a Vec<Token>) -> (r: Parser<'a>)
        requires
            stream@.len() > 0,
        ensures
            r.stream@ == stream@,
            r.output@.len() == 0,
            r.token == 0,
            r.wf(),
    {
        Self { stream, output: Vec::<Expr>::new(), token: 0 }
    }

    /// The parsing entry point. No grammar exists yet, so it leaves the
    /// parser exactly as it found it.
    pub fn parse(&mut self)
        ensures
            *final(self) == *old(self),
    {
    }

    /// Appends one expression node to the output.
    pub fn push_expr(self: &mut Self, expr: Expr)
        ensures
            final(self).stream == old(self).stream,
            final(self).token == old(self).token,
            final(self).output@ == old(self).output@.push(expr),
    {
        self.output.push(expr);
    }

    /// Builds the expression node the current token demands: an identifier
    /// token yields an identifier expression, a string token a string
    /// expression, and any other token is the fatal unexpected-token
    /// condition.
    pub fn parse_expr(&mut self) -> (r: Result<Expr, ErrorKind>)
        requires
            old(self).wf(),
        ensures
            *final(self) == *old(self),
            match old(self).stream@[old(self).token as int] {
                Token::Ident { offset, value } => r matches Ok(Expr::Ident { name })
                    && name@ == value@,
                Token::String { offset, value } => r matches Ok(Expr::String { value: v })
                    && v@ == value@,
                _ => r matches Err(e) && e == ErrorKind::UnexpectedToken,
            },
    {
        match &self.stream[self.token] {
            Token::Ident { offset: _, value } => Ok(Expr::Ident { name: value.clone() }),
            Token::String { offset: _, value } => Ok(Expr::String { value: value.clone() }),
            _ => Err(ErrorKind::UnexpectedToken),
        }
    }
}

} // verus!
