//! The tokens of the source language, with the binary operators' precedences.
use vstd::prelude::*;

use crate::errors::Error;

verus! {

#[derive(Debug, Clone, PartialEq, Eq, Hash)]
pub enum Token {
    Identifier(String),
    Constant(i64),
    LParen,
    RParen,
    LBrace,
    RBrace,
    Semicolon,
    /// Bitwise complement, `~`.
    BitComp,
    /// Minus, `-`: negation or subtraction.
    Negation,
    Decrement,
    Int,
    Void,
    Return,
    Add,
    Mul,
    Div,
    Remainder,
    Not,
    And,
    Or,
    EqualTo,
    NotEqualTo,
    LessThan,
    GreaterThan,
    LessThanOrEq,
    GreaterThanOrEq,
    Assign,
    If,
    Else,
    /// `?`, between the first and second operands of a conditional expression.
    QuestionMark,
    /// `:`, between the second and third operands of a conditional expression.
    Colon,
    Do,
    While,
    For,
    Break,
    Continue,
    Comma,
}

/// The binding strength of a binary operator token; none for other tokens.
pub open spec fn precedence_of(t: Token) -> Option<usize> {
    match t {
        Token::Mul | Token::Div | Token::Remainder => Some(50),
        Token::Add | Token::Negation => Some(45),
        Token::LessThan | Token::LessThanOrEq | Token::GreaterThan | Token::GreaterThanOrEq => Some(
            35,
        ),
        Token::EqualTo | Token::NotEqualTo => Some(30),
        Token::And => Some(10),
        Token::Or => Some(5),
        Token::QuestionMark => Some(3),
        Token::Assign => Some(1),
        _ => None,
    }
}

impl Token {
    /// A fresh copy of this token.
    pub fn duplicate(&self) -> (r: Token)
        ensures
            r == *self,
    {
        match self {
            Token::Identifier(s) => Token::Identifier(s.clone()),
            Token::Constant(i) => Token::Constant(*i),
            Token::LParen => Token::LParen,
            Token::RParen => Token::RParen,
            Token::LBrace => Token::LBrace,
            Token::RBrace => Token::RBrace,
            Token::Semicolon => Token::Semicolon,
            Token::BitComp => Token::BitComp,
            Token::Negation => Token::Negation,
            Token::Decrement => Token::Decrement,
            Token::Int => Token::Int,
            Token::Void => Token::Void,
            Token::Return => Token::Return,
            Token::Add => Token::Add,
            Token::Mul => Token::Mul,
            Token::Div => Token::Div,
            Token::Remainder => Token::Remainder,
            Token::Not => Token::Not,
            Token::And => Token::And,
            Token::Or => Token::Or,
            Token::EqualTo => Token::EqualTo,
            Token::NotEqualTo => Token::NotEqualTo,
            Token::LessThan => Token::LessThan,
            Token::GreaterThan => Token::GreaterThan,
            Token::LessThanOrEq => Token::LessThanOrEq,
            Token::GreaterThanOrEq => Token::GreaterThanOrEq,
            Token::Assign => Token::Assign,
            Token::If => Token::If,
            Token::Else => Token::Else,
            Token::QuestionMark => Token::QuestionMark,
            Token::Colon => Token::Colon,
            Token::Do => Token::Do,
            Token::While => Token::While,
            Token::For => Token::For,
            Token::Break => Token::Break,
            Token::Continue => Token::Continue,
            Token::Comma => Token::Comma,
        }
    }

    /// The precedence of a binary operator token; an error for any other token.
    pub fn precedence(&self) -> (r: Result<usize, Error>)
        ensures
            match precedence_of(*self) {
                Some(p) => r == Ok::<usize, Error>(p),
                None => r == Err::<usize, Error>(Error::Precedence { found: *self }),
            },
    {
        match self {
            Token::Mul => Ok(50),
            Token::Div => Ok(50),
            Token::Remainder => Ok(50),
            Token::Add => Ok(45),
            Token::Negation => Ok(45),
            Token::LessThan => Ok(35),
            Token::LessThanOrEq => Ok(35),
            Token::GreaterThan => Ok(35),
            Token::GreaterThanOrEq => Ok(35),
            Token::EqualTo => Ok(30),
            Token::NotEqualTo => Ok(30),
            Token::And => Ok(10),
            Token::Or => Ok(5),
            Token::Assign => Ok(1),
            Token::QuestionMark => Ok(3),
            _ => Err(Error::Precedence { found: self.duplicate() }),
        }
    }

    /// Whether the token is a binary operator, the conditional's `?` included.
    pub fn is_binary_operator(&self) -> (r: bool)
        ensures
            r == precedence_of(*self) is Some,
    {
        match self {
            Token::Add | Token::Mul | Token::Div | Token::Negation | Token::Remainder | Token::And
            | Token::Or | Token::EqualTo | Token::NotEqualTo | Token::LessThan
            | Token::LessThanOrEq | Token::GreaterThan | Token::GreaterThanOrEq | Token::Assign
            | Token::QuestionMark => true,
            _ => false,
        }
    }
}

} // verus!
