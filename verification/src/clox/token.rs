//! The tokens that the scanner makes.
use vstd::prelude::*;
use std::rc::Rc;

verus! {

/// A token: its kind, its text (for an error token, the message) and the
/// line that it is on.
pub struct Token {
    pub ty: TokenType,
    pub str: Rc<String>,
    pub line: u32,
}

impl Token {
    /// A token of kind `ty` with text `str` on line `line`.
    pub fn new(ty: TokenType, str: Rc<String>, line: u32) -> (t: Self)
        ensures
            t.ty == ty,
            t.str == str,
            t.line == line,
    {
        Self { ty, str, line }
    }
}

/// The kinds of tokens.
#[derive(Debug, Hash, PartialEq, Eq, Clone, Copy)]
pub enum TokenType {
    // Single-character tokens.
    LeftParen,
    RightParen,
    LeftBrace,
    RightBrace,
    Comma,
    Dot,
    Minus,
    Plus,
    Semicolon,
    Slash,
    Star,
    // One or two character tokens.
    Bang,
    BangEqual,
    Equal,
    EqualEqual,
    Greater,
    GreaterEqual,
    Less,
    LessEqual,
    // Literals.
    Identifier,
    String,
    Number,
    // Keywords.
    And,
    Class,
    Else,
    False,
    Fn,
    For,
    If,
    Nil,
    Or,
    Print,
    Return,
    Super,
    This,
    Ture,
    Var,
    While,
    Break,
    Eof,
    Error,
}

} // verus!
