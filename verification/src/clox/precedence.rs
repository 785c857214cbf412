//! Operator precedence and the parse rule of each kind of token.
use vstd::prelude::*;

use crate::clox::token::TokenType;

verus! {

/// How tightly an operator binds, loosest first.
#[derive(Debug, PartialEq, Eq, PartialOrd, Ord)]
pub enum Precedence {
    Lowest,
    Assignment,  // =
    Or,  // or
    And,  // and
    Equality,  // == !=
    Comparison,  // < > <= >=
    Term,  // + -
    Factor,  // * /
    Unary,  // ! -
    Call,  // . ()
    Primary,
}

/// The place of `p` in the order of precedence, from 0 for `None` to 10 for
/// `Primary`.
pub open spec fn rank(p: Precedence) -> int {
    match p {
        Precedence::Lowest => 0,
        Precedence::Assignment => 1,
        Precedence::Or => 2,
        Precedence::And => 3,
        Precedence::Equality => 4,
        Precedence::Comparison => 5,
        Precedence::Term => 6,
        Precedence::Factor => 7,
        Precedence::Unary => 8,
        Precedence::Call => 9,
        Precedence::Primary => 10,
    }
}

/// The next tighter precedence; `Primary` stays.
pub open spec fn next_precedence(p: Precedence) -> Precedence {
    match p {
        Precedence::Lowest => Precedence::Assignment,
        Precedence::Assignment => Precedence::Or,
        Precedence::Or => Precedence::And,
        Precedence::And => Precedence::Equality,
        Precedence::Equality => Precedence::Comparison,
        Precedence::Comparison => Precedence::Term,
        Precedence::Term => Precedence::Factor,
        Precedence::Factor => Precedence::Unary,
        Precedence::Unary => Precedence::Call,
        Precedence::Call => Precedence::Primary,
        Precedence::Primary => Precedence::Primary,
    }
}

impl Precedence {
    /// The next tighter precedence; `Primary` stays.
    pub fn heigher(&self) -> (res: Self)
        ensures
            res == next_precedence(*self),
    {
        match self {
            Precedence::Lowest => Self::Assignment,
            Precedence::Assignment => Self::Or,
            Precedence::Or => Self::And,
            Precedence::And => Self::Equality,
            Precedence::Equality => Self::Comparison,
            Precedence::Comparison => Self::Term,
            Precedence::Term => Self::Factor,
            Precedence::Factor => Self::Unary,
            Precedence::Unary => Self::Call,
            Precedence::Call => Self::Primary,
            Precedence::Primary => Self::Primary,
        }
    }
}

/// Each precedence but `Primary` has a next one just one place tighter;
/// `Primary` is its own.
pub proof fn law_heigher_steps_up(p: Precedence)
    ensures
        p != Precedence::Primary ==> rank(next_precedence(p)) == rank(p) + 1,
        p == Precedence::Primary ==> next_precedence(p) == p,
        0 <= rank(p) <= 10,
{
}

/// Which parsing function of the compiler a rule names.
#[derive(Debug, PartialEq, Eq, Clone, Copy)]
pub enum ParseFn {
    Nothing,
    Grouping,
    Call,
    Unary,
    Binary,
    Number,
    Literal,
    String,
    Varaible,
    And,
    Or,
}

/// How the compiler parses a token: where it starts an expression, where it
/// follows one, and how tightly it binds there.
pub struct ParseRule {
    pub prefix: ParseFn,
    pub infix: ParseFn,
    pub precedence: Precedence,
}

/// The rule of each kind of token, as (prefix, infix, precedence).
pub open spec fn rule_of(ty: TokenType) -> (ParseFn, ParseFn, Precedence) {
    match ty {
        TokenType::LeftParen => (ParseFn::Grouping, ParseFn::Call, Precedence::Call),
        TokenType::Minus => (ParseFn::Unary, ParseFn::Binary, Precedence::Term),
        TokenType::Plus => (ParseFn::Nothing, ParseFn::Binary, Precedence::Term),
        TokenType::Slash => (ParseFn::Nothing, ParseFn::Binary, Precedence::Factor),
        TokenType::Star => (ParseFn::Nothing, ParseFn::Binary, Precedence::Factor),
        TokenType::Number => (ParseFn::Number, ParseFn::Nothing, Precedence::Lowest),
        TokenType::Ture => (ParseFn::Literal, ParseFn::Nothing, Precedence::Lowest),
        TokenType::False => (ParseFn::Literal, ParseFn::Nothing, Precedence::Lowest),
        TokenType::Nil => (ParseFn::Literal, ParseFn::Nothing, Precedence::Lowest),
        TokenType::Bang => (ParseFn::Unary, ParseFn::Nothing, Precedence::Lowest),
        TokenType::BangEqual => (ParseFn::Nothing, ParseFn::Binary, Precedence::Equality),
        TokenType::EqualEqual => (ParseFn::Nothing, ParseFn::Binary, Precedence::Equality),
        TokenType::Greater => (ParseFn::Nothing, ParseFn::Binary, Precedence::Comparison),
        TokenType::GreaterEqual => (ParseFn::Nothing, ParseFn::Binary, Precedence::Comparison),
        TokenType::Less => (ParseFn::Nothing, ParseFn::Binary, Precedence::Comparison),
        TokenType::LessEqual => (ParseFn::Nothing, ParseFn::Binary, Precedence::Comparison),
        TokenType::Identifier => (ParseFn::Varaible, ParseFn::Nothing, Precedence::Lowest),
        TokenType::String => (ParseFn::String, ParseFn::Nothing, Precedence::Lowest),
        TokenType::And => (ParseFn::Nothing, ParseFn::And, Precedence::And),
        TokenType::Or => (ParseFn::Nothing, ParseFn::Or, Precedence::Or),
        _ => (ParseFn::Nothing, ParseFn::Nothing, Precedence::Lowest),
    }
}

/// The parse rule of tokens of kind `ty`.
pub fn get_rule(ty: TokenType) -> (r: ParseRule)
    ensures
        (r.prefix, r.infix, r.precedence) == rule_of(ty),
{
    let (prefix, infix, precedence) = match ty {
        TokenType::LeftParen => (ParseFn::Grouping, ParseFn::Call, Precedence::Call),
        TokenType::Minus => (ParseFn::Unary, ParseFn::Binary, Precedence::Term),
        TokenType::Plus => (ParseFn::Nothing, ParseFn::Binary, Precedence::Term),
        TokenType::Slash => (ParseFn::Nothing, ParseFn::Binary, Precedence::Factor),
        TokenType::Star => (ParseFn::Nothing, ParseFn::Binary, Precedence::Factor),
        TokenType::Number => (ParseFn::Number, ParseFn::Nothing, Precedence::Lowest),
        TokenType::Ture => (ParseFn::Literal, ParseFn::Nothing, Precedence::Lowest),
        TokenType::False => (ParseFn::Literal, ParseFn::Nothing, Precedence::Lowest),
        TokenType::Nil => (ParseFn::Literal, ParseFn::Nothing, Precedence::Lowest),
        TokenType::Bang => (ParseFn::Unary, ParseFn::Nothing, Precedence::Lowest),
        TokenType::BangEqual => (ParseFn::Nothing, ParseFn::Binary, Precedence::Equality),
        TokenType::EqualEqual => (ParseFn::Nothing, ParseFn::Binary, Precedence::Equality),
        TokenType::Greater => (ParseFn::Nothing, ParseFn::Binary, Precedence::Comparison),
        TokenType::GreaterEqual => (ParseFn::Nothing, ParseFn::Binary, Precedence::Comparison),
        TokenType::Less => (ParseFn::Nothing, ParseFn::Binary, Precedence::Comparison),
        TokenType::LessEqual => (ParseFn::Nothing, ParseFn::Binary, Precedence::Comparison),
        TokenType::Identifier => (ParseFn::Varaible, ParseFn::Nothing, Precedence::Lowest),
        TokenType::String => (ParseFn::String, ParseFn::Nothing, Precedence::Lowest),
        TokenType::And => (ParseFn::Nothing, ParseFn::And, Precedence::And),
        TokenType::Or => (ParseFn::Nothing, ParseFn::Or, Precedence::Or),
        _ => (ParseFn::Nothing, ParseFn::Nothing, Precedence::Lowest),
    };
    ParseRule { prefix, infix, precedence }
}

} // verus!
