//! The compiler's parser state: the tokens at hand and its error flags.
use vstd::prelude::*;

use crate::clox::token::Token;

verus! {

/// The parser's state: whether an error was found, whether it is panicking
/// (skipping the errors that follow one until it resynchronises), and the
/// previous and current tokens.
pub struct Parser {
    pub error: bool,
    pub panic: bool,
    pub previous: Option<Token>,
    pub current: Option<Token>,
}

impl Parser {
    /// Records an error at the current token, unless the parser is panicking
    /// already; whether the error is to be reported.
    pub fn error_at_current(&mut self) -> (report: bool)
        ensures
            report == !old(self).panic,
            final(self).panic,
            final(self).error == (old(self).error || report),
            final(self).previous == old(self).previous,
            final(self).current == old(self).current,
    {
        if self.panic {
            return false;
        }
        self.panic = true;
        self.error = true;
        true
    }
}

} // verus!
