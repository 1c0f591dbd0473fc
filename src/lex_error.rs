//! The error of a free-function combinator: where it failed and why.

use vstd::prelude::*;

use crate::token::Token;

verus! {

/// An error parsing a value.
#[derive(Copy, Clone, PartialEq, Eq, Hash, Debug)]
pub struct LexError<'a, E> {
    token: Token<'a>,
    error: E,
}

/// The result of parsing a value: the value and what follows it, or the error.
pub type LexResult<'a, T, E> = Result<(T, Token<'a>), LexError<'a, E>>;

impl<'a, E> LexError<'a, E> {
    pub closed spec fn spec_token(&self) -> Token<'a> {
        self.token
    }

    pub closed spec fn spec_error(&self) -> E {
        self.error
    }

    /// Creates a new lex error.
    pub fn new(token: Token<'a>, error: E) -> (r: Self)
        ensures
            r.spec_token() == token,
            r.spec_error() == error,
    {
        Self { token, error }
    }

    /// Gets the token.
    pub fn token(&self) -> (r: Token<'a>)
        ensures
            r == self.spec_token(),
    {
        self.token
    }

    /// Gets the error.
    pub fn error(&self) -> (r: &E)
        ensures
            *r == self.spec_error(),
    {
        &self.error
    }

    /// Converts the lex error to its error.
    pub fn to_error(self) -> (r: E)
        ensures
            r == self.spec_error(),
    {
        self.error
    }
}

} // verus!
