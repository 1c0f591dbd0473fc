//! The error of a parse: the most relevant token at the failure and a typed error.

use vstd::prelude::*;

use vstd::utf8::{is_char_boundary, length_of_first_scalar, valid_utf8};

use crate::config::Config;
use crate::context::{Context, ParseContext};
use crate::kind::Kind;
use crate::lexer::{lemma_run_end, run_end};
use crate::text::{
    lemma_ascii_prefix_boundary, line_ending_prefix_len, split_view, CR, LF,
};
use crate::token::Token;

verus! {

/// A parsing error.
#[derive(Copy, Clone, PartialEq, Eq, Hash, Debug)]
pub struct Error<'a, E> {
    token: Token<'a>,
    error: E,
}

/// The result of parsing an element `T` with error type `E`: the element and the cursor after
/// it, or the error.
pub type ParseResult<'a, T, E> = Result<(T, crate::context::ParseContext<'a>), Error<'a, E>>;

/// How many bytes the error token takes from `s`: the symbol that starts it, or else its first
/// character (a `CRLF` as a whole), or nothing when `s` is empty.
pub open spec fn error_len(s: Seq<u8>) -> int {
    if run_end(Kind::Symbol, s, 0) > 0 {
        run_end(Kind::Symbol, s, 0)
    } else if s.len() == 0 {
        0
    } else if line_ending_prefix_len(s) == 2 {
        2
    } else {
        length_of_first_scalar(s)
    }
}

/// Gets the byte length of the first char of `b`.
fn first_char_len(b: &[u8]) -> (r: usize)
    requires
        valid_utf8(b@),
        b@.len() > 0,
    ensures
        r == length_of_first_scalar(b@),
        1 <= r <= b@.len(),
        is_char_boundary(b@, r as int),
        r > 1 ==> b@[r - 1] >= 128,
{
    let c = b[0];
    let r: usize = if c < 0x80 {
        1
    } else if c < 0xe0 {
        2
    } else if c < 0xf0 {
        3
    } else {
        4
    };
    proof {
        assert(is_char_boundary(vstd::utf8::pop_first_scalar(b@), 0));
    }
    r
}

impl<'a> Token<'a> {
    /// Converts the token to an error with the given `config`.
    ///
    /// If the token starts with a symbol, the error token is the symbol. Otherwise it is the
    /// first char (a `CRLF` as a whole), or the empty token when the token is empty.
    pub fn to_error<E>(self, config: &'a Config, e: E) -> (r: Error<'a, E>)
        requires
            self.wf(),
        ensures
            r.spec_token()@ == split_view(self@, error_len(self@.text)).0,
            r.spec_error() == e,
    {
        proof {
            lemma_run_end(Kind::Symbol, self@.text, 0);
        }
        let token: Token = if let (Some(symbol), _after) = Context::new(self, config).symbol() {
            symbol.token()
        } else if self.is_empty() {
            proof {
                assert(self@.text.subrange(0, 0) =~= self@.text);
            }
            self
        } else {
            let b = self.bytes();
            let n: usize = if b.len() >= 2 && b[0] == CR && b[1] == LF {
                proof {
                    lemma_ascii_prefix_boundary(b@, 2);
                }
                2
            } else {
                first_char_len(b)
            };
            self.split(n).0
        };
        Error::new(token, e)
    }
}

impl<'a> ParseContext<'a> {
    /// Converts the parse context to an error: see `Token::to_error`.
    pub fn to_error<E>(self, e: E) -> (r: Error<'a, E>)
        ensures
            r.spec_token()@ == split_view(self@, error_len(self@.text)).0,
            r.spec_error() == e,
    {
        self.token().to_error(self.config(), e)
    }
}

impl<'a, E> Error<'a, E> {
    pub closed spec fn spec_token(&self) -> Token<'a> {
        self.token
    }

    pub closed spec fn spec_error(&self) -> E {
        self.error
    }

    /// Creates a new parsing error.
    pub fn new(token: Token<'a>, error: E) -> (r: Self)
        ensures
            r.spec_token() == token,
            r.spec_error() == error,
    {
        Self { token, error }
    }

    /// Gets the token.
    pub fn token(&self) -> (r: Token<'a>)
        ensures
            r == self.spec_token(),
    {
        self.token
    }

    /// Gets the typed error.
    pub fn error(&self) -> (r: &E)
        ensures
            *r == self.spec_error(),
    {
        &self.error
    }

    /// Converts the error to the typed error.
    pub fn to_error(self) -> (r: E)
        ensures
            r == self.spec_error(),
    {
        self.error
    }

    /// Maps the typed error, keeping the token.
    pub fn map<F, E2>(self, map_fn: F) -> (r: Error<'a, E2>)
        where
            F: Fn(E) -> E2,
        requires
            map_fn.requires((self.spec_error(),)),
        ensures
            r.spec_token() == self.spec_token(),
            map_fn.ensures((self.spec_error(),), r.spec_error()),
    {
        let token: Token = self.token;
        let error: E2 = map_fn(self.error);
        Error { token, error }
    }
}

} // verus!
