//! A token of a tokenized source: a slice of the source tagged with its kind.

use vstd::prelude::*;
use vstd::string::StringSliceAdditionalSpecFns;

use crate::kind::Kind;
use crate::token::Token;

verus! {

/// The abstract value of a lexeme.
pub ghost struct LexemeView {
    pub kind: Kind,
    pub text: Seq<u8>,
    pub line: int,
    pub position: int,
}

/// A token of tokenized source code: its kind, its text and where its first byte sits.
#[derive(Copy, Clone, PartialEq, Eq, Hash, Debug)]
pub struct Lexeme<'a> {
    kind: Kind,
    value: &'a str,
    line: u32,
    position: u32,
}

impl<'a> View for Lexeme<'a> {
    type V = LexemeView;

    closed spec fn view(&self) -> LexemeView {
        LexemeView {
            kind: self.kind,
            text: self.value.spec_bytes(),
            line: self.line as int,
            position: self.position as int,
        }
    }
}

impl<'a> Lexeme<'a> {
    /// Creates a new lexeme.
    pub fn new(kind: Kind, value: &'a str, line: u32, position: u32) -> (r: Self)
        ensures
            r@ == (LexemeView {
                kind,
                text: value.spec_bytes(),
                line: line as int,
                position: position as int,
            }),
    {
        Lexeme { kind, value, line, position }
    }

    /// Gets the kind.
    pub fn kind(&self) -> (r: Kind)
        ensures
            r == self@.kind,
    {
        self.kind
    }

    /// Gets the string value.
    pub fn value(&self) -> (r: &'a str)
        ensures
            r.spec_bytes() == self@.text,
    {
        self.value
    }

    /// Gets the 0-indexed line number.
    pub fn line(&self) -> (r: u32)
        ensures
            r == self@.line,
    {
        self.line
    }

    /// Gets the 0-indexed byte position of the first byte within the line.
    pub fn position(&self) -> (r: u32)
        ensures
            r == self@.position,
    {
        self.position
    }

    /// Gets the lexeme as a span of the source, without its kind.
    pub fn span(&self) -> (r: Token<'a>)
        ensures
            r@.text == self@.text,
            r@.line == self@.line,
            r@.position == self@.position,
    {
        Token::new(self.value, self.line as usize, self.position as usize)
    }
}

} // verus!
