//! Punctuation marks and line lookup on the parse cursor.

use vstd::prelude::*;
use vstd::string::StringSliceAdditionalSpecFns;
use vstd::utf8::{encode_utf8, valid_utf8};

use crate::comment::layout_len;
use crate::context::{rest_of_line_view, starts_with, ParseContext};
use crate::error::{error_len, ParseResult};
use crate::text::{lemma_prefix_boundary, split_view, TokenView, CR, LF};
use crate::token::Token;

verus! {

broadcast use {vstd::utf8::encode_utf8_valid_utf8, vstd::slice::group_slice_axioms};

/// Relies on `char::encode_utf8`: the UTF-8 encoding of `c`.
#[verifier::external_body]
fn char_utf8(c: char) -> (r: Vec<u8>)
    ensures
        r@ == encode_utf8(seq![c]),
{
    let mut b: [u8; 4] = [0u8; 4];
    c.encode_utf8(&mut b).as_bytes().to_vec()
}

/// Whether a literal `p` matches at the start of `t`: `t` starts with `p`, and the match does not
/// end between the `CR` and `LF` of a `CRLF`.
pub open spec fn literal_matches(t: Seq<u8>, p: Seq<u8>) -> bool {
    &&& starts_with(t, p)
    &&& !(p.len() > 0 && p.last() == CR && t.len() > p.len() && t[p.len() as int] == LF)
}

/// The text of line `k` of `t`, counting from 0, when `t` has that many lines.
pub open spec fn line_text(t: TokenView, k: nat) -> Option<Seq<u8>>
    decreases k,
{
    if k == 0 {
        Some(rest_of_line_view(t).0.text)
    } else if rest_of_line_view(t).1 is None {
        None
    } else {
        line_text(rest_of_line_view(t).2, (k - 1) as nat)
    }
}

impl<'a> ParseContext<'a> {
    /// Parses the literal bytes `p`, refusing a match that would split a `CRLF`.
    fn exact_bytes(&self, p: &[u8]) -> (r: (Option<Token<'a>>, Self))
        requires
            valid_utf8(p@),
        ensures
            literal_matches(self@.text, p@) ==> r.0 is Some && (r.0->Some_0@, r.1@) == split_view(
                self@,
                p@.len() as int,
            ) && r.1.config_ref() == self.config_ref(),
            !literal_matches(self@.text, p@) ==> r.0 is None && r.1 == *self,
    {
        let tok = self.token();
        let t = tok.bytes();
        let n = p.len();
        if crate::context::bytes_start_with(t, p) && !(n > 0 && p[n - 1] == CR && t.len() > n
            && t[n] == LF) {
            proof {
                assert(t@.subrange(0, n as int) == p@);
                lemma_prefix_boundary(t@, n as int);
            }
            let (left, right) = self.split(n);
            (Some(left.token()), right)
        } else {
            (None, *self)
        }
    }

    /// Parses a punctuation mark.
    ///
    /// Returns `(Some(mark), after_mark)`.
    /// Returns `(None, self)` if the next token is not `mark`.
    pub fn mark(&self, mark: char) -> (r: (Option<Token<'a>>, Self))
        ensures
            literal_matches(self@.text, encode_utf8(seq![mark])) ==> r.0 is Some && (
            r.0->Some_0@, r.1@) == split_view(self@, encode_utf8(seq![mark]).len() as int)
                && r.1.config_ref() == self.config_ref(),
            !literal_matches(self@.text, encode_utf8(seq![mark])) ==> r.0 is None && r.1 == *self,
    {
        let b = char_utf8(mark);
        self.exact_bytes(b.as_slice())
    }

    /// Parses a punctuation mark after optional white-line-comments.
    ///
    /// Returns `(Some(mark), after_mark)`.
    /// Returns `(None, self)` if the next non-white token is not `mark`.
    pub fn white_mark(&self, mark: char) -> (r: (Option<Token<'a>>, Self))
        ensures
            ({
                let n = layout_len(self@.text, self.config_ref().delimiter());
                let after = if n == 0 {
                    self@
                } else {
                    split_view(self@, n).1
                };
                &&& literal_matches(after.text, encode_utf8(seq![mark])) ==> r.0 is Some && (
                r.0->Some_0@, r.1@) == split_view(after, encode_utf8(seq![mark]).len() as int)
                    && r.1.config_ref() == self.config_ref()
                &&& !literal_matches(after.text, encode_utf8(seq![mark])) ==> r.0 is None && r.1
                    == *self
            }),
    {
        let (_white, after_white) = self.white_line_comments();
        let (m, after_mark) = after_white.mark(mark);
        if m.is_some() {
            (m, after_mark)
        } else {
            (None, *self)
        }
    }

    /// Parses the punctuation char `c`, after optional white-line-comments.
    ///
    /// Returns `Ok(c, after_c)`, or the error at the first token after the white-line-comments.
    pub fn parse_char<E>(self, c: char, error: E) -> (r: ParseResult<'a, Token<'a>, E>)
        ensures
            ({
                let n = layout_len(self@.text, self.config_ref().delimiter());
                let after = if n == 0 {
                    self@
                } else {
                    split_view(self@, n).1
                };
                &&& literal_matches(after.text, encode_utf8(seq![c])) ==> r is Ok && (
                r->Ok_0.0@, r->Ok_0.1@) == split_view(after, encode_utf8(seq![c]).len() as int)
                    && r->Ok_0.1.config_ref() == self.config_ref()
                &&& !literal_matches(after.text, encode_utf8(seq![c])) ==> r is Err
                    && r->Err_0.spec_token()@ == split_view(after, error_len(after.text)).0
                    && r->Err_0.spec_error() == error
            }),
    {
        let (_white, after_white) = self.white_line_comments();
        if let (Some(c), after_c) = after_white.mark(c) {
            Ok((c, after_c))
        } else {
            Err(after_white.to_error(error))
        }
    }

    /// Gets the text of the 0-indexed `line_number`, or `None` when there is no such line.
    ///
    /// This scans the context from its start.
    pub fn get_line_text(&self, line_number: usize) -> (r: Option<&'a str>)
        ensures
            r is None == line_text(self@, line_number as nat) is None,
            r is Some ==> Some(r->Some_0.spec_bytes()) == line_text(self@, line_number as nat),
    {
        let mut c: ParseContext = *self;
        let mut i: usize = 0;
        while i < line_number
            invariant
                i <= line_number,
                line_text(self@, line_number as nat) == line_text(c@, (line_number - i) as nat),
            decreases line_number - i,
        {
            if let (_l, Some(_le), after_le) = c.rest_of_line() {
                c = after_le;
            } else {
                return None;
            }
            i += 1;
        }
        let (line, _, _) = c.rest_of_line();
        Some(line.value())
    }
}

} // verus!
