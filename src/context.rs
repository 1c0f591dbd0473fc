//! The parse cursor: a span of source text paired with the parse configuration, and the
//! combinators that carve it up.

use vstd::prelude::*;
use vstd::string::StringSliceAdditionalSpecFns;

use crate::config::Config;
use crate::kind::{is_symbol, is_symbol_byte, is_whitespace_byte, Kind};
use crate::lexer::{lemma_run_end, lemma_run_end_unique, run_end, Lexer};
use crate::text::{
    accepted_prefix, lemma_ascii_filter,
    in_line, is_cr_or_lf, is_layout_byte, layout, lemma_ascii_prefix_boundary,
    lemma_before_ascii_boundary, lemma_prefix_boundary, lemma_scan_end_unique,
    line_ending_prefix_len, scan_end, split_view, valid_split_index, TokenView, CR, LF, SPACE, TAB,
};
use crate::token::Token;

verus! {

broadcast use {vstd::utf8::encode_utf8_valid_utf8, vstd::slice::group_slice_axioms};

/// A lexical token with an associated parse config.
#[derive(Copy, Clone, Debug)]
pub struct Context<'a> {
    token: Token<'a>,
    config: &'a Config,
}

/// The name under which the combinators of the comment-block layer know the cursor.
pub type ParseContext<'a> = Context<'a>;

/// Whether `s` starts with `p`.
pub open spec fn starts_with(s: Seq<u8>, p: Seq<u8>) -> bool {
    p.len() <= s.len() && s.subrange(0, p.len() as int) == p
}

/// The three parts of the rest of a line: its text, its line-ending if any, and what follows.
pub open spec fn rest_of_line_view(t: TokenView) -> (TokenView, Option<TokenView>, TokenView) {
    let e = scan_end(t.text, in_line(), 0);
    let (line, after) = split_view(t, e);
    let n = line_ending_prefix_len(after.text) as int;
    if n == 0 {
        (line, None, after)
    } else {
        (line, Some(split_view(after, n).0), split_view(after, n).1)
    }
}

/// Checks whether `s` starts with `p`.
pub fn bytes_start_with(s: &[u8], p: &[u8]) -> (r: bool)
    ensures
        r == starts_with(s@, p@),
{
    if p.len() > s.len() {
        return false;
    }
    let mut i: usize = 0;
    while i < p.len()
        invariant
            p@.len() <= s@.len(),
            i <= p@.len(),
            forall|j: int| 0 <= j < i ==> s@[j] == p@[j],
        decreases p@.len() - i,
    {
        if s[i] != p[i] {
            assert(s@.subrange(0, p@.len() as int)[i as int] != p@[i as int]);
            return false;
        }
        i = i + 1;
    }
    assert(s@.subrange(0, p@.len() as int) =~= p@);
    true
}

impl<'a> View for Context<'a> {
    type V = TokenView;

    closed spec fn view(&self) -> TokenView {
        self.token@
    }
}

impl<'a> Context<'a> {
    #[verifier::type_invariant]
    spec fn inv(&self) -> bool {
        self.token.wf()
    }

    /// The config that the cursor parses with.
    pub closed spec fn config_ref(&self) -> &'a Config {
        self.config
    }

    /// `r` is this cursor split after `n` bytes, with nothing taken when `n` is 0.
    pub open spec fn took(&self, n: int, r: (Option<Self>, Self)) -> bool {
        &&& r.1.config_ref() == self.config_ref()
        &&& if n == 0 {
            r.0 is None && r.1@ == self@
        } else {
            &&& r.0 is Some
            &&& r.0->Some_0.config_ref() == self.config_ref()
            &&& (r.0->Some_0@, r.1@) == split_view(self@, n)
        }
    }

    /// Creates a new parse context.
    pub fn new(token: Token<'a>, config: &'a Config) -> (r: Self)
        requires
            token.wf(),
        ensures
            r@ == token@,
            r.config_ref() == config,
    {
        Self { token, config }
    }

    /// Gets the token.
    pub fn token(self) -> (r: Token<'a>)
        ensures
            r@ == self@,
            r.wf(),
    {
        proof {
            use_type_invariant(&self);
        }
        self.token
    }

    /// Gets the token value.
    pub fn value(self) -> (r: &'a str)
        ensures
            r.spec_bytes() == self@.text,
    {
        self.token.value()
    }

    /// Gets the length of the token. (in bytes)
    pub fn len(&self) -> (r: usize)
        ensures
            r == self@.text.len(),
    {
        proof {
            use_type_invariant(self);
        }
        self.token.len()
    }

    /// Checks if the token is empty.
    pub fn is_empty(&self) -> (r: bool)
        ensures
            r == (self@.text.len() == 0),
    {
        proof {
            use_type_invariant(self);
        }
        self.token.is_empty()
    }

    /// Gets the config.
    pub fn config(&self) -> (r: &'a Config)
        ensures
            r == self.config_ref(),
    {
        self.config
    }
}

impl<'a> ParseContext<'a> {
    /// Splits the parser at the `index`, which must be a valid split index.
    ///
    /// Returns `(before_index, index_and_after)`.
    pub fn split(&self, index: usize) -> (r: (Self, Self))
        requires
            valid_split_index(self@.text, index as int),
        ensures
            (r.0@, r.1@) == split_view(self@, index as int),
            r.0.config_ref() == self.config_ref(),
            r.1.config_ref() == self.config_ref(),
    {
        proof {
            use_type_invariant(self);
        }
        let (left, right) = self.token.split(index);
        (Self::new(left, self.config), Self::new(right, self.config))
    }

    /// Splits the parser at the `index`, which must be a valid split index.
    ///
    /// Returns `(Some(before_index), index_and_after)` if the `index` is not `0`.
    /// Returns `(None, self)` if the `index` is `0`.
    pub fn split_optional(&self, index: usize) -> (r: (Option<Self>, Self))
        requires
            valid_split_index(self@.text, index as int),
        ensures
            self.took(index as int, r),
            index == 0 ==> r.1 == *self,
    {
        if index == 0 {
            (None, *self)
        } else {
            let (left, right) = self.split(index);
            (Some(left), right)
        }
    }

    /// Gets the number of bytes from the prefix that match `prefix_fn`.
    fn match_prefix_len<F>(&self, prefix_fn: F) -> (r: usize)
        where
            F: Fn(u8) -> bool,
        requires
            forall|c: u8| prefix_fn.requires((c,)),
        ensures
            r <= self@.text.len(),
            forall|i: int| 0 <= i < r ==> prefix_fn.ensures((#[trigger] self@.text[i],), true),
            r < self@.text.len() ==> prefix_fn.ensures((self@.text[r as int],), false),
    {
        Lexer::prefix_len(self.token.bytes(), prefix_fn)
    }

    /// Parses the non-empty prefix of bytes that match `prefix_fn`, whose longest
    /// accepted prefix must end at a valid split index (as it does when `prefix_fn` accepts only
    /// US-ASCII bytes other than `CR`).
    ///
    /// Returns `(Some(matched_prefix), after_matched_prefix)`.
    /// Returns `(None, self)` when no bytes match the prefix.
    pub fn match_prefix_optional_unchecked<F>(&self, prefix_fn: F) -> (r: (Option<Self>, Self))
        where
            F: Fn(u8) -> bool,
        requires
            forall|c: u8| prefix_fn.requires((c,)),
            forall|n: int| #[trigger] accepted_prefix(prefix_fn, self@.text, n) ==> valid_split_index(self@.text, n),
        ensures
            exists|n: int|
                #![trigger self.took(n, r)]
                0 <= n <= self@.text.len() && self.took(n, r) && (forall|i: int|
                    0 <= i < n ==> prefix_fn.ensures((#[trigger] self@.text[i],), true)) && (n
                    < self@.text.len() ==> prefix_fn.ensures((self@.text[n],), false)),
    {
        let n = self.match_prefix_len(prefix_fn);
        assert(accepted_prefix(prefix_fn, self@.text, n as int));
        let r = self.split_optional(n);
        assert(self.took(n as int, r));
        r
    }

    /// Parses the prefix of bytes that match `prefix_fn`, whose longest accepted prefix
    /// must end at a valid split index (as it does when `prefix_fn` accepts only US-ASCII bytes
    /// other than `CR`).
    ///
    /// Returns `(matched_prefix, after_matched_prefix)`; the matched prefix is empty when no
    /// bytes match.
    pub fn match_prefix_unchecked<F>(&self, prefix_fn: F) -> (r: (Self, Self))
        where
            F: Fn(u8) -> bool,
        requires
            forall|c: u8| prefix_fn.requires((c,)),
            forall|n: int| #[trigger] accepted_prefix(prefix_fn, self@.text, n) ==> valid_split_index(self@.text, n),
        ensures
            exists|n: int|
                #![trigger split_view(self@, n)]
                0 <= n <= self@.text.len() && (r.0@, r.1@) == split_view(self@, n) && (forall|
                    i: int,
                | 0 <= i < n ==> prefix_fn.ensures((#[trigger] self@.text[i],), true)) && (n
                    < self@.text.len() ==> prefix_fn.ensures((self@.text[n],), false)),
            r.0.config_ref() == self.config_ref(),
            r.1.config_ref() == self.config_ref(),
    {
        let n = self.match_prefix_len(prefix_fn);
        assert(accepted_prefix(prefix_fn, self@.text, n as int));
        self.split(n)
    }
}

impl<'a> Context<'a> {
    /// Parses an optional non-empty prefix of the bytes that `prefix_fn` accepts; the longest
    /// accepted prefix must end at a valid split index.
    ///
    /// Returns `(Some(matched_prefix), after_matched_prefix)`.
    /// Returns `(None, self)` when no bytes match the prefix.
    pub fn match_prefix<F>(&self, prefix_fn: F) -> (r: (Option<Self>, Self))
        where
            F: Fn(u8) -> bool,
        requires
            forall|c: u8| prefix_fn.requires((c,)),
            forall|n: int| #[trigger] accepted_prefix(prefix_fn, self@.text, n) ==> valid_split_index(self@.text, n),
        ensures
            exists|n: int|
                #![trigger self.took(n, r)]
                0 <= n <= self@.text.len() && self.took(n, r) && (forall|i: int|
                    0 <= i < n ==> prefix_fn.ensures((#[trigger] self@.text[i],), true)) && (n
                    < self@.text.len() ==> prefix_fn.ensures((self@.text[n],), false)),
    {
        self.match_prefix_optional_unchecked(prefix_fn)
    }

    /// Parses optional non-empty whitespace.
    ///
    /// Returns `(Some(whitespace), after_whitespace)`.
    /// Returns `(None, self)` when there is no whitespace.
    pub fn whitespace(&self) -> (r: (Option<Self>, Self))
        ensures
            self.took(run_end(Kind::Whitespace, self@.text, 0), r),
    {
        let f = |c: u8| -> (r: bool) ensures r == is_whitespace_byte(c) { c == SPACE || c == TAB };
        proof {
            use_type_invariant(self);
            lemma_ascii_filter(f, self@.text);
        }
        let r = self.match_prefix(f);
        proof {
            let n = choose|n: int|
                #![trigger self.took(n, r)]
                0 <= n <= self@.text.len() && self.took(n, r) && (forall|i: int|
                    0 <= i < n ==> is_whitespace_byte(#[trigger] self@.text[i])) && (n
                    < self@.text.len() ==> !is_whitespace_byte(self@.text[n]));
            lemma_run_end_unique(Kind::Whitespace, self@.text, 0, n);
        }
        r
    }

    /// Parses an optional non-empty symbol: a run of US-ASCII letters, digits and underscores.
    ///
    /// Returns `(Some(symbol), after_symbol)`.
    /// Returns `(None, self)` if there is no symbol.
    pub fn symbol(&self) -> (r: (Option<Self>, Self))
        ensures
            self.took(run_end(Kind::Symbol, self@.text, 0), r),
    {
        let f = |c: u8| -> (r: bool) ensures r == is_symbol_byte(c) { is_symbol(c) };
        proof {
            use_type_invariant(self);
            lemma_ascii_filter(f, self@.text);
        }
        let r = self.match_prefix(f);
        proof {
            let n = choose|n: int|
                #![trigger self.took(n, r)]
                0 <= n <= self@.text.len() && self.took(n, r) && (forall|i: int|
                    0 <= i < n ==> is_symbol_byte(#[trigger] self@.text[i])) && (n
                    < self@.text.len() ==> !is_symbol_byte(self@.text[n]));
            lemma_run_end_unique(Kind::Symbol, self@.text, 0, n);
        }
        r
    }

    /// Parses an optional line-ending: `CRLF` as one, or a lone `CR` or `LF`.
    ///
    /// Returns `(Some(line_ending), after_line_ending)`.
    /// Returns `(None, self)` when there is no line-ending.
    pub fn line_ending(&self) -> (r: (Option<Self>, Self))
        ensures
            self.took(line_ending_prefix_len(self@.text) as int, r),
    {
        let line_ending_len: usize = Token::line_ending_prefix_len(self.value());
        proof {
            use_type_invariant(self);
            let s = self@.text;
            if line_ending_len > 0 {
                assert(s[line_ending_len - 1] < 128);
            }
            lemma_ascii_prefix_boundary(s, line_ending_len as int);
        }
        self.split_optional(line_ending_len)
    }

    /// Parses optional non-empty whitespace & line-endings.
    ///
    /// Returns `(Some(white_lines), after_white_lines)`.
    /// Returns `(None, self)` when there is none.
    pub fn white_lines(&self) -> (r: (Option<Self>, Self))
        ensures
            self.took(scan_end(self@.text, layout(), 0), r),
    {
        let n = self.match_prefix_len(
            |c: u8| -> (r: bool) ensures r == is_layout_byte(c) { c == SPACE || c == TAB || c == CR || c == LF },
        );
        proof {
            use_type_invariant(self);
            let s = self@.text;
            lemma_scan_end_unique(s, layout(), 0, n as int);
            if n > 0 {
                assert(is_layout_byte(s[n - 1]));
            }
            lemma_ascii_prefix_boundary(s, n as int);
        }
        self.split_optional(n)
    }

    /// Parses the rest of the line.
    ///
    /// Returns `(rest_of_line, Some(line_ending), after_line_ending)`.
    /// Returns `(rest_of_input, None, empty)` when there is no line-ending.
    pub fn rest_of_line(&self) -> (r: (Self, Option<Self>, Self))
        ensures
            r.0@ == rest_of_line_view(self@).0,
            r.1 is Some == rest_of_line_view(self@).1 is Some,
            r.1 is Some ==> r.1->Some_0@ == rest_of_line_view(self@).1->Some_0,
            r.2@ == rest_of_line_view(self@).2,
            r.0.config_ref() == self.config_ref(),
            r.1 is Some ==> r.1->Some_0.config_ref() == self.config_ref(),
            r.2.config_ref() == self.config_ref(),
    {
        let b = self.token.bytes();
        let n = Lexer::prefix_len(
            b,
            |c: u8| -> (r: bool) ensures r == !is_cr_or_lf(c) { c != CR && c != LF },
        );
        proof {
            use_type_invariant(self);
            let s = self@.text;
            lemma_scan_end_unique(s, in_line(), 0, n as int);
            lemma_before_ascii_boundary(s, n as int);
        }
        let (rest_of_line, after_rest_of_line) = self.split(n);
        let (line_ending, after_line_ending) = after_rest_of_line.line_ending();
        (rest_of_line, line_ending, after_line_ending)
    }

    /// Parses an optional exact symbol: unlike `exact()`, it matches only the full symbol, never
    /// the prefix of a longer one.
    ///
    /// Returns `(Some(symbol), after_symbol)`.
    /// Returns `(None, self)` when the `symbol` is not present.
    pub fn exact_symbol(&self, symbol: &str) -> (r: (Option<Token<'a>>, Self))
        ensures
            ({
                let n = run_end(Kind::Symbol, self@.text, 0);
                if n > 0 && self@.text.subrange(0, n) == symbol.spec_bytes() {
                    &&& r.0 is Some
                    &&& (r.0->Some_0@, r.1@) == split_view(self@, n)
                    &&& r.1.config_ref() == self.config_ref()
                } else {
                    r.0 is None && r.1 == *self
                }
            }),
    {
        proof {
            lemma_run_end(Kind::Symbol, self@.text, 0);
        }
        let (s, after_symbol) = self.symbol();
        if let Some(s) = s {
            let a = s.token().bytes();
            let b = symbol.as_bytes();
            if a.len() == b.len() && bytes_start_with(a, b) {
                proof {
                    assert(a@ =~= a@.subrange(0, b@.len() as int));
                }
                return (Some(s.token()), after_symbol);
            }
            proof {
                if a@ == b@ {
                    assert(a@.subrange(0, b@.len() as int) =~= a@);
                }
            }
        }
        (None, *self)
    }

    /// Parses an optional exact string `s`.
    ///
    /// Returns `(Some(s), after_s)`.
    /// Returns `(None, self)` if the parser does not start with `s`, or if splitting after `s`
    /// would break a `CRLF` sequence.
    pub fn exact(&self, s: &str) -> (r: (Option<Token<'a>>, Self))
        ensures
            ({
                let t = self@.text;
                let p = s.spec_bytes();
                let splits_crlf = p.len() > 0 && p.last() == CR && t.len() > p.len() && t[p.len()
                    as int] == LF;
                if starts_with(t, p) && !splits_crlf {
                    &&& r.0 is Some
                    &&& (r.0->Some_0@, r.1@) == split_view(self@, p.len() as int)
                    &&& r.1.config_ref() == self.config_ref()
                } else {
                    r.0 is None && r.1 == *self
                }
            }),
    {
        let t = self.token.bytes();
        let p = s.as_bytes();
        if bytes_start_with(t, p) {
            let n = p.len();
            if n > 0 && p[n - 1] == CR && t.len() > n && t[n] == LF {
                (None, *self)
            } else {
                proof {
                    use_type_invariant(self);
                    assert(t@.subrange(0, n as int) == s.spec_bytes());
                    lemma_prefix_boundary(t@, n as int);
                }
                let (left, right) = self.split(n);
                (Some(left.token()), right)
            }
        } else {
            (None, *self)
        }
    }
}

} // verus!
