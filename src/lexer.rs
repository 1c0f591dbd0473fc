//! The tokenizer: maximal-munch classification of source bytes into lexemes.

use vstd::prelude::*;
use vstd::string::StringSliceAdditionalSpecFns;

use crate::kind::{
    is_control, is_control_byte, is_non_ascii_byte, is_symbol, is_symbol_byte, is_whitespace_byte,
    run_byte, Kind,
};
use crate::lex::{
    concat_texts, counters_from, distinct_neighbours, fits_u32, lemma_counters_step,
    no_duplicates, step, Lex,
};
use crate::lexeme::{Lexeme, LexemeView};
use crate::text::{
    lemma_ascii_prefix_boundary, lemma_before_ascii_boundary, line_ending_prefix_len, CR, LF,
    SPACE, TAB,
};

verus! {

broadcast use {vstd::utf8::encode_utf8_valid_utf8, vstd::slice::group_slice_axioms};

/// The kind of the token that starts `s`, decided by its first byte.
pub open spec fn first_kind(s: Seq<u8>) -> Kind {
    let c = s[0];
    if c > 127 {
        Kind::NonAscii
    } else if c == CR || c == LF {
        Kind::LineEnding
    } else if c == SPACE || c == TAB {
        Kind::Whitespace
    } else if c < 32 || c == 127 {
        Kind::Controls
    } else if is_symbol_byte(c) {
        Kind::Symbol
    } else {
        Kind::Special(c)
    }
}

/// The end of the run of bytes of kind `k` that covers index `i` onwards.
pub open spec fn run_end(k: Kind, s: Seq<u8>, i: int) -> int
    decreases s.len() - i,
{
    if i < 0 || i >= s.len() || !run_byte(k, s[i]) {
        i
    } else {
        run_end(k, s, i + 1)
    }
}

/// The length of the token that starts `s`: the longest run of its kind, a whole line-ending
/// (`CRLF` as one), or a single special byte.
pub open spec fn first_len(s: Seq<u8>) -> int {
    match first_kind(s) {
        Kind::LineEnding => line_ending_prefix_len(s) as int,
        Kind::Special(_) => 1,
        k => run_end(k, s, 0),
    }
}

/// The tokens of `s` when its first byte sits at `line` and `position`.
pub open spec fn tokenize(s: Seq<u8>, line: int, position: int) -> Seq<LexemeView>
    decreases s.len(),
{
    if s.len() == 0 {
        Seq::empty()
    } else {
        let n = first_len(s);
        let t = LexemeView { kind: first_kind(s), text: s.subrange(0, n), line, position };
        if 0 < n <= s.len() {
            seq![t] + tokenize(s.subrange(n, s.len() as int), step(line, position, t).0, step(line, position, t).1)
        } else {
            Seq::empty()
        }
    }
}

/// Whether every counter reached while walking `tokens` fits in 32 bits.
pub open spec fn counters_fit(tokens: Seq<LexemeView>) -> bool {
    forall|i: int| 0 <= i < tokens.len() ==> fits_u32(#[trigger] counters_from(0, 0, tokens, i + 1))
}

pub proof fn lemma_run_end(k: Kind, s: Seq<u8>, i: int)
    requires
        0 <= i <= s.len(),
    ensures
        i <= run_end(k, s, i) <= s.len(),
        forall|j: int| i <= j < run_end(k, s, i) ==> run_byte(k, #[trigger] s[j]),
        run_end(k, s, i) < s.len() ==> !run_byte(k, s[run_end(k, s, i)]),
    decreases s.len() - i,
{
    if i < s.len() && run_byte(k, s[i]) {
        lemma_run_end(k, s, i + 1);
    }
}

/// A run end is the first index from `i` whose byte leaves the run.
pub proof fn lemma_run_end_unique(k: Kind, s: Seq<u8>, i: int, r: int)
    requires
        0 <= i <= r <= s.len(),
        forall|j: int| i <= j < r ==> run_byte(k, #[trigger] s[j]),
        r < s.len() ==> !run_byte(k, s[r]),
    ensures
        run_end(k, s, i) == r,
    decreases r - i,
{
    if i < r {
        lemma_run_end_unique(k, s, i + 1, r);
    }
}

/// The first token of a non-empty source is non-empty and fits in it; a run token's first byte
/// belongs to its run.
pub proof fn lemma_first_len(s: Seq<u8>)
    requires
        s.len() > 0,
    ensures
        0 < first_len(s) <= s.len(),
        first_kind(s) != Kind::LineEnding && !(first_kind(s) is Special) ==> run_byte(
            first_kind(s),
            s[0],
        ),
        first_kind(s) != Kind::NonAscii ==> s[0] < 128,
{
    lemma_run_end(first_kind(s), s, 0);
    let k = first_kind(s);
    if k != Kind::LineEnding && !(k is Special) {
        assert(run_byte(k, s[0]));
        lemma_run_end(k, s, 1);
        assert(run_end(k, s, 0) == run_end(k, s, 1));
    }
}

pub proof fn lemma_tokenize_unfold(s: Seq<u8>, line: int, position: int)
    requires
        s.len() > 0,
    ensures
        ({
            let n = first_len(s);
            let t = LexemeView { kind: first_kind(s), text: s.subrange(0, n), line, position };
            &&& 0 < n <= s.len()
            &&& tokenize(s, line, position) == seq![t] + tokenize(
                s.subrange(n, s.len() as int),
                step(line, position, t).0,
                step(line, position, t).1,
            )
        }),
{
    lemma_first_len(s);
}

/// Concatenating the tokens' texts gives back the source.
pub proof fn lemma_tokenize_concat(s: Seq<u8>, line: int, position: int)
    ensures
        concat_texts(tokenize(s, line, position)) == s,
    decreases s.len(),
{
    if s.len() == 0 {
        assert(tokenize(s, line, position).len() == 0);
        assert(s =~= Seq::<u8>::empty());
    } else {
        lemma_tokenize_unfold(s, line, position);
        let n = first_len(s);
        let toks = tokenize(s, line, position);
        let t = toks[0];
        let rest = s.subrange(n, s.len() as int);
        let (l, p) = step(line, position, t);
        lemma_tokenize_concat(rest, l, p);
        assert(toks.skip(1) =~= tokenize(rest, l, p));
        assert(s =~= s.subrange(0, n) + rest);
    }
}

/// Each token sits at the line and position reached through the tokens before it.
pub proof fn lemma_tokenize_counters(s: Seq<u8>, line: int, position: int)
    ensures
        forall|i: int|
            0 <= i < tokenize(s, line, position).len() ==> ((#[trigger] tokenize(
                s,
                line,
                position,
            )[i]).line, tokenize(s, line, position)[i].position) == counters_from(
                line,
                position,
                tokenize(s, line, position),
                i,
            ),
    decreases s.len(),
{
    if s.len() > 0 {
        lemma_tokenize_unfold(s, line, position);
        let n = first_len(s);
        let toks = tokenize(s, line, position);
        let t = toks[0];
        let rest = s.subrange(n, s.len() as int);
        let (l, p) = step(line, position, t);
        lemma_tokenize_counters(rest, l, p);
        assert(toks.skip(1) =~= tokenize(rest, l, p));
        assert forall|i: int| 0 <= i < toks.len() implies (#[trigger] toks[i].line, toks[i].position)
            == counters_from(line, position, toks, i) by {
            if i > 0 {
                assert(toks[i] == tokenize(rest, l, p)[i - 1]);
            }
        }
    }
}

/// Adjacent tokens could never have been one token.
pub proof fn lemma_tokenize_no_duplicates(s: Seq<u8>, line: int, position: int)
    ensures
        no_duplicates(tokenize(s, line, position)),
    decreases s.len(),
{
    if s.len() > 0 {
        lemma_tokenize_unfold(s, line, position);
        let n = first_len(s);
        let toks = tokenize(s, line, position);
        let t = toks[0];
        let rest = s.subrange(n, s.len() as int);
        let (l, p) = step(line, position, t);
        lemma_tokenize_no_duplicates(rest, l, p);
        let tail = tokenize(rest, l, p);
        assert(toks.skip(1) =~= tail);
        if tail.len() > 0 {
            lemma_tokenize_unfold(rest, l, p);
            lemma_first_len(rest);
            let k = first_kind(s);
            assert(toks[1] == tail[0]);
            assert(tail[0].kind == first_kind(rest));
            assert(rest[0] == s[n]);
            if k != Kind::LineEnding && !(k is Special) {
                lemma_run_end(k, s, 0);
                assert(n == run_end(k, s, 0));
                assert(!run_byte(k, rest[0]));
                assert(first_kind(rest) != k);
            }
            if k == Kind::LineEnding && first_kind(rest) == Kind::LineEnding && t.text == seq![CR] {
                assert(seq![CR].len() == 1 && seq![CR][0] == CR);
                assert(n == 1);
                assert(t.text[0] == s[0]);
                assert(s[0] == CR);
                assert(line_ending_prefix_len(s) == 1);
                assert(s.len() < 2 || s[1] != LF);
                assert(tail[0].text.len() > 0 && tail[0].text[0] == rest[0]);
                assert(seq![LF][0] == LF);
                assert(tail[0].text != seq![LF]);
            }
            assert(distinct_neighbours(toks[0], toks[1]));
        }
        assert forall|i: int| 0 < i < toks.len() implies distinct_neighbours(
            toks[i - 1],
            #[trigger] toks[i],
        ) by {
            if i > 1 {
                assert(toks[i] == tail[i - 1]);
                assert(toks[i - 1] == tail[i - 2]);
            }
        }
    }
}

/// Every token has at least one byte.
pub proof fn lemma_tokenize_non_empty(s: Seq<u8>, line: int, position: int)
    ensures
        forall|i: int|
            0 <= i < tokenize(s, line, position).len() ==> (#[trigger] tokenize(
                s,
                line,
                position,
            )[i]).text.len() > 0,
    decreases s.len(),
{
    if s.len() > 0 {
        lemma_tokenize_unfold(s, line, position);
        let n = first_len(s);
        let toks = tokenize(s, line, position);
        let rest = s.subrange(n, s.len() as int);
        let (l, p) = step(line, position, toks[0]);
        lemma_tokenize_non_empty(rest, l, p);
        assert forall|i: int| 0 <= i < toks.len() implies (#[trigger] toks[i]).text.len() > 0 by {
            if i > 0 {
                assert(toks[i] == tokenize(rest, l, p)[i - 1]);
            }
        }
    }
}

/// Tokenizing reconstructs the source: the tokens' texts, concatenated, are the source exactly.
pub proof fn lemma_round_trip(s: Seq<u8>)
    ensures
        concat_texts(tokenize(s, 0, 0)) == s,
{
    lemma_tokenize_concat(s, 0, 0);
}

/// Tokens are maximal: no two adjacent tokens share a kind that runs over several bytes, and two
/// adjacent line-endings never split a `CRLF`.
pub proof fn lemma_maximal_munch(s: Seq<u8>)
    ensures
        forall|i: int|
            0 < i < tokenize(s, 0, 0).len() ==> {
                let a = tokenize(s, 0, 0)[i - 1];
                let b = #[trigger] tokenize(s, 0, 0)[i];
                &&& a.kind == b.kind ==> !(b.kind is NonAscii || b.kind is Whitespace
                    || b.kind is Controls || b.kind is Symbol)
                &&& a.kind == Kind::LineEnding && b.kind == Kind::LineEnding ==> !(a.text
                    == seq![CR] && b.text == seq![LF])
            },
{
    lemma_tokenize_no_duplicates(s, 0, 0);
}

/// After a line-ending the next token starts a new line at position 0; after any other token it
/// stays on the line, its position moved on by that token's length, which is never 0.
pub proof fn lemma_position_monotonicity(s: Seq<u8>)
    ensures
        forall|i: int|
            0 <= i < tokenize(s, 0, 0).len() ==> (#[trigger] tokenize(s, 0, 0)[i]).text.len() > 0,
        forall|i: int|
            0 < i < tokenize(s, 0, 0).len() ==> {
                let a = tokenize(s, 0, 0)[i - 1];
                let b = #[trigger] tokenize(s, 0, 0)[i];
                &&& a.kind == Kind::LineEnding ==> b.line == a.line + 1 && b.position == 0
                &&& a.kind != Kind::LineEnding ==> b.line == a.line && b.position == a.position
                    + a.text.len()
            },
{
    let toks = tokenize(s, 0, 0);
    lemma_tokenize_non_empty(s, 0, 0);
    lemma_tokenize_counters(s, 0, 0);
    assert forall|i: int| 0 < i < toks.len() implies (#[trigger] toks[i].line, toks[i].position)
        == step(toks[i - 1].line, toks[i - 1].position, toks[i - 1]) by {
        lemma_counters_step(0, 0, toks, i - 1);
        assert(toks[i - 1] == toks[i - 1]);
    }
}

/// Responsible for tokenizing source code.
#[derive(Copy, Clone, Debug)]
pub struct Lexer {
    token_buffer_size: usize,
}

impl Lexer {
    /// How many tokens the lexer makes room for up front.
    pub closed spec fn buffer_size(&self) -> usize {
        self.token_buffer_size
    }
}

impl Default for Lexer {
    fn default() -> (r: Self)
        ensures
            r.buffer_size() == 4096,
    {
        Self { token_buffer_size: 4 * 1024 }
    }
}

impl Lexer {
    /// Tokenizes the source code. Results in the lex, or an error if the source code is too
    /// large: when the number of lines, or the number of bytes within a single line, exceeds
    /// `u32::MAX`.
    pub fn lex<'a>(&self, source: &'a str) -> (r: Result<Lex<'a>, ()>)
        ensures
            r.is_ok() == counters_fit(tokenize(source.spec_bytes(), 0, 0)),
            r is Ok ==> r->Ok_0@.source == source.spec_bytes() && r->Ok_0@.tokens == tokenize(
                source.spec_bytes(),
                0,
                0,
            ) && r->Ok_0.wf(),
    {
        let ghost all = tokenize(source.spec_bytes(), 0, 0);
        let mut remaining: &'a str = source;
        let mut line: u32 = 0;
        let mut position: u32 = 0;
        let mut tokens: Vec<Lexeme<'a>> = Vec::with_capacity(self.token_buffer_size);
        proof {
            lemma_tokenize_counters(source.spec_bytes(), 0, 0);
            assert(all.skip(0) =~= all);
        }
        while remaining.as_bytes().len() > 0
            invariant
                all == tokenize(source.spec_bytes(), 0, 0),
                forall|i: int|
                    0 <= i < all.len() ==> ((#[trigger] all[i]).line, all[i].position)
                        == counters_from(0, 0, all, i),
                tokens@.len() <= all.len(),
                tokens@.map_values(|t: Lexeme<'a>| t@) == all.take(tokens@.len() as int),
                tokenize(remaining.spec_bytes(), line as int, position as int) == all.skip(
                    tokens@.len() as int,
                ),
                forall|i: int|
                    0 <= i < tokens@.len() ==> fits_u32(#[trigger] counters_from(0, 0, all, i + 1)),
            decreases remaining.spec_bytes().len(),
        {
            let ghost k = tokens@.len() as int;
            let ghost rem = remaining.spec_bytes();
            let (kind, len) = Self::next_kind_and_len(remaining);
            proof {
                lemma_tokenize_unfold(rem, line as int, position as int);
                lemma_first_len(rem);
                assert(all.skip(k)[0] == all[k]);
                assert(all.skip(k).skip(1) =~= all.skip(k + 1));
                if kind == Kind::NonAscii {
                    lemma_run_end(kind, rem, 0);
                    lemma_before_ascii_boundary(rem, len as int);
                } else {
                    if kind != Kind::LineEnding && !(kind is Special) {
                        lemma_run_end(kind, rem, 0);
                    }
                    assert(rem[len - 1] < 128) by {
                        if kind == Kind::LineEnding && len == 2 {
                            assert(rem[1] == LF);
                        }
                    }
                    lemma_ascii_prefix_boundary(rem, len as int);
                }
                lemma_counters_step(0, 0, all, k);
            }
            if len > u32::MAX as usize {
                return Err(());
            }
            let (value, rest) = remaining.split_at(len);
            let token: Lexeme<'a> = Lexeme::new(kind, value, line, position);
            tokens.push(token);
            proof {
                assert(tokens@.map_values(|t: Lexeme<'a>| t@) =~= all.take(k + 1));
            }
            if token.kind() == Kind::LineEnding {
                position = 0;
                match line.checked_add(1) {
                    Some(l) => line = l,
                    None => return Err(()),
                }
            } else {
                match position.checked_add(len as u32) {
                    Some(p) => position = p,
                    None => return Err(()),
                }
            }
            remaining = rest;
        }
        proof {
            assert(tokenize(remaining.spec_bytes(), line as int, position as int).len() == 0);
            assert(all.take(tokens@.len() as int) =~= all);
            lemma_tokenize_concat(source.spec_bytes(), 0, 0);
            lemma_tokenize_no_duplicates(source.spec_bytes(), 0, 0);
        }
        Ok(Lex::new(source, tokens))
    }

    /// Gets the kind and the length of the token that starts `s`.
    pub fn next_kind_and_len(s: &str) -> (r: (Kind, usize))
        requires
            s.spec_bytes().len() > 0,
        ensures
            r.0 == first_kind(s.spec_bytes()),
            r.1 == first_len(s.spec_bytes()),
    {
        let b: &[u8] = s.as_bytes();
        let first: u8 = b[0];
        let ghost bs = b@;
        if first > 127 {
            let n = Self::prefix_len(b, |c: u8| -> (r: bool) ensures r == is_non_ascii_byte(c) { c > 127 });
            proof { lemma_run_end_unique(Kind::NonAscii, bs, 0, n as int); }
            (Kind::NonAscii, n)
        } else if first == CR || first == LF {
            (Kind::LineEnding, Self::line_ending_len(b))
        } else if first == SPACE || first == TAB {
            let n = Self::prefix_len(b, |c: u8| -> (r: bool) ensures r == is_whitespace_byte(c) { c == SPACE || c == TAB });
            proof { lemma_run_end_unique(Kind::Whitespace, bs, 0, n as int); }
            (Kind::Whitespace, n)
        } else if first < 32 || first == 127 {
            let n = Self::prefix_len(b, |c: u8| -> (r: bool) ensures r == is_control_byte(c) { is_control(c) });
            proof { lemma_run_end_unique(Kind::Controls, bs, 0, n as int); }
            (Kind::Controls, n)
        } else if is_symbol(first) {
            let n = Self::prefix_len(b, |c: u8| -> (r: bool) ensures r == is_symbol_byte(c) { is_symbol(c) });
            proof { lemma_run_end_unique(Kind::Symbol, bs, 0, n as int); }
            (Kind::Symbol, n)
        } else {
            (Kind::Special(first), 1)
        }
    }

    /// Gets the length of the prefix of `b` whose bytes all satisfy `f`.
    pub fn prefix_len<F>(b: &[u8], f: F) -> (r: usize)
        where
            F: Fn(u8) -> bool,
        requires
            forall|c: u8| f.requires((c,)),
        ensures
            r <= b@.len(),
            forall|i: int| 0 <= i < r ==> f.ensures((#[trigger] b@[i],), true),
            r < b@.len() ==> f.ensures((b@[r as int],), false),
    {
        let mut i: usize = 0;
        while i < b.len()
            invariant
                i <= b@.len(),
                forall|c: u8| f.requires((c,)),
                forall|j: int| 0 <= j < i ==> f.ensures((#[trigger] b@[j],), true),
            decreases b@.len() - i,
        {
            if !f(b[i]) {
                return i;
            }
            i = i + 1;
        }
        i
    }

    /// Gets the length of the line-ending that starts `b`: 2 for `CRLF`, otherwise 1.
    pub fn line_ending_len(b: &[u8]) -> (r: usize)
        requires
            b@.len() > 0,
            b@[0] == CR || b@[0] == LF,
        ensures
            r == line_ending_prefix_len(b@),
    {
        if b[0] == LF || b.len() == 1 || b[1] != LF {
            1
        } else {
            2
        }
    }
}

} // verus!
