//! Free-function combinators over tokens: each takes a token and returns what it matched and
//! the token after it.

use vstd::prelude::*;
use vstd::string::StringSliceAdditionalSpecFns;
use vstd::utf8::{decode_utf8, encode_utf8, encode_utf8_decode_utf8, valid_utf8};

use crate::comment::{
    break_end_before, comment_len, ending_len, comment_view, indent_from, last_line_start, layout_len,
    lemma_break_end, lemma_clean_end_valid, lemma_comment_len, lemma_comment_view_len,
    lemma_layout_step,
};
use crate::config::valid_delimiter;
use crate::context::{bytes_start_with, rest_of_line_view, starts_with};
use crate::kind::{is_symbol, is_symbol_byte, is_whitespace_byte, Kind};
use crate::lex_error::{LexError, LexResult};
use crate::lexer::{lemma_run_end, lemma_run_end_unique, run_end, Lexer};
use crate::text::{
    accepted_prefix, lemma_ascii_filter, valid_split_index,
    in_line, is_cr_or_lf, is_layout_byte, layout, lemma_ascii_prefix_boundary,
    lemma_before_ascii_boundary, lemma_prefix_boundary, lemma_scan_end, lemma_scan_end_unique,
    line_ending_prefix_len, scan_end, split_view, CR, LF, SPACE, TAB,
};
use crate::token::Token;

verus! {

broadcast use {vstd::utf8::encode_utf8_valid_utf8, vstd::slice::group_slice_axioms};

/// `r` is `t` split after `n` bytes, with nothing taken when `n` is 0.
pub open spec fn took<'a>(t: Token<'a>, n: int, r: (Option<Token<'a>>, Token<'a>)) -> bool {
    &&& r.1.wf()
    &&& if n == 0 {
        r.0 is None && r.1 == t
    } else {
        r.0 is Some && (r.0->Some_0@, r.1@) == split_view(t@, n)
    }
}

/// `r` holds what `took` describes, or the error at `t` when nothing was taken.
pub open spec fn took_or_failed<'a>(t: Token<'a>, n: int, r: LexResult<'a, Token<'a>, ()>) -> bool {
    if n == 0 {
        r is Err && r->Err_0.spec_token() == t
    } else {
        r is Ok && (r->Ok_0.0@, r->Ok_0.1@) == split_view(t@, n) && r->Ok_0.1.wf()
    }
}

/// Turns an optional match into a result: the match, or an error at the token.
fn required<'a>(r: (Option<Token<'a>>, Token<'a>)) -> (q: LexResult<'a, Token<'a>, ()>)
    ensures
        r.0 is Some ==> q is Ok && q->Ok_0 == (r.0->Some_0, r.1),
        r.0 is None ==> q is Err && q->Err_0.spec_token() == r.1,
{
    match r.0 {
        Some(m) => Ok((m, r.1)),
        None => Err(LexError::new(r.1, ())),
    }
}

/// Matches an optional non-empty prefix of the token whose bytes `filter` accepts; the
/// longest accepted prefix must end at a valid split index.
pub fn match_prefix_optional<'a, F>(token: Token<'a>, filter: F) -> (r: (Option<Token<'a>>, Token<'a>))
    where
        F: Fn(u8) -> bool,
    requires
        token.wf(),
        forall|c: u8| filter.requires((c,)),
        forall|n: int| #[trigger] accepted_prefix(filter, token@.text, n) ==> valid_split_index(token@.text, n),
    ensures
        exists|n: int|
            #![trigger took(token, n, r)]
            0 <= n <= token@.text.len() && took(token, n, r) && (forall|i: int|
                0 <= i < n ==> filter.ensures((#[trigger] token@.text[i],), true)) && (n
                < token@.text.len() ==> filter.ensures((token@.text[n],), false)),
{
    let prefix_len: usize = Lexer::prefix_len(token.bytes(), filter);
    assert(accepted_prefix(filter, token@.text, prefix_len as int));
    let r = token.split_optional(prefix_len);
    assert(took(token, prefix_len as int, r));
    r
}

/// Matches a non-empty prefix of the token whose bytes `filter` accepts; the longest
/// accepted prefix must end at a valid split index.
pub fn match_prefix<'a, F>(token: Token<'a>, filter: F) -> (r: LexResult<'a, Token<'a>, ()>)
    where
        F: Fn(u8) -> bool,
    requires
        token.wf(),
        forall|c: u8| filter.requires((c,)),
        forall|n: int| #[trigger] accepted_prefix(filter, token@.text, n) ==> valid_split_index(token@.text, n),
    ensures
        exists|n: int|
            #![trigger took_or_failed(token, n, r)]
            0 <= n <= token@.text.len() && took_or_failed(token, n, r) && (forall|i: int|
                0 <= i < n ==> filter.ensures((#[trigger] token@.text[i],), true)) && (n
                < token@.text.len() ==> filter.ensures((token@.text[n],), false)),
{
    let m = match_prefix_optional(token, filter);
    let ghost n = choose|n: int|
        #![trigger took(token, n, m)]
        0 <= n <= token@.text.len() && took(token, n, m) && (forall|i: int|
            0 <= i < n ==> filter.ensures((#[trigger] token@.text[i],), true)) && (n
            < token@.text.len() ==> filter.ensures((token@.text[n],), false));
    let r = required(m);
    assert(took_or_failed(token, n, r));
    r
}

/// Parses optional non-empty whitespace: spaces & tabs.
pub fn whitespace_optional<'a>(token: Token<'a>) -> (r: (Option<Token<'a>>, Token<'a>))
    requires
        token.wf(),
    ensures
        took(token, run_end(Kind::Whitespace, token@.text, 0), r),
{
    let f = |c: u8| -> (r: bool) ensures r == is_whitespace_byte(c) { c == SPACE || c == TAB };
    proof {
        lemma_ascii_filter(f, token@.text);
    }
    let r = match_prefix_optional(token, f);
    proof {
        let n = choose|n: int|
            #![trigger took(token, n, r)]
            0 <= n <= token@.text.len() && took(token, n, r) && (forall|i: int|
                0 <= i < n ==> is_whitespace_byte(#[trigger] token@.text[i])) && (n
                < token@.text.len() ==> !is_whitespace_byte(token@.text[n]));
        lemma_run_end_unique(Kind::Whitespace, token@.text, 0, n);
    }
    r
}

/// Parses non-empty whitespace: spaces & tabs.
pub fn whitespace<'a>(token: Token<'a>) -> (r: LexResult<'a, Token<'a>, ()>)
    requires
        token.wf(),
    ensures
        took_or_failed(token, run_end(Kind::Whitespace, token@.text, 0), r),
{
    required(whitespace_optional(token))
}

/// Parses an optional symbol: a run of US-ASCII letters, digits and underscores.
pub fn symbol_optional<'a>(token: Token<'a>) -> (r: (Option<Token<'a>>, Token<'a>))
    requires
        token.wf(),
    ensures
        took(token, run_end(Kind::Symbol, token@.text, 0), r),
{
    let f = |c: u8| -> (r: bool) ensures r == is_symbol_byte(c) { is_symbol(c) };
    proof {
        lemma_ascii_filter(f, token@.text);
    }
    let r = match_prefix_optional(token, f);
    proof {
        let n = choose|n: int|
            #![trigger took(token, n, r)]
            0 <= n <= token@.text.len() && took(token, n, r) && (forall|i: int|
                0 <= i < n ==> is_symbol_byte(#[trigger] token@.text[i])) && (n
                < token@.text.len() ==> !is_symbol_byte(token@.text[n]));
        lemma_run_end_unique(Kind::Symbol, token@.text, 0, n);
    }
    r
}

/// Parses a symbol: a run of US-ASCII letters, digits and underscores.
pub fn symbol<'a>(token: Token<'a>) -> (r: LexResult<'a, Token<'a>, ()>)
    requires
        token.wf(),
    ensures
        took_or_failed(token, run_end(Kind::Symbol, token@.text, 0), r),
{
    required(symbol_optional(token))
}

/// Parses an optional line-ending: `CRLF` as one, or a lone `CR` or `LF`.
pub fn line_ending_optional<'a>(token: Token<'a>) -> (r: (Option<Token<'a>>, Token<'a>))
    requires
        token.wf(),
    ensures
        took(token, line_ending_prefix_len(token@.text) as int, r),
{
    let b = token.bytes();
    let line_ending_len: usize = if b.len() == 0 {
        0
    } else if b[0] == CR {
        if b.len() != 1 && b[1] == LF {
            2
        } else {
            1
        }
    } else if b[0] == LF {
        1
    } else {
        0
    };
    proof {
        if line_ending_len > 0 {
            assert(b@[line_ending_len - 1] < 128);
        }
        lemma_ascii_prefix_boundary(b@, line_ending_len as int);
    }
    token.split_optional(line_ending_len)
}

/// Parses a line-ending: `CRLF` as one, or a lone `CR` or `LF`.
pub fn line_ending<'a>(token: Token<'a>) -> (r: LexResult<'a, Token<'a>, ()>)
    requires
        token.wf(),
    ensures
        took_or_failed(token, line_ending_prefix_len(token@.text) as int, r),
{
    required(line_ending_optional(token))
}

/// Parses the rest of the line.
///
/// Returns `(line, optional_line_ending, rest_of_token)`.
pub fn rest_of_line<'a>(token: Token<'a>) -> (r: (Token<'a>, Option<Token<'a>>, Token<'a>))
    requires
        token.wf(),
    ensures
        r.0@ == rest_of_line_view(token@).0,
        r.1 is Some == rest_of_line_view(token@).1 is Some,
        r.1 is Some ==> r.1->Some_0@ == rest_of_line_view(token@).1->Some_0,
        r.2@ == rest_of_line_view(token@).2,
        r.2.wf(),
{
    let line_len: usize = Lexer::prefix_len(token.bytes(), |c: u8| -> (r: bool) ensures r == !is_cr_or_lf(c) { c != CR && c != LF });
    proof {
        lemma_scan_end_unique(token@.text, in_line(), 0, line_len as int);
        lemma_before_ascii_boundary(token@.text, line_len as int);
    }
    let (line, token) = token.split(line_len);
    let (line_ending, token) = line_ending_optional(token);
    (line, line_ending, token)
}

/// Parses optional non-empty whitespace & line-endings.
pub fn white_lines_optional<'a>(token: Token<'a>) -> (r: (Option<Token<'a>>, Token<'a>))
    requires
        token.wf(),
    ensures
        took(token, scan_end(token@.text, layout(), 0), r),
{
    let ghost s = token@.text;
    let mut rem: Token = token;
    let mut consumed: usize = 0;
    let total = token.len();
    loop
        invariant
            s == token@.text,
            token.wf(),
            valid_utf8(s),
            total == s.len(),
            rem.wf(),
            consumed <= s.len(),
            rem@.text == s.subrange(consumed as int, s.len() as int),
            forall|j: int| 0 <= j < consumed ==> is_layout_byte(#[trigger] s[j]),
            0 < consumed < s.len() ==> !(s[consumed - 1] == CR && s[consumed as int] == LF),
        decreases s.len() - consumed,
    {
        let mut matched: bool = false;
        let ghost r0 = rem@.text;
        proof {
            lemma_run_end(Kind::Whitespace, r0, 0);
        }
        if let (Some(_whitespace), r) = whitespace_optional(rem) {
            matched = true;
            proof {
                lemma_run_end(Kind::Whitespace, r0, 0);
                let n = run_end(Kind::Whitespace, r0, 0);
                assert forall|j: int| 0 <= j < consumed + n implies is_layout_byte(#[trigger] s[j]) by {
                    if j >= consumed {
                        assert(s[j] == r0[j - consumed]);
                        assert(is_whitespace_byte(r0[j - consumed]));
                    }
                }
                assert(s[consumed + n - 1] == r0[n - 1]);
                assert(r@.text =~= s.subrange(consumed + n, s.len() as int));
            }
            consumed = consumed + (rem.len() - r.len());
            rem = r;
        }
        let ghost r1 = rem@.text;
        if let (Some(_line_ending), r) = line_ending_optional(rem) {
            matched = true;
            proof {
                let n = line_ending_prefix_len(r1) as int;
                assert forall|j: int| 0 <= j < consumed + n implies is_layout_byte(#[trigger] s[j]) by {
                    if j >= consumed {
                        assert(s[j] == r1[j - consumed]);
                    }
                }
                assert(s[consumed + n - 1] == r1[n - 1]);
                if consumed + n < s.len() {
                    assert(s[consumed + n] == r1[n]);
                }
                assert(r@.text =~= s.subrange(consumed + n, s.len() as int));
            }
            consumed = consumed + (rem.len() - r.len());
            rem = r;
        }
        if !matched {
            proof {
                if consumed < s.len() {
                    assert(s[consumed as int] == r1[0]);
                    assert(!is_layout_byte(s[consumed as int]));
                }
                lemma_scan_end_unique(s, layout(), 0, consumed as int);
                if consumed > 0 {
                    assert(is_layout_byte(s[consumed - 1]));
                }
                lemma_ascii_prefix_boundary(s, consumed as int);
            }
            return token.split_optional(consumed);
        }
    }
}

/// Parses non-empty whitespace & line-endings.
pub fn white_lines<'a>(token: Token<'a>) -> (r: LexResult<'a, Token<'a>, ()>)
    requires
        token.wf(),
    ensures
        took_or_failed(token, scan_end(token@.text, layout(), 0), r),
{
    required(white_lines_optional(token))
}

/// Whether matching `p` at the start of `t` would split a `CRLF`: `p` ends in `CR` and `LF`
/// follows it.
pub open spec fn splits_crlf(t: Seq<u8>, p: Seq<u8>) -> bool {
    p.len() > 0 && p.last() == CR && t.len() > p.len() && t[p.len() as int] == LF
}

/// Parses an optional exact value; refuses a match that would split a `CRLF`.
pub fn exact_optional<'a>(token: Token<'a>, value: &str) -> (r: (Option<Token<'a>>, Token<'a>))
    requires
        token.wf(),
    ensures
        starts_with(token@.text, value.spec_bytes()) && !splits_crlf(token@.text, value.spec_bytes())
            ==> took(token, value.spec_bytes().len() as int, r),
        !(starts_with(token@.text, value.spec_bytes()) && !splits_crlf(
            token@.text,
            value.spec_bytes(),
        )) ==> r.0 is None && r.1 == token,
{
    let t = token.bytes();
    let p = value.as_bytes();
    let n = p.len();
    if bytes_start_with(t, p) && !(n > 0 && p[n - 1] == CR && t.len() > n && t[n] == LF) {
        proof {
            assert(t@.subrange(0, n as int) == p@);
            lemma_prefix_boundary(t@, n as int);
        }
        token.split_optional(n)
    } else {
        (None, token)
    }
}

/// Parses an exact value; refuses a match that would split a `CRLF`.
pub fn exact<'a>(token: Token<'a>, value: &str) -> (r: LexResult<'a, Token<'a>, ()>)
    requires
        token.wf(),
    ensures
        starts_with(token@.text, value.spec_bytes()) && !splits_crlf(token@.text, value.spec_bytes())
            ==> r is Ok && (r->Ok_0.0@, r->Ok_0.1@) == split_view(
            token@,
            value.spec_bytes().len() as int,
        ),
        !(starts_with(token@.text, value.spec_bytes()) && !splits_crlf(
            token@.text,
            value.spec_bytes(),
        )) ==> r is Err && r->Err_0.spec_token() == token,
{
    let t = token.bytes();
    let p = value.as_bytes();
    let n = p.len();
    if bytes_start_with(t, p) && !(n > 0 && p[n - 1] == CR && t.len() > n && t[n] == LF) {
        proof {
            assert(t@.subrange(0, n as int) == p@);
            lemma_prefix_boundary(t@, n as int);
        }
        Ok(token.split(n))
    } else {
        Err(LexError::new(token, ()))
    }
}

/// Parses an optional line-comment.
///
/// Returns the comment text, without the delimiter and the line-ending, and the token after the
/// line-ending.
pub fn line_comment_optional<'a>(token: Token<'a>, delimiter: &str) -> (r: (Option<Token<'a>>, Token<'a>))
    requires
        token.wf(),
        valid_delimiter(delimiter.spec_bytes()),
    ensures
        r.1.wf(),
        r.0 is Some == comment_view(token@, Some(delimiter.spec_bytes())) is Some,
        r.0 is None ==> r.1 == token,
        r.0 is Some ==> r.0->Some_0@ == comment_view(token@, Some(delimiter.spec_bytes()))->Some_0.1
            && r.1@ == comment_view(token@, Some(delimiter.spec_bytes()))->Some_0.3,
{
    let t = token.bytes();
    let p = delimiter.as_bytes();
    if bytes_start_with(t, p) {
        proof {
            assert(p@[p@.len() - 1] != CR);
            assert(t@[p@.len() - 1] == p@[p@.len() - 1]);
            assert(t@.subrange(0, p@.len() as int) == p@);
            lemma_prefix_boundary(t@, p@.len() as int);
        }
        let (_delimiter, token) = token.split(p.len());
        let (comment, _line_ending, token) = rest_of_line(token);
        (Some(comment), token)
    } else {
        (None, token)
    }
}

/// Parses a line-comment: its text, without the delimiter and the line-ending.
pub fn line_comment<'a>(token: Token<'a>, delimiter: &str) -> (r: LexResult<'a, Token<'a>, ()>)
    requires
        token.wf(),
        valid_delimiter(delimiter.spec_bytes()),
    ensures
        r is Ok == comment_view(token@, Some(delimiter.spec_bytes())) is Some,
        r is Err ==> r->Err_0.spec_token() == token,
        r is Ok ==> r->Ok_0.0@ == comment_view(token@, Some(delimiter.spec_bytes()))->Some_0.1
            && r->Ok_0.1@ == comment_view(token@, Some(delimiter.spec_bytes()))->Some_0.3,
{
    required(line_comment_optional(token, delimiter))
}

/// Parses optional non-empty whitespace, line-endings, & line-comments.
pub fn white_line_comments_optional<'a>(token: Token<'a>, delimiter: &str) -> (r: (
    Option<Token<'a>>,
    Token<'a>,
))
    requires
        token.wf(),
        valid_delimiter(delimiter.spec_bytes()),
    ensures
        took(token, layout_len(token@.text, Some(delimiter.spec_bytes())), r),
{
    let ghost s = token@.text;
    let ghost d = Some(delimiter.spec_bytes());
    let mut rem: Token = token;
    let mut len: usize = 0;
    let total = token.len();
    proof {
        assert(s.subrange(0, s.len() as int) =~= s);
    }
    loop
        invariant
            s == token@.text,
            token.wf(),
            d == Some(delimiter.spec_bytes()),
            valid_delimiter(delimiter.spec_bytes()),
            valid_utf8(s),
            total == s.len(),
            rem.wf(),
            len <= s.len(),
            rem@.text == s.subrange(len as int, s.len() as int),
            layout_len(s, d) == len + layout_len(rem@.text, d),
            crate::comment::clean_end(s, len as int),
        decreases s.len() - len,
    {
        let ghost l = rem@.text;
        let mut matched: bool = false;
        let mut w: usize = 0;
        let mut c: usize = 0;
        proof {
            lemma_scan_end(l, layout(), 0);
        }
        if let (Some(_white_lines), r) = white_lines_optional(rem) {
            matched = true;
            w = rem.len() - r.len();
            rem = r;
        }
        let ghost l2 = rem@.text;
        proof {
            lemma_scan_end(l, layout(), 0);
            assert(l2 =~= s.subrange(len + w, s.len() as int));
            lemma_layout_step(s, d, len as int, w as int, comment_len(l2, d));
            lemma_comment_view_len(rem@, d);
        }
        if let (Some(_comment), r) = line_comment_optional(rem, delimiter) {
            matched = true;
            c = rem.len() - r.len();
            rem = r;
        }
        proof {
            assert(c == comment_len(l2, d));
            assert(rem@.text =~= s.subrange(len + w + c, s.len() as int));
        }
        if !matched {
            proof {
                lemma_clean_end_valid(s, len as int);
            }
            return token.split_optional(len);
        }
        len = len + w + c;
    }
}

/// Parses non-empty whitespace, line-endings, & line-comments.
pub fn white_line_comments<'a>(token: Token<'a>, delimiter: &str) -> (r: LexResult<'a, Token<'a>, ()>)
    requires
        token.wf(),
        valid_delimiter(delimiter.spec_bytes()),
    ensures
        took_or_failed(token, layout_len(token@.text, Some(delimiter.spec_bytes())), r),
{
    required(white_line_comments_optional(token, delimiter))
}

/// Skipping layout is idempotent: after skipping whitespace, line-endings and line comments with
/// any non-empty delimiter, a second skip finds nothing more.
pub proof fn lemma_white_line_comments_idempotent(s: Seq<u8>, d: Seq<u8>)
    requires
        d.len() > 0,
    ensures
        layout_len(s.subrange(layout_len(s, Some(d)), s.len() as int), Some(d)) == 0,
    decreases s.len(),
{
    let w = scan_end(s, layout(), 0);
    lemma_scan_end(s, layout(), 0);
    let c = comment_len(s.subrange(w, s.len() as int), Some(d));
    lemma_comment_len(s.subrange(w, s.len() as int), Some(d));
    if w + c <= 0 {
        assert(s.subrange(0, s.len() as int) =~= s);
    } else {
        let rest = s.subrange(w + c, s.len() as int);
        lemma_white_line_comments_idempotent(rest, d);
        let n = layout_len(rest, Some(d));
        assert(0 <= n <= rest.len()) by {
            lemma_layout_len_bound(rest, Some(d));
        }
        assert(rest.subrange(n, rest.len() as int) =~= s.subrange(w + c + n, s.len() as int));
    }
}

pub proof fn lemma_layout_len_bound(s: Seq<u8>, d: Option<Seq<u8>>)
    requires
        d is Some ==> d->Some_0.len() > 0,
    ensures
        0 <= layout_len(s, d) <= s.len(),
    decreases s.len(),
{
    let w = scan_end(s, layout(), 0);
    lemma_scan_end(s, layout(), 0);
    let c = comment_len(s.subrange(w, s.len() as int), d);
    lemma_comment_len(s.subrange(w, s.len() as int), d);
    if w + c > 0 && w + c <= s.len() {
        lemma_layout_len_bound(s.subrange(w + c, s.len() as int), d);
    }
}

/// Whether `c` is white space in the sense of Unicode's `White_Space` property, as
/// `char::is_whitespace` decides it.
pub open spec fn is_white_space_char(c: char) -> bool {
    ||| ('\u{9}' <= c <= '\u{d}')
    ||| c == ' '
    ||| c == '\u{85}'
    ||| c == '\u{a0}'
    ||| c == '\u{1680}'
    ||| ('\u{2000}' <= c <= '\u{200a}')
    ||| c == '\u{2028}'
    ||| c == '\u{2029}'
    ||| c == '\u{202f}'
    ||| c == '\u{205f}'
    ||| c == '\u{3000}'
}

/// `cs` without its leading white space.
pub open spec fn trim_start_chars(cs: Seq<char>) -> Seq<char>
    decreases cs.len(),
{
    if cs.len() > 0 && is_white_space_char(cs[0]) {
        trim_start_chars(cs.drop_first())
    } else {
        cs
    }
}

/// `cs` without its trailing white space.
pub open spec fn trim_end_chars(cs: Seq<char>) -> Seq<char>
    decreases cs.len(),
{
    if cs.len() > 0 && is_white_space_char(cs.last()) {
        trim_end_chars(cs.drop_last())
    } else {
        cs
    }
}

/// `cs` without its leading and trailing white space.
pub open spec fn trim_chars(cs: Seq<char>) -> Seq<char> {
    trim_end_chars(trim_start_chars(cs))
}

/// The bytes of the UTF-8 text `b` without its leading and trailing white space.
pub open spec fn trim_bytes(b: Seq<u8>) -> Seq<u8> {
    encode_utf8(trim_chars(decode_utf8(b)))
}

/// Relies on `str::trim`: it removes the leading and trailing chars that have Unicode's
/// `White_Space` property.
#[verifier::external_body]
fn trim<'b>(s: &'b str) -> (r: &'b str)
    ensures
        r@ == trim_chars(s@),
{
    s.trim()
}

/// Trims `s`, stated over its bytes.
fn trim_text<'b>(s: &'b str) -> (r: &'b str)
    ensures
        r.spec_bytes() == trim_bytes(s.spec_bytes()),
{
    proof {
        encode_utf8_decode_utf8(s@);
    }
    trim(s)
}

/// The comments of `lines`, from the last line up, while each line has indent level `level` (a
/// tab or four spaces to a level) and, trimmed, starts with `d`; each comment is trimmed.
pub open spec fn block_comments_from(lines: Seq<u8>, level: nat, d: Seq<u8>) -> Seq<Seq<u8>>
    decreases lines.len(),
{
    if lines.len() == 0 {
        Seq::empty()
    } else {
        let body = lines.subrange(0, lines.len() - ending_len(lines));
        let k = last_line_start(body);
        let rest = body.subrange(0, k);
        let last = body.subrange(k, body.len() as int);
        let t = trim_bytes(last);
        if rest.len() >= lines.len() || indent_from(last, 4, 0).0 != level || !starts_with(t, d) {
            Seq::empty()
        } else {
            seq![trim_bytes(t.subrange(d.len() as int, t.len() as int))] + block_comments_from(
                rest,
                level,
                d,
            )
        }
    }
}

/// The trimmed comments of the block `s`, from its last line up; the indent level is the one of
/// its last line.
pub open spec fn block_comments_of(s: Seq<u8>, d: Seq<u8>) -> Seq<Seq<u8>> {
    let k = last_line_start(s);
    block_comments_from(s.subrange(0, k), indent_from(s.subrange(k, s.len() as int), 4, 0).0, d)
}

/// Parses block comments: the lines of the token from the last one up, while they keep the
/// indent level of the last line and, trimmed, start with the `delimiter`.
///
/// Returns the trimmed comment texts, bottom to top.
pub fn block_comments<'a>(token: Token<'a>, delimiter: &str) -> (r: Vec<&'a str>)
    ensures
        r@.map_values(|c: &'a str| c.spec_bytes()) == block_comments_of(
            token@.text,
            delimiter.spec_bytes(),
        ),
{
    let ghost d = delimiter.spec_bytes();
    let mut result: Vec<&'a str> = Vec::new();
    let (mut lines, last) = split_last_line(token.value());
    let indent_level: usize = get_indent_level(last);
    proof {
        assert(result@.map_values(|c: &'a str| c.spec_bytes()) + block_comments_of(token@.text, d)
            =~= block_comments_from(lines.spec_bytes(), indent_level as nat, d));
    }
    while lines.as_bytes().len() > 0
        invariant
            d == delimiter.spec_bytes(),
            lines.spec_bytes().len() == 0 || is_cr_or_lf(lines.spec_bytes().last()),
            result@.map_values(|c: &'a str| c.spec_bytes()) + block_comments_from(
                lines.spec_bytes(),
                indent_level as nat,
                d,
            ) == block_comments_of(token@.text, d),
        decreases lines.spec_bytes().len(),
    {
        let ghost before = result@.map_values(|c: &'a str| c.spec_bytes());
        let ghost rest_block = block_comments_from(lines.spec_bytes(), indent_level as nat, d);
        let ghost whole = lines.spec_bytes();
        lines = strip_line_ending(lines);
        let (not_last, last) = split_last_line(lines);
        proof {
            lemma_break_end(lines.spec_bytes(), lines.spec_bytes().len() as int);
        }
        let last_indent_level: usize = get_indent_level(last);
        if indent_level != last_indent_level {
            proof {
                assert(before + rest_block =~= before);
            }
            return result;
        }
        let last: &str = trim_text(last);
        let t = last.as_bytes();
        let p = delimiter.as_bytes();
        if !bytes_start_with(t, p) {
            proof {
                assert(before + rest_block =~= before);
            }
            return result;
        }
        proof {
            assert(t@.subrange(0, p@.len() as int) == p@);
            lemma_prefix_boundary(t@, p@.len() as int);
        }
        let (_delimiter, comment) = last.split_at(p.len());
        let comment: &str = trim_text(comment);
        result.push(comment);
        proof {
            assert(result@.map_values(|c: &'a str| c.spec_bytes()) =~= before.push(comment.spec_bytes()));
            assert(before + rest_block =~= before.push(comment.spec_bytes()) + block_comments_from(
                not_last.spec_bytes(),
                indent_level as nat,
                d,
            ));
        }
        lines = not_last;
    }
    proof {
        assert(result@.map_values(|c: &'a str| c.spec_bytes()) + Seq::<Seq<u8>>::empty()
            =~= result@.map_values(|c: &'a str| c.spec_bytes()));
    }
    result
}

/// Splits the last line from the string: everything after its last `CR` or `LF`.
///
/// Returns `(not_last_line, last_line)`.
fn split_last_line<'b>(s: &'b str) -> (r: (&'b str, &'b str))
    ensures
        r.0.spec_bytes() == s.spec_bytes().subrange(0, last_line_start(s.spec_bytes())),
        r.1.spec_bytes() == s.spec_bytes().subrange(
            last_line_start(s.spec_bytes()),
            s.spec_bytes().len() as int,
        ),
        r.0.spec_bytes().len() == 0 || is_cr_or_lf(r.0.spec_bytes().last()),
{
    let b = s.as_bytes();
    let ghost v = b@;
    let mut i: usize = b.len();
    while i > 0 && !(b[i - 1] == CR || b[i - 1] == LF)
        invariant
            v == b@,
            i <= v.len(),
            last_line_start(v) == break_end_before(v, i as int),
        decreases i,
    {
        i -= 1;
    }
    proof {
        lemma_break_end(v, i as int);
        lemma_ascii_prefix_boundary(v, i as int);
    }
    s.split_at(i)
}

/// Strips the line-ending that ends the string, which must end with `CR` or `LF`: both bytes of
/// a `CRLF`, else the one `CR` or `LF`.
fn strip_line_ending<'b>(s: &'b str) -> (r: &'b str)
    requires
        s.spec_bytes().len() > 0,
        is_cr_or_lf(s.spec_bytes().last()),
    ensures
        r.spec_bytes() == s.spec_bytes().subrange(
            0,
            s.spec_bytes().len() - ending_len(s.spec_bytes()),
        ),
{
    let b = s.as_bytes();
    let n = b.len();
    let k: usize = if b[n - 1] == LF && n >= 2 && b[n - 2] == CR {
        2
    } else {
        1
    };
    proof {
        crate::text::lemma_before_ascii_boundary(s.spec_bytes(), n - k);
    }
    s.split_at(n - k).0
}

/// Gets the indent level of the string: one level for each tab or run of four spaces that
/// starts it.
fn get_indent_level(s: &str) -> (r: usize)
    ensures
        r == indent_from(s.spec_bytes(), 4, 0).0,
{
    let b = s.as_bytes();
    let ghost v = b@;
    let n = b.len();
    let mut i: usize = 0;
    let mut indent_level: usize = 0;
    while i < n
        invariant
            v == b@,
            v == s.spec_bytes(),
            n == v.len(),
            indent_level <= i <= n,
            indent_from(v, 4, 0).0 == indent_level + indent_from(v, 4, i as int).0,
        decreases n - i,
    {
        if b[i] == TAB {
            indent_level += 1;
            i += 1;
        } else if n - i >= 4 && b[i] == SPACE && b[i + 1] == SPACE && b[i + 2] == SPACE && b[i
            + 3] == SPACE {
            proof {
                assert(forall|j: int| i <= j < i + 4 ==> #[trigger] v[j] == SPACE);
            }
            indent_level += 1;
            i += 4;
        } else {
            proof {
                if v[i as int] == SPACE && i + 4 <= n {
                    assert(!(v[i + 1] == SPACE && v[i + 2] == SPACE && v[i + 3] == SPACE));
                    if v[i + 1] != SPACE {
                        assert(v[i + 1] != SPACE);
                    } else if v[i + 2] != SPACE {
                        assert(v[i + 2] != SPACE);
                    } else {
                        assert(v[i + 3] != SPACE);
                    }
                    assert(!(forall|j: int| i <= j < i + 4 ==> #[trigger] v[j] == SPACE));
                }
                assert(v[i as int] != TAB);
                assert(indent_from(v, 4, i as int) == (0nat, 0nat));
            }
            return indent_level;
        }
    }
    indent_level
}

} // verus!
