//! Byte-level facts about source text shared by the tokenizer and the parse combinators.

use vstd::prelude::*;
use vstd::utf8::*;

verus! {

broadcast use vstd::utf8::encode_utf8_valid_utf8;

/// Carriage return.
pub const CR: u8 = 13;

/// Line feed.
pub const LF: u8 = 10;

/// Space.
pub const SPACE: u8 = 32;

/// Horizontal tab.
pub const TAB: u8 = 9;

/// The abstract value of a span: its bytes and where its first byte sits in the source.
pub ghost struct TokenView {
    pub text: Seq<u8>,
    pub line: int,
    pub position: int,
}

pub open spec fn is_cr_or_lf(b: u8) -> bool {
    b == CR || b == LF
}

pub open spec fn is_space_or_tab(b: u8) -> bool {
    b == SPACE || b == TAB
}

/// Whether the byte at `i` ends a line: every `CR`, and every `LF` that does not complete a `CRLF`.
pub open spec fn ends_line_at(s: Seq<u8>, i: int) -> bool {
    s[i] == CR || (s[i] == LF && !(i > 0 && s[i - 1] == CR))
}

/// The number of line-endings in `s`, a `CRLF` pair counting once.
pub open spec fn line_ending_count(s: Seq<u8>) -> nat
    decreases s.len(),
{
    if s.len() == 0 {
        0
    } else {
        line_ending_count(s.drop_last()) + if ends_line_at(s, s.len() - 1) {
            1nat
        } else {
            0nat
        }
    }
}

/// The number of bytes after the last `CR` or `LF` of `s` (all of `s` when it has none).
pub open spec fn last_line_len(s: Seq<u8>) -> nat
    decreases s.len(),
{
    if s.len() == 0 {
        0
    } else if is_cr_or_lf(s.last()) {
        0
    } else {
        last_line_len(s.drop_last()) + 1
    }
}

/// The length of the line-ending that starts `s`: 2 for `CRLF`, 1 for a lone `CR` or `LF`, else 0.
pub open spec fn line_ending_prefix_len(s: Seq<u8>) -> nat {
    if s.len() == 0 {
        0
    } else if s[0] == CR {
        if s.len() >= 2 && s[1] == LF {
            2
        } else {
            1
        }
    } else if s[0] == LF {
        1
    } else {
        0
    }
}

/// Whether `index` may split `s`: a character boundary that is not between the two bytes of a
/// `CRLF`.
pub open spec fn valid_split_index(s: Seq<u8>, index: int) -> bool {
    &&& 0 <= index <= s.len()
    &&& index == 0 || index == s.len() || (is_char_boundary(s, index) && !(s[index - 1] == CR
        && s[index] == LF))
}

/// Line and position of the byte that follows `consumed`, when `consumed` starts at `line` and
/// `position`.
pub open spec fn line_after(line: int, consumed: Seq<u8>) -> int {
    line + line_ending_count(consumed)
}

pub open spec fn position_after(position: int, consumed: Seq<u8>) -> int {
    if line_ending_count(consumed) == 0 {
        position + consumed.len()
    } else {
        last_line_len(consumed) as int
    }
}

/// The two halves of `t` split at `index`: the right half's line and position are advanced over
/// the line-endings of the left half.
pub open spec fn split_view(t: TokenView, index: int) -> (TokenView, TokenView) {
    let left = t.text.subrange(0, index);
    (
        TokenView { text: left, line: t.line, position: t.position },
        TokenView {
            text: t.text.subrange(index, t.text.len() as int),
            line: line_after(t.line, left),
            position: position_after(t.position, left),
        },
    )
}

pub proof fn lemma_line_ending_count_bound(s: Seq<u8>)
    ensures
        line_ending_count(s) <= s.len(),
        last_line_len(s) <= s.len(),
        line_ending_count(s) == 0 ==> last_line_len(s) == s.len(),
    decreases s.len(),
{
    if s.len() > 0 {
        lemma_line_ending_count_bound(s.drop_last());
    }
}

pub open spec fn is_layout_byte(b: u8) -> bool {
    b == SPACE || b == TAB || b == CR || b == LF
}

/// The first index from `i` on whose byte fails `p` (the length of `s` if none does).
pub open spec fn scan_end(s: Seq<u8>, p: spec_fn(u8) -> bool, i: int) -> int
    decreases s.len() - i,
{
    if i < 0 || i >= s.len() || !p(s[i]) {
        i
    } else {
        scan_end(s, p, i + 1)
    }
}

/// Spaces, tabs and line-endings.
pub open spec fn layout() -> spec_fn(u8) -> bool {
    |b: u8| is_layout_byte(b)
}

/// Anything but a `CR` or `LF`.
pub open spec fn in_line() -> spec_fn(u8) -> bool {
    |b: u8| !is_cr_or_lf(b)
}

pub proof fn lemma_scan_end(s: Seq<u8>, p: spec_fn(u8) -> bool, i: int)
    requires
        0 <= i <= s.len(),
    ensures
        i <= scan_end(s, p, i) <= s.len(),
        forall|j: int| i <= j < scan_end(s, p, i) ==> p(#[trigger] s[j]),
        scan_end(s, p, i) < s.len() ==> !p(s[scan_end(s, p, i)]),
    decreases s.len() - i,
{
    if i < s.len() && p(s[i]) {
        lemma_scan_end(s, p, i + 1);
    }
}

/// A scan ends at the first index from `i` whose byte fails `p`.
pub proof fn lemma_scan_end_unique(s: Seq<u8>, p: spec_fn(u8) -> bool, i: int, r: int)
    requires
        0 <= i <= r <= s.len(),
        forall|j: int| i <= j < r ==> p(#[trigger] s[j]),
        r < s.len() ==> !p(s[r]),
    ensures
        scan_end(s, p, i) == r,
    decreases r - i,
{
    if i < r {
        lemma_scan_end_unique(s, p, i + 1, r);
    }
}

/// The end of a valid UTF-8 prefix of valid UTF-8 is a character boundary.
pub proof fn lemma_prefix_boundary(bytes: Seq<u8>, k: int)
    requires
        valid_utf8(bytes),
        0 <= k <= bytes.len(),
        valid_utf8(bytes.subrange(0, k)),
    ensures
        is_char_boundary(bytes, k),
    decreases k,
{
    if k > 0 {
        let p = bytes.subrange(0, k);
        assert(p[0] == bytes[0]);
        let w = length_of_first_scalar(bytes);
        assert(w == length_of_first_scalar(p));
        assert(w <= k);
        let rest = pop_first_scalar(bytes);
        assert(pop_first_scalar(p) =~= rest.subrange(0, k - w));
        lemma_prefix_boundary(rest, k - w);
    }
}

/// Whether the first `n` bytes of `t` are the longest prefix whose bytes `f` accepts.
pub open spec fn accepted_prefix<F: Fn(u8) -> bool>(f: F, t: Seq<u8>, n: int) -> bool {
    &&& 0 <= n <= t.len()
    &&& forall|i: int| 0 <= i < n ==> f.ensures((#[trigger] t[i],), true)
    &&& n < t.len() ==> f.ensures((t[n],), false)
}

/// A filter that accepts only US-ASCII bytes other than `CR` ends its longest accepted prefix of
/// valid UTF-8 at a valid split index.
pub proof fn lemma_ascii_filter<F: Fn(u8) -> bool>(f: F, t: Seq<u8>)
    requires
        valid_utf8(t),
        forall|c: u8| #[trigger] f.ensures((c,), true) ==> c < 128 && c != CR,
    ensures
        forall|n: int| #[trigger] accepted_prefix(f, t, n) ==> valid_split_index(t, n),
{
    assert forall|n: int| #[trigger] accepted_prefix(f, t, n) implies valid_split_index(t, n) by {
        if n > 0 {
            assert(f.ensures((t[n - 1],), true));
        }
        lemma_ascii_prefix_boundary(t, n);
    }
}

/// An ASCII byte of valid UTF-8 is a whole character: both its ends are character boundaries.
pub proof fn lemma_ascii_boundary(bytes: Seq<u8>, i: int)
    requires
        valid_utf8(bytes),
        0 <= i < bytes.len(),
        bytes[i] < 0x80,
    ensures
        is_char_boundary(bytes, i),
        is_char_boundary(bytes, i + 1),
    decreases bytes.len(),
{
    let w = length_of_first_scalar(bytes);
    let rest = pop_first_scalar(bytes);
    if i < w {
        assert(i == 0 && w == 1);
        assert(is_char_boundary(rest, 0));
    } else {
        assert(rest[i - w] == bytes[i]);
        lemma_ascii_boundary(rest, i - w);
    }
}

/// The end of a prefix made of ASCII bytes is a character boundary.
pub proof fn lemma_ascii_prefix_boundary(bytes: Seq<u8>, k: int)
    requires
        valid_utf8(bytes),
        0 <= k <= bytes.len(),
        k > 0 ==> bytes[k - 1] < 0x80,
    ensures
        is_char_boundary(bytes, k),
{
    if k > 0 {
        lemma_ascii_boundary(bytes, k - 1);
    } else {
        is_char_boundary_start_end_of_seq(bytes);
    }
}

/// The start of an ASCII byte is a character boundary.
pub proof fn lemma_before_ascii_boundary(bytes: Seq<u8>, k: int)
    requires
        valid_utf8(bytes),
        0 <= k <= bytes.len(),
        k < bytes.len() ==> bytes[k] < 0x80,
    ensures
        is_char_boundary(bytes, k),
{
    if k < bytes.len() {
        lemma_ascii_boundary(bytes, k);
    } else {
        is_char_boundary_start_end_of_seq(bytes);
    }
}

} // verus!
