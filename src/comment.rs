//! Line comments, layout skipping, and the extraction of a block of trailing line comments.

use vstd::prelude::*;
use vstd::utf8::valid_utf8;

use crate::config::valid_delimiter;
use crate::context::{rest_of_line_view, starts_with, Context, ParseContext};
use crate::kind::{is_whitespace_byte, Kind};
use crate::lexer::{lemma_run_end, run_end};
use crate::text::{
    in_line, is_cr_or_lf, is_layout_byte, layout, lemma_ascii_prefix_boundary, lemma_scan_end,
    line_ending_prefix_len, scan_end, split_view, valid_split_index, TokenView, CR, LF, SPACE,
    TAB,
};
use crate::token::Token;

verus! {

broadcast use {vstd::utf8::encode_utf8_valid_utf8, vstd::slice::group_slice_axioms};

/// The parts of the line comment that starts `t` under delimiter `d`: the delimiter, the comment
/// text, its line-ending if any, and what follows.
pub open spec fn comment_view(t: TokenView, d: Option<Seq<u8>>) -> Option<
    (TokenView, TokenView, Option<TokenView>, TokenView),
> {
    if d is Some && starts_with(t.text, d->Some_0) {
        let (delimiter, after) = split_view(t, d->Some_0.len() as int);
        let (line, ending, rest) = rest_of_line_view(after);
        Some((delimiter, line, ending, rest))
    } else {
        None
    }
}

/// The number of bytes the line comment that starts `s` takes, ending included (0 when `s`
/// does not start with the delimiter).
pub open spec fn comment_len(s: Seq<u8>, d: Option<Seq<u8>>) -> int {
    if d is Some && starts_with(s, d->Some_0) {
        let a = s.subrange(d->Some_0.len() as int, s.len() as int);
        let e = scan_end(a, in_line(), 0);
        d->Some_0.len() + e + line_ending_prefix_len(a.subrange(e, a.len() as int))
    } else {
        0
    }
}

/// The number of bytes of layout that start `s`: whitespace, line-endings and line comments, in
/// any order.
pub open spec fn layout_len(s: Seq<u8>, d: Option<Seq<u8>>) -> int
    decreases s.len(),
{
    let w = scan_end(s, layout(), 0);
    let c = comment_len(s.subrange(w, s.len() as int), d);
    if w + c <= 0 || w + c > s.len() {
        0
    } else {
        w + c + layout_len(s.subrange(w + c, s.len() as int), d)
    }
}

/// Whether `k` ends a piece of `s` cleanly: at either end, or after an ASCII byte that does not
/// begin a `CRLF` completed by the next byte.
pub open spec fn clean_end(s: Seq<u8>, k: int) -> bool {
    ||| k == 0
    ||| k == s.len()
    ||| (0 < k < s.len() && s[k - 1] < 128 && !(s[k - 1] == CR && s[k] == LF))
}

pub proof fn lemma_clean_end_valid(s: Seq<u8>, k: int)
    requires
        valid_utf8(s),
        0 <= k <= s.len(),
        clean_end(s, k),
    ensures
        valid_split_index(s, k),
{
    if 0 < k < s.len() {
        lemma_ascii_prefix_boundary(s, k);
    }
}

/// A line comment takes its delimiter, the text up to the line-ending, and the line-ending; it
/// ends cleanly.
pub proof fn lemma_comment_len(s: Seq<u8>, d: Option<Seq<u8>>)
    requires
        d is Some ==> d->Some_0.len() > 0,
    ensures
        0 <= comment_len(s, d) <= s.len(),
        d is Some && starts_with(s, d->Some_0) ==> comment_len(s, d) > 0,
        comment_len(s, d) > 0 ==> clean_end(s, comment_len(s, d)),
{
    if d is Some && starts_with(s, d->Some_0) {
        let dl = d->Some_0.len() as int;
        let a = s.subrange(dl, s.len() as int);
        lemma_scan_end(a, in_line(), 0);
        let e = scan_end(a, in_line(), 0);
        let n = line_ending_prefix_len(a.subrange(e, a.len() as int)) as int;
        let c = dl + e + n;
        if n == 0 {
            assert(e == a.len());
        } else if n == 1 {
            assert(s[c - 1] == a[e]);
            if c < s.len() {
                assert(s[c] == a[e + 1]);
            }
        } else {
            assert(s[c - 1] == a[e + 1]);
        }
    }
}

/// What follows a line comment is the source after `comment_len` bytes.
pub proof fn lemma_comment_view_len(t: TokenView, d: Option<Seq<u8>>)
    requires
        d is Some ==> d->Some_0.len() > 0,
    ensures
        comment_view(t, d) is Some == (comment_len(t.text, d) > 0),
        comment_view(t, d) is Some ==> comment_view(t, d)->Some_0.3.text == t.text.subrange(
            comment_len(t.text, d),
            t.text.len() as int,
        ),
{
    lemma_comment_len(t.text, d);
    if d is Some && starts_with(t.text, d->Some_0) {
        let dl = d->Some_0.len() as int;
        let a = t.text.subrange(dl, t.text.len() as int);
        lemma_scan_end(a, in_line(), 0);
        let e = scan_end(a, in_line(), 0);
        let after = split_view(t, dl).1;
        assert(after.text == a);
        let after2 = split_view(after, e).1;
        assert(after2.text =~= t.text.subrange(dl + e, t.text.len() as int));
        let n = line_ending_prefix_len(after2.text) as int;
        assert(split_view(after2, n).1.text =~= t.text.subrange(dl + e + n, t.text.len() as int));
        assert(after2.text =~= a.subrange(e, a.len() as int));
    }
}

/// One round of layout skipping: whitespace and line-endings, then a line comment.
pub proof fn lemma_layout_step(s: Seq<u8>, d: Option<Seq<u8>>, len: int, w: int, c: int)
    requires
        d is Some ==> d->Some_0.len() > 0,
        0 <= len <= s.len(),
        clean_end(s, len),
        w == scan_end(s.subrange(len, s.len() as int), layout(), 0),
        c == comment_len(s.subrange(len + w, s.len() as int), d),
    ensures
        0 <= w,
        0 <= c,
        len + w + c <= s.len(),
        w + c == 0 ==> layout_len(s.subrange(len, s.len() as int), d) == 0,
        w + c > 0 ==> layout_len(s.subrange(len, s.len() as int), d) == w + c + layout_len(
            s.subrange(len + w + c, s.len() as int),
            d,
        ),
        clean_end(s, len + w + c),
{
    let l = s.subrange(len, s.len() as int);
    lemma_scan_end(l, layout(), 0);
    let l2 = l.subrange(w, l.len() as int);
    assert(l2 =~= s.subrange(len + w, s.len() as int));
    lemma_comment_len(l2, d);
    assert(l.subrange(w + c, l.len() as int) =~= s.subrange(len + w + c, s.len() as int));
    if c > 0 {
        let k = len + w + c;
        if 0 < k < s.len() {
            assert(s[k - 1] == l2[c - 1]);
            assert(s[k] == l2[c]);
        }
    } else if w > 0 {
        let k = len + w;
        assert(s[k - 1] == l[w - 1]);
        assert(is_layout_byte(l[w - 1]));
        if k < s.len() {
            assert(s[k] == l[w]);
        }
    }
}

/// The indent level and byte length of the leading whitespace `ws` from index `i`: each tab is
/// one level, each run of `w` spaces is one level; anything else ends the indent.
pub open spec fn indent_from(ws: Seq<u8>, w: nat, i: int) -> (nat, nat)
    decreases ws.len() - i,
{
    if i < 0 || i >= ws.len() {
        (0, 0)
    } else if ws[i] == TAB {
        let r = indent_from(ws, w, i + 1);
        (r.0 + 1, r.1 + 1)
    } else if ws[i] == SPACE && w >= 1 && i + w <= ws.len() && (forall|j: int|
        i <= j < i + w ==> #[trigger] ws[j] == SPACE) {
        let r = indent_from(ws, w, i + w);
        (r.0 + 1, r.1 + w)
    } else {
        (0, 0)
    }
}

/// The indent level and indent length of a line, with `w` spaces to a tab stop.
pub open spec fn indent(t: Seq<u8>, w: nat) -> (nat, nat) {
    indent_from(t.subrange(0, run_end(Kind::Whitespace, t, 0)), w, 0)
}

/// One past the last `CR` or `LF` among the first `k` bytes of `s`, or 0 when there is none.
pub open spec fn break_end_before(s: Seq<u8>, k: int) -> int
    decreases k,
{
    if k <= 0 {
        0
    } else if is_cr_or_lf(s[k - 1]) {
        k
    } else {
        break_end_before(s, k - 1)
    }
}

/// Where the last line of `s` starts.
pub open spec fn last_line_start(s: Seq<u8>) -> int {
    break_end_before(s, s.len() as int)
}

/// The length of the line-ending that ends `s`: 2 for `CRLF`, 1 for a lone `CR` or `LF`, else 0.
pub open spec fn ending_len(s: Seq<u8>) -> int {
    if s.len() == 0 {
        0
    } else if s.last() == CR {
        1
    } else if s.last() == LF {
        if s.len() >= 2 && s[s.len() - 2] == CR {
            2
        } else {
            1
        }
    } else {
        0
    }
}

/// The comments of the block `lines`, from its last line up, while each line has indent level
/// `level` and, after its indent, starts with the delimiter `d`.
pub open spec fn block_from(lines: TokenView, level: nat, d: Seq<u8>, w: nat) -> Seq<TokenView>
    decreases lines.text.len(),
{
    if lines.text.len() == 0 {
        Seq::empty()
    } else {
        let body = split_view(lines, lines.text.len() - ending_len(lines.text)).0;
        let (rest, last) = split_view(body, last_line_start(body.text));
        let (lvl, ilen) = indent(last.text, w);
        let after_indent = split_view(last, ilen as int).1;
        if rest.text.len() >= lines.text.len() || lvl != level || !starts_with(
            after_indent.text,
            d,
        ) {
            Seq::empty()
        } else {
            seq![split_view(after_indent, d.len() as int).1] + block_from(rest, level, d, w)
        }
    }
}

/// The comments of the block `t`, bottom to top: the indent level is the one of its last line.
pub open spec fn comment_block(t: TokenView, d: Seq<u8>, w: nat) -> Seq<TokenView> {
    let (lines, last) = split_view(t, last_line_start(t.text));
    block_from(lines, indent(last.text, w).0, d, w)
}

pub proof fn lemma_break_end(s: Seq<u8>, k: int)
    requires
        0 <= k <= s.len(),
    ensures
        0 <= break_end_before(s, k) <= k,
        break_end_before(s, k) > 0 ==> is_cr_or_lf(s[break_end_before(s, k) - 1]),
        forall|j: int| break_end_before(s, k) <= j < k ==> !is_cr_or_lf(#[trigger] s[j]),
    decreases k,
{
    if k > 0 && !is_cr_or_lf(s[k - 1]) {
        lemma_break_end(s, k - 1);
    }
}

/// Peeling the last line off a non-empty block leaves a shorter block.
pub proof fn lemma_peel_shorter(lines: TokenView)
    requires
        lines.text.len() > 0,
    ensures
        ({
            let body = split_view(lines, lines.text.len() - ending_len(lines.text)).0;
            split_view(body, last_line_start(body.text)).0.text.len() < lines.text.len()
        }),
{
    let s = lines.text;
    let body = split_view(lines, s.len() - ending_len(s)).0;
    lemma_break_end(body.text, body.text.len() as int);
    if ending_len(s) == 0 {
        assert(body.text =~= s);
        assert(!is_cr_or_lf(s[s.len() - 1]));
        lemma_break_end(s, s.len() - 1);
    }
}

impl<'a> Context<'a> {
    /// Parses an optional line-comment.
    ///
    /// Returns `(Some(delimiter, comment_line, line_ending), after_line_ending)`.
    /// Returns `(None, self)` if there is no line-comment.
    pub fn line_comment(&self) -> (r: (Option<(Self, Self, Option<Self>)>, Self))
        ensures
            r.1.config_ref() == self.config_ref(),
            r.0 is Some == comment_view(self@, self.config_ref().delimiter()) is Some,
            r.0 is None ==> r.1 == *self,
            r.0 is Some ==> ({
                let (d, c, e) = r.0->Some_0;
                let v = comment_view(self@, self.config_ref().delimiter())->Some_0;
                &&& d@ == v.0 && c@ == v.1 && r.1@ == v.3
                &&& e is Some == v.2 is Some
                &&& e is Some ==> e->Some_0@ == v.2->Some_0
            }),
    {
        if let Some(line_comment_delimiter) = self.config().line_comment_delimiter() {
            let tok = self.token();
            let t = tok.bytes();
            let p = line_comment_delimiter.as_bytes();
            if crate::context::bytes_start_with(t, p) {
                proof {
                    lemma_comment_len(t@, Some(p@));
                    assert(p@[p@.len() - 1] != CR);
                    assert(t@[p@.len() - 1] == p@[p@.len() - 1]);
                    assert(t@.subrange(0, p@.len() as int) == p@);
                    crate::text::lemma_prefix_boundary(t@, p@.len() as int);
                }
                let (delimiter, after_delimiter) = self.split(p.len());
                let (comment_line, line_ending, after_line_ending) = after_delimiter.rest_of_line();
                return (Some((delimiter, comment_line, line_ending)), after_line_ending);
            }
        }
        (None, *self)
    }

    /// Parses optional non-empty whitespace, line-endings, & line-comments.
    ///
    /// Returns `(Some(white_line_comments), after_white_line_comments)`.
    /// Returns `(None, self)` if there is no whitespace, line-ending, or line-comment.
    pub fn white_line_comments(&self) -> (r: (Option<Self>, Self))
        ensures
            self.took(layout_len(self@.text, self.config_ref().delimiter()), r),
    {
        let ghost s = self@.text;
        let ghost d = self.config_ref().delimiter();
        let mut lex: Self = *self;
        let mut len: usize = 0;
        let _ = self.config().line_comment_delimiter();
        let total = self.token().len();
        proof {
            assert(s.subrange(0, s.len() as int) =~= s);
        }
        loop
            invariant
                s == self@.text,
                d == self.config_ref().delimiter(),
                d is Some ==> valid_delimiter(d->Some_0),
                valid_utf8(s),
                total == s.len(),
                lex.config_ref() == self.config_ref(),
                len <= s.len(),
                lex@.text == s.subrange(len as int, s.len() as int),
                layout_len(s, d) == len + layout_len(lex@.text, d),
                clean_end(s, len as int),
            decreases s.len() - len,
        {
            let ghost l = lex@.text;
            let mut matched: bool = false;
            let mut w: usize = 0;
            let mut c: usize = 0;
            let (white_lines, after_white_lines) = lex.white_lines();
            if let Some(white_lines) = white_lines {
                matched = true;
                w = white_lines.len();
                lex = after_white_lines;
            }
            let ghost l2 = lex@.text;
            proof {
                lemma_scan_end(l, layout(), 0);
                assert(l2 =~= s.subrange(len + w, s.len() as int));
                lemma_layout_step(s, d, len as int, w as int, comment_len(l2, d));
                lemma_comment_view_len(lex@, d);
            }
            let (line_comment, after_line_comment) = lex.line_comment();
            if line_comment.is_some() {
                matched = true;
                c = lex.len() - after_line_comment.len();
                lex = after_line_comment;
            }
            proof {
                assert(c == comment_len(l2, d));
                assert(lex@.text =~= s.subrange(len + w + c, s.len() as int));
            }
            if !matched {
                proof {
                    lemma_clean_end_valid(s, len as int);
                }
                return self.split_optional(len);
            }
            len = len + w + c;
        }
    }
}

impl<'a> ParseContext<'a> {
    /// Gets the indent level and the indent length (in bytes).
    pub(crate) fn indent_level_and_len(&self) -> (r: (usize, usize))
        ensures
            (r.0 as nat, r.1 as nat) == indent(self@.text, self.config_ref().tab_width()),
            r.1 <= run_end(Kind::Whitespace, self@.text, 0),
    {
        let mut indent_level: usize = 0;
        let mut len: usize = 0;
        let spaces_per_tab: usize = self.config().spaces_per_tab();
        let ghost w = spaces_per_tab as nat;
        let (white, _after_white) = self.whitespace();
        proof {
            lemma_run_end(Kind::Whitespace, self@.text, 0);
        }
        if let Some(white) = white {
            let b = white.token().bytes();
            let ghost ws = b@;
            proof {
                assert(ws =~= self@.text.subrange(0, run_end(Kind::Whitespace, self@.text, 0)));
            }
            let n = b.len();
            while len < n
                invariant
                    ws == b@,
                    n == ws.len(),
                    w == spaces_per_tab,
                    w >= 1,
                    indent_level <= len <= n,
                    indent_from(ws, w, 0) == ((indent_level + indent_from(ws, w, len as int).0) as nat, (
                    len + indent_from(ws, w, len as int).1) as nat),
                ensures
                    indent_level <= len <= n,
                    indent_from(ws, w, 0) == ((indent_level + indent_from(ws, w, len as int).0) as nat, (
                    len + indent_from(ws, w, len as int).1) as nat),
                    indent_from(ws, w, len as int) == (0nat, 0nat),
                decreases n - len,
            {
                if b[len] == TAB {
                    indent_level += 1;
                    len += 1;
                } else if b[len] == SPACE && n - len >= spaces_per_tab && Self::all_spaces(
                    b,
                    len,
                    len + spaces_per_tab,
                ) {
                    indent_level += 1;
                    len += spaces_per_tab;
                } else {
                    break;
                }
            }
        } else {
            proof {
                assert(self@.text.subrange(0, 0).len() == 0);
            }
        }
        (indent_level, len)
    }

    /// Checks that the bytes of `b` from `from` up to `to` are all spaces.
    fn all_spaces(b: &[u8], from: usize, to: usize) -> (r: bool)
        requires
            from <= to <= b@.len(),
        ensures
            r == forall|j: int| from <= j < to ==> #[trigger] b@[j] == SPACE,
    {
        let mut i = from;
        while i < to
            invariant
                from <= i <= to <= b@.len(),
                forall|j: int| from <= j < i ==> #[trigger] b@[j] == SPACE,
            decreases to - i,
        {
            if b[i] != SPACE {
                return false;
            }
            i += 1;
        }
        true
    }

    /// Splits off the last line: everything after the last `CR` or `LF`.
    ///
    /// Returns `(not_last_line, last_line)`.
    fn split_last_line(&self) -> (r: (Self, Self))
        ensures
            (r.0@, r.1@) == split_view(self@, last_line_start(self@.text)),
            r.0.config_ref() == self.config_ref(),
            r.1.config_ref() == self.config_ref(),
    {
        let tok = self.token();
        let b = tok.bytes();
        let ghost s = b@;
        let mut i: usize = b.len();
        while i > 0 && !(b[i - 1] == CR || b[i - 1] == LF)
            invariant
                s == b@,
                i <= s.len(),
                break_end_before(s, s.len() as int) == break_end_before(s, i as int),
                forall|j: int| i <= j < s.len() ==> !is_cr_or_lf(#[trigger] s[j]),
            decreases i,
        {
            i -= 1;
        }
        proof {
            if 0 < i < s.len() {
                assert(!is_cr_or_lf(s[i as int]));
            }
            lemma_clean_end_valid(s, i as int);
        }
        self.split(i)
    }

    /// Gets the context without its ending line-ending.
    ///
    /// # Examples
    /// `abc\r\n` -> `abc`
    /// `abc\n\r` -> `abc\n`
    /// `abc\nab` -> `abc\nab`
    fn without_ending_line_ending(&self) -> (r: Self)
        ensures
            r@ == split_view(self@, self@.text.len() - ending_len(self@.text)).0,
            r.config_ref() == self.config_ref(),
    {
        let tok = self.token();
        let b = tok.bytes();
        let ghost s = b@;
        let n = b.len();
        let last_line_ending_len: usize = if n == 0 {
            0
        } else {
            let last: u8 = b[n - 1];
            if last == CR {
                1
            } else if last == LF {
                if n == 1 {
                    1
                } else {
                    let before_last: u8 = b[n - 2];
                    if before_last == CR {
                        2
                    } else {
                        1
                    }
                }
            } else {
                0
            }
        };
        proof {
            let k = n - last_line_ending_len;
            if 0 < k < n {
                assert(s[k as int] == CR || s[k as int] == LF);
                crate::text::lemma_before_ascii_boundary(s, k as int);
            }
            lemma_clean_end_valid(s, 0);
            lemma_clean_end_valid(s, n as int);
        }
        self.split(n - last_line_ending_len).0
    }
}

impl<'a> ParseContext<'a> {
    /// Parses an optionally empty line-comment block: the layout that follows the cursor is read
    /// from its last line up, collecting the text after the delimiter of each comment line while
    /// the lines keep the indent level of the last line.
    ///
    /// Returns `(comments_bottom_to_top, after_layout)`. Without a configured delimiter nothing
    /// is consumed.
    pub fn line_comment_block(&self) -> (r: (Vec<Token<'a>>, Self))
        ensures
            self.config_ref().delimiter() is None ==> r.0@.len() == 0 && r.1 == *self,
            self.config_ref().delimiter() is Some ==> ({
                let d = self.config_ref().delimiter()->Some_0;
                let n = layout_len(self@.text, Some(d));
                &&& r.1.config_ref() == self.config_ref()
                &&& n == 0 ==> r.0@.len() == 0 && r.1@ == self@
                &&& n > 0 ==> r.1@ == split_view(self@, n).1 && r.0@.map_values(|t: Token<'a>| t@)
                    == comment_block(split_view(self@, n).0, d, self.config_ref().tab_width())
            }),
    {
        if self.config().line_comment_delimiter().is_none() {
            return (Vec::new(), *self);
        }
        let (comments, after_comments) = self.white_line_comments();
        if let Some(comments) = comments {
            (comments.line_comment_block_vec(), after_comments)
        } else {
            (Vec::new(), after_comments)
        }
    }

    /// Parses the line-comment block vec.
    ///
    /// Returns the texts of the line-comments, bottom to top.
    pub fn line_comment_block_vec(self) -> (r: Vec<Token<'a>>)
        ensures
            self.config_ref().delimiter() is None ==> r@.len() == 0,
            self.config_ref().delimiter() is Some ==> r@.map_values(|t: Token<'a>| t@)
                == comment_block(
                self@,
                self.config_ref().delimiter()->Some_0,
                self.config_ref().tab_width(),
            ),
    {
        let mut result: Vec<Token<'a>> = Vec::new();
        self.construct_line_comment_block(&mut result);
        proof {
            if self.config_ref().delimiter() is Some {
                assert(Seq::<Token<'a>>::empty().map_values(|t: Token<'a>| t@) + comment_block(
                    self@,
                    self.config_ref().delimiter()->Some_0,
                    self.config_ref().tab_width(),
                ) =~= comment_block(
                    self@,
                    self.config_ref().delimiter()->Some_0,
                    self.config_ref().tab_width(),
                ));
            }
        }
        result
    }

    /// Parses a line-comment block, adding the texts of its line-comments to `result`, bottom
    /// to top.
    fn construct_line_comment_block(self, result: &mut Vec<Token<'a>>)
        ensures
            self.config_ref().delimiter() is None ==> final(result)@ == old(result)@,
            self.config_ref().delimiter() is Some ==> final(result)@.map_values(
                |t: Token<'a>| t@,
            ) == old(result)@.map_values(|t: Token<'a>| t@) + comment_block(
                self@,
                self.config_ref().delimiter()->Some_0,
                self.config_ref().tab_width(),
            ),
    {
        let line_comment_delimiter: &str = match self.config().line_comment_delimiter() {
            Some(lcd) => lcd,
            None => return,
        };
        let p = line_comment_delimiter.as_bytes();
        let ghost d = p@;
        let ghost w = self.config_ref().tab_width();
        let ghost start = old(result)@.map_values(|t: Token<'a>| t@);
        let (mut lines, last_line) = self.split_last_line();
        let last_line_indent: usize = last_line.indent_level_and_len().0;
        let ghost level = last_line_indent as nat;
        proof {
            assert(start + comment_block(self@, d, w) =~= result@.map_values(|t: Token<'a>| t@)
                + block_from(lines@, level, d, w));
        }
        while !lines.is_empty()
            invariant
                d == p@,
                valid_delimiter(d),
                valid_utf8(d),
                self.config_ref().delimiter() is Some,
                d == self.config_ref().delimiter()->Some_0,
                start == old(result)@.map_values(|t: Token<'a>| t@),
                w == self.config_ref().tab_width(),
                lines.config_ref() == self.config_ref(),
                level == last_line_indent,
                start + comment_block(self@, d, w) == result@.map_values(|t: Token<'a>| t@)
                    + block_from(lines@, level, d, w),
            decreases lines@.text.len(),
        {
            let without_line_ending: ParseContext = lines.without_ending_line_ending();
            let (not_last_line, last_line) = without_line_ending.split_last_line();
            proof {
                lemma_peel_shorter(lines@);
            }
            let ghost before = result@.map_values(|t: Token<'a>| t@);
            let ghost rest_block = block_from(lines@, level, d, w);
            let (indent, len) = last_line.indent_level_and_len();
            if indent != last_line_indent {
                proof {
                    assert(rest_block.len() == 0);
                    assert(before + rest_block =~= before);
                }
                return;
            }
            let line_token = last_line.token();
            proof {
                let t = last_line@.text;
                lemma_run_end(Kind::Whitespace, t, 0);
                if 0 < len < t.len() {
                    assert(is_whitespace_byte(t[len - 1]));
                }
                lemma_clean_end_valid(t, len as int);
            }
            let (_indent, after_indent) = line_token.split(len);
            let t = after_indent.bytes();
            if !crate::context::bytes_start_with(t, p) {
                proof {
                    assert(rest_block.len() == 0);
                    assert(before + rest_block =~= before);
                }
                return;
            }
            proof {
                assert(p@[p@.len() - 1] != CR);
                assert(t@[p@.len() - 1] == p@[p@.len() - 1]);
                assert(t@.subrange(0, p@.len() as int) == p@);
                crate::text::lemma_prefix_boundary(t@, p@.len() as int);
            }
            let (_delimiter, comment) = after_indent.split(p.len());
            result.push(comment);
            proof {
                assert(result@.map_values(|t: Token<'a>| t@) =~= before.push(comment@));
                assert(rest_block =~= seq![comment@] + block_from(not_last_line@, level, d, w));
                assert(before + rest_block =~= before.push(comment@) + block_from(
                    not_last_line@,
                    level,
                    d,
                    w,
                ));
            }
            lines = not_last_line;
        }
        proof {
            assert(block_from(lines@, level, d, w).len() == 0);
            assert(result@.map_values(|t: Token<'a>| t@) + block_from(lines@, level, d, w)
                =~= result@.map_values(|t: Token<'a>| t@));
        }
    }
}

} // verus!
