//! Human-readable renderings of lexemes and lexes, for debugging.

use vstd::prelude::*;
use vstd::string::{StrSliceExecFns, StringExecFns};

use crate::kind::{display_char, kind_name, Kind};
use crate::lex::Lex;
use crate::lexeme::{Lexeme, LexemeView};
use crate::text::{TokenView, CR, LF, SPACE, TAB};
use crate::token::Token;

verus! {

broadcast use vstd::slice::group_slice_axioms;

/// Relies on `String::push`: appends `c` to the end of `s`.
#[verifier::external_body]
fn push_char(s: &mut String, c: char)
    ensures
        final(s)@ == old(s)@.push(c),
{
    s.push(c);
}

pub open spec fn digit_char(d: nat) -> char {
    ((48 + d) as u8) as char
}

/// The decimal digits of `n`.
pub open spec fn decimal_chars(n: nat) -> Seq<char>
    decreases n,
{
    if n < 10 {
        seq![digit_char(n)]
    } else {
        decimal_chars(n / 10).push(digit_char(n % 10))
    }
}

pub open spec fn spaces(k: nat) -> Seq<char> {
    Seq::new(k, |i: int| ' ')
}

/// `x`, padded with spaces on the right to at least `w` chars.
pub open spec fn left_aligned(x: Seq<char>, w: nat) -> Seq<char> {
    if x.len() >= w {
        x
    } else {
        x + spaces((w - x.len()) as nat)
    }
}

/// Each byte of `t` as the char that displays it.
pub open spec fn display_text(t: Seq<u8>) -> Seq<char> {
    t.map_values(|b: u8| display_char(b))
}

/// The rendering of a lexeme: `Token([line:position]:kind text)`.
pub open spec fn lexeme_text(t: LexemeView) -> Seq<char> {
    "Token(["@ + decimal_chars(t.line as nat) + ":"@ + decimal_chars(t.position as nat) + "]:"@
        + kind_name(t.kind) + " "@ + display_text(t.text) + ")"@
}

/// The row of a token in the rendering of a lex: its position, its kind and its bytes.
pub open spec fn row_text(t: LexemeView) -> Seq<char> {
    "    "@ + left_aligned(decimal_chars(t.position as nat), 5) + ": "@ + left_aligned(
        kind_name(t.kind),
        16,
    ) + " "@ + display_text(t.text) + "\n"@
}

/// The header of line `n` (counting from 1) in the rendering of a lex.
pub open spec fn header_text(n: nat) -> Seq<char> {
    "line "@ + decimal_chars(n) + ":\n"@
}

/// The rendering of the tokens of a lex, one per row, with a header before the first token of
/// each line; `line` counts the headers written so far.
pub open spec fn lex_rows(tokens: Seq<LexemeView>, line: int) -> Seq<char>
    decreases tokens.len(),
{
    if tokens.len() == 0 {
        Seq::empty()
    } else {
        let t = tokens[0];
        let header = if line == t.line {
            header_text((line + 1) as nat)
        } else {
            Seq::empty()
        };
        let next = if line == t.line {
            line + 1
        } else {
            line
        };
        header + row_text(t) + lex_rows(tokens.skip(1), next)
    }
}

/// Appends the decimal digits of `n`.
fn push_decimal(s: &mut String, n: u128)
    ensures
        final(s)@ == old(s)@ + decimal_chars(n as nat),
    decreases n,
{
    if n >= 10 {
        push_decimal(s, n / 10);
    }
    let d: u8 = (n % 10) as u8;
    push_char(s, (48 + d) as char);
    proof {
        if n < 10 {
            assert(old(s)@ + decimal_chars(n as nat) =~= old(s)@.push(digit_char(n as nat)));
        } else {
            assert(old(s)@ + decimal_chars(n as nat) =~= (old(s)@ + decimal_chars((n / 10) as nat)).push(
                digit_char((n % 10) as nat),
            ));
        }
    }
}

/// Appends `k` spaces.
fn push_spaces(s: &mut String, k: usize)
    ensures
        final(s)@ == old(s)@ + spaces(k as nat),
{
    let mut i: usize = 0;
    while i < k
        invariant
            i <= k,
            s@ == old(s)@ + spaces(i as nat),
        decreases k - i,
    {
        push_char(s, ' ');
        i += 1;
        assert(s@ =~= old(s)@ + spaces(i as nat));
    }
}

/// Appends `field`, padded with spaces on the right to at least `width` chars.
fn push_left_aligned(s: &mut String, field: &str, width: usize)
    ensures
        final(s)@ == old(s)@ + left_aligned(field@, width as nat),
{
    let k = field.unicode_len();
    s.append(field);
    if k < width {
        push_spaces(s, width - k);
        assert(s@ =~= old(s)@ + left_aligned(field@, width as nat));
    } else {
        assert(s@ =~= old(s)@ + left_aligned(field@, width as nat));
    }
}

/// Appends each byte of `b` as the char that displays it.
fn push_display_bytes(s: &mut String, b: &[u8])
    ensures
        final(s)@ == old(s)@ + display_text(b@),
{
    let mut i: usize = 0;
    while i < b.len()
        invariant
            i <= b@.len(),
            s@ == old(s)@ + display_text(b@.subrange(0, i as int)),
        decreases b@.len() - i,
    {
        push_char(s, Kind::display_byte(b[i]));
        i += 1;
        assert(display_text(b@.subrange(0, i as int)) =~= display_text(b@.subrange(0, i - 1)).push(
            display_char(b@[i - 1]),
        ));
    }
    assert(b@.subrange(0, b@.len() as int) =~= b@);
}

impl<'a> Lexeme<'a> {
    /// Renders the lexeme as `Token([line:position]:kind text)`, each byte of the text shown by
    /// `Kind::display_byte`.
    pub fn to_string(&self) -> (r: String)
        ensures
            r@ == lexeme_text(self@),
    {
        let mut s = String::from_str("Token([");
        push_decimal(&mut s, self.line() as u128);
        s.append(":");
        push_decimal(&mut s, self.position() as u128);
        s.append("]:");
        s.append(self.kind().to_str());
        s.append(" ");
        push_display_bytes(&mut s, self.value().as_bytes());
        s.append(")");
        assert(s@ =~= lexeme_text(self@));
        s
    }
}

impl<'a> Lex<'a> {
    /// Renders the lex: for each source line a `line n:` header, then one row per token with
    /// its position, its kind name and its bytes shown by `Kind::display_byte`.
    pub fn to_string(&self) -> (r: String)
        ensures
            r@ == lex_rows(self@.tokens, 0),
    {
        let tokens = self.tokens();
        let ghost views = self@.tokens;
        let mut s = String::new();
        let mut line: u64 = 0;
        let mut i: usize = 0;
        assert(views.skip(0) =~= views);
        while i < tokens.len()
            invariant
                views == tokens@.map_values(|t: Lexeme<'a>| t@),
                i <= tokens@.len(),
                line <= i,
                s@ + lex_rows(views.skip(i as int), line as int) == lex_rows(views, 0),
            decreases tokens@.len() - i,
        {
            let token = &tokens[i];
            let ghost before = s@;
            let ghost t = views[i as int];
            assert(t == token@);
            assert(views.skip(i as int)[0] == t);
            assert(views.skip(i as int).skip(1) =~= views.skip(i + 1));
            let new_line = line == token.line() as u64;
            if new_line {
                line += 1;
                s.append("line ");
                push_decimal(&mut s, line as u128);
                s.append(":\n");
            }
            let ghost after_header = s@;
            push_row(&mut s, token);
            proof {
                let rest = lex_rows(views.skip(i + 1), line as int);
                if new_line {
                    assert(after_header =~= before + header_text(line as nat));
                    assert(s@ + rest =~= before + (header_text(line as nat) + row_text(t) + rest));
                } else {
                    assert(s@ + rest =~= before + (Seq::<char>::empty() + row_text(t) + rest));
                }
            }
            i += 1;
        }
        proof {
            assert(views.skip(i as int).len() == 0);
            assert(s@ + Seq::<char>::empty() =~= s@);
        }
        s
    }
}

/// The width of whitespace in spaces: a space counts 1, a tab 4.
pub open spec fn whitespace_width(t: Seq<u8>) -> nat
    decreases t.len(),
{
    if t.len() == 0 {
        0
    } else {
        whitespace_width(t.drop_last()) + if t.last() == SPACE {
            1nat
        } else {
            4nat
        }
    }
}

/// The rendering of a span: its line, position and length, then a line-ending as its `r` and
/// `n` letters, whitespace as its width, or any other text as it is.
pub open spec fn token_text(t: TokenView, chars: Seq<char>) -> Seq<char> {
    let head = "[line="@ + decimal_chars(t.line as nat) + " pos="@ + decimal_chars(
        t.position as nat,
    ) + " len="@ + decimal_chars(t.text.len()) + "]: "@;
    if t.text == seq![CR] || t.text == seq![LF] || t.text == seq![CR, LF] {
        head + "line-ending("@ + t.text.map_values(|b: u8| if b == CR { 'r' } else { 'n' })
            + ")"@
    } else if forall|i: int| 0 <= i < t.text.len() ==> #[trigger] t.text[i] == SPACE || t.text[i]
        == TAB {
        head + "whitespace(spaces="@ + decimal_chars(whitespace_width(t.text)) + ")"@
    } else {
        head + chars
    }
}

impl<'a> Token<'a> {
    /// Renders the span as `[line=l pos=p len=n]: ` followed by `line-ending(..)` with an `r`
    /// or `n` per byte, `whitespace(spaces=w)` with a tab counting 4 spaces, or the value.
    pub fn to_string(&self) -> (r: String)
        ensures
            r@ == token_text(self@, self.chars()),
    {
        let b = self.bytes();
        let mut s = String::from_str("[line=");
        push_decimal(&mut s, self.line() as u128);
        s.append(" pos=");
        push_decimal(&mut s, self.position() as u128);
        s.append(" len=");
        push_decimal(&mut s, b.len() as u128);
        s.append("]: ");
        let ghost head = s@;
        if self.is_line_ending() {
            s.append("line-ending(");
            let mut i: usize = 0;
            while i < b.len()
                invariant
                    i <= b@.len(),
                    s@ == head + "line-ending("@ + b@.subrange(0, i as int).map_values(
                        |c: u8| if c == CR { 'r' } else { 'n' },
                    ),
                decreases b@.len() - i,
            {
                push_char(&mut s, if b[i] == CR { 'r' } else { 'n' });
                i += 1;
                assert(b@.subrange(0, i as int).map_values(|c: u8| if c == CR { 'r' } else { 'n' })
                    =~= b@.subrange(0, i - 1).map_values(|c: u8| if c == CR { 'r' } else { 'n' }).push(
                    if b@[i - 1] == CR { 'r' } else { 'n' },
                ));
            }
            assert(b@.subrange(0, b@.len() as int) =~= b@);
            s.append(")");
        } else if self.is_whitespace() {
            let mut width: u128 = 0;
            let mut i: usize = 0;
            while i < b.len()
                invariant
                    i <= b@.len(),
                    width == whitespace_width(b@.subrange(0, i as int)),
                    width <= 4 * i,
                decreases b@.len() - i,
            {
                assert(b@.subrange(0, i + 1).drop_last() =~= b@.subrange(0, i as int));
                width = width + if b[i] == SPACE { 1 } else { 4 };
                i += 1;
            }
            assert(b@.subrange(0, b@.len() as int) =~= b@);
            s.append("whitespace(spaces=");
            push_decimal(&mut s, width);
            s.append(")");
        } else {
            s.append(self.value());
        }
        assert(s@ =~= token_text(self@, self.chars()));
        s
    }
}

/// Appends the row of a token.
fn push_row(s: &mut String, token: &Lexeme)
    ensures
        final(s)@ == old(s)@ + row_text(token@),
{
    s.append("    ");
    push_left_aligned(s, &position_text(token.position()), 5);
    s.append(": ");
    push_left_aligned(s, token.kind().to_str(), 16);
    s.append(" ");
    push_display_bytes(s, token.value().as_bytes());
    s.append("\n");
    assert(s@ =~= old(s)@ + row_text(token@));
}

/// The decimal digits of a position, as a string.
fn position_text(n: u32) -> (r: String)
    ensures
        r@ == decimal_chars(n as nat),
{
    let mut s = String::new();
    push_decimal(&mut s, n as u128);
    assert(s@ =~= decimal_chars(n as nat));
    s
}

} // verus!
