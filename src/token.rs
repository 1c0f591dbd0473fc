//! A borrowed slice of source text that knows where it starts.

use vstd::prelude::*;
use vstd::string::StringSliceAdditionalSpecFns;
use vstd::utf8::*;

use crate::text::{
    last_line_len, line_ending_prefix_len, lemma_line_ending_count_bound, line_ending_count, split_view,
    valid_split_index, is_space_or_tab, TokenView, CR, LF, SPACE, TAB,
};

verus! {

broadcast use {vstd::utf8::encode_utf8_valid_utf8, vstd::slice::group_slice_axioms};

/// A string value with an associated source code position.
#[derive(Copy, Clone, PartialEq, Eq, Hash, Debug)]
pub struct Token<'a> {
    value: &'a str,
    line: usize,
    position: usize,
}

impl<'a> View for Token<'a> {
    type V = TokenView;

    closed spec fn view(&self) -> TokenView {
        TokenView {
            text: self.value.spec_bytes(),
            line: self.line as int,
            position: self.position as int,
        }
    }
}

impl<'a> Token<'a> {
    /// The counters of every span derived from this one stay within `usize`.
    pub open spec fn wf(&self) -> bool {
        &&& self@.line + self@.text.len() <= usize::MAX
        &&& self@.position + self@.text.len() <= usize::MAX
        &&& valid_utf8(self@.text)
    }

    /// The chars of the value.
    pub closed spec fn chars(&self) -> Seq<char> {
        self.value@
    }

    /// Creates a new token.
    pub fn new(value: &'a str, line: usize, position: usize) -> (r: Self)
        ensures
            r@ == (TokenView { text: value.spec_bytes(), line: line as int, position: position as int }),
            line + value.spec_bytes().len() <= usize::MAX && position + value.spec_bytes().len()
                <= usize::MAX ==> r.wf(),
    {
        Token { value, line, position }
    }

    /// Creates a token for a whole source: line 0, position 0.
    pub fn from(value: &'a str) -> (r: Self)
        ensures
            r@ == (TokenView { text: value.spec_bytes(), line: 0, position: 0 }),
            r.wf(),
    {
        let bytes = value.as_bytes();
        assert(bytes@.len() == bytes.len());
        Token { value, line: 0, position: 0 }
    }

    /// Gets the string value.
    pub fn value(&self) -> (r: &'a str)
        ensures
            r.spec_bytes() == self@.text,
            r@ == self.chars(),
    {
        self.value
    }

    /// Gets the 0-indexed line number.
    pub fn line(&self) -> (r: usize)
        ensures
            r == self@.line,
    {
        self.line
    }

    /// Gets the 0-indexed byte position of the first byte within the line.
    pub fn position(&self) -> (r: usize)
        ensures
            r == self@.position,
    {
        self.position
    }

    /// Gets the value as bytes.
    pub fn bytes(&self) -> (r: &'a [u8])
        ensures
            r@ == self@.text,
    {
        self.value.as_bytes()
    }

    /// Gets the length of the string value. (in bytes)
    pub fn len(&self) -> (r: usize)
        requires
            self.wf(),
        ensures
            r == self@.text.len(),
    {
        self.value.len()
    }

    /// Checks if the string value is empty.
    pub fn is_empty(&self) -> (r: bool)
        requires
            self.wf(),
        ensures
            r == (self@.text.len() == 0),
    {
        self.value.len() == 0
    }
}

impl<'a> Token<'a> {
    /// Checks if the token is a line-ending: `CR`, `LF` or `CRLF`.
    pub fn is_line_ending(&self) -> (r: bool)
        ensures
            r == (self@.text == seq![CR] || self@.text == seq![LF] || self@.text == seq![CR, LF]),
    {
        let b = self.value.as_bytes();
        let n = b.len();
        proof {
            assert(seq![CR].len() == 1 && seq![CR][0] == CR);
            assert(seq![LF].len() == 1 && seq![LF][0] == LF);
            assert(seq![CR, LF].len() == 2 && seq![CR, LF][0] == CR && seq![CR, LF][1] == LF);
            if n == 1 && b@[0] == CR {
                assert(b@ =~= seq![CR]);
            }
            if n == 1 && b@[0] == LF {
                assert(b@ =~= seq![LF]);
            }
            if n == 2 && b@[0] == CR && b@[1] == LF {
                assert(b@ =~= seq![CR, LF]);
            }
        }
        (n == 1 && (b[0] == CR || b[0] == LF)) || (n == 2 && b[0] == CR && b[1] == LF)
    }

    /// Checks if the token is whitespace: spaces & tabs only.
    pub fn is_whitespace(&self) -> (r: bool)
        ensures
            r == forall|i: int| 0 <= i < self@.text.len() ==> is_space_or_tab(#[trigger] self@.text[i]),
    {
        let b = self.value.as_bytes();
        let mut i: usize = 0;
        while i < b.len()
            invariant
                b@ == self@.text,
                i <= b@.len(),
                forall|j: int| 0 <= j < i ==> is_space_or_tab(#[trigger] b@[j]),
            decreases b@.len() - i,
        {
            if !(b[i] == SPACE || b[i] == TAB) {
                assert(!is_space_or_tab(b@[i as int]));
                return false;
            }
            i = i + 1;
        }
        true
    }

    /// Moves the token to the start of the next line.
    pub fn with_new_line(self) -> (r: Self)
        requires
            self@.line < usize::MAX,
        ensures
            r@ == (TokenView { text: self@.text, line: self@.line + 1, position: 0 }),
    {
        Token { value: self.value, line: self.line + 1, position: 0 }
    }
}

/// A split never separates the two bytes of a `CRLF`: wherever a split is allowed, the left half
/// does not end with the `CR` of a `CRLF` whose `LF` starts the right half.
pub proof fn lemma_split_keeps_crlf(t: TokenView, index: int)
    requires
        valid_split_index(t.text, index),
    ensures
        ({
            let (left, right) = split_view(t, index);
            !(left.text.len() > 0 && right.text.len() > 0 && left.text.last() == CR
                && right.text[0] == LF)
        }),
{
    let (left, right) = split_view(t, index);
    if left.text.len() > 0 && right.text.len() > 0 {
        assert(left.text.last() == t.text[index - 1]);
        assert(right.text[0] == t.text[index]);
    }
}

impl<'a> Token<'a> {
    /// Checks if the `index` is a valid split index: a char boundary of the value that does not
    /// split a `CRLF` sequence.
    pub fn is_valid_split_index(&self, index: usize) -> (r: bool)
        requires
            self.wf(),
        ensures
            r == valid_split_index(self@.text, index as int),
    {
        let len = self.value.len();
        if index == 0 || index == len {
            proof {
                is_char_boundary_start_end_of_seq(self@.text);
            }
            true
        } else if index < len && self.value.is_char_boundary(index) {
            let b = self.value.as_bytes();
            !(b[index - 1] == CR && b[index] == LF)
        } else {
            false
        }
    }

    /// Gets the length of the line-ending at the start of `s`: 2 for `CRLF`, 1 for a `CR` not
    /// followed by `LF` or for an `LF`, 0 when `s` does not start with `CR` or `LF`.
    pub(crate) fn line_ending_prefix_len(s: &str) -> (r: usize)
        ensures
            r == line_ending_prefix_len(s.spec_bytes()),
    {
        let b = s.as_bytes();
        if b.len() == 0 {
            0
        } else if b[0] == CR {
            if b.len() >= 2 && b[1] == LF {
                2
            } else {
                1
            }
        } else if b[0] == LF {
            1
        } else {
            0
        }
    }

    /// Counts the line-endings and the bytes after the last line-ending.
    ///
    /// A `CRLF` sequence counts as one line-ending. Returns `(0, self.len())` when there is none.
    pub fn line_ending_count_and_last_line_len(&self) -> (r: (usize, usize))
        requires
            self.wf(),
        ensures
            r.0 == line_ending_count(self@.text),
            r.1 == last_line_len(self@.text),
    {
        let b = self.value.as_bytes();
        let n = b.len();
        let mut count: usize = 0;
        let mut last: usize = 0;
        let mut i: usize = 0;
        while i < n
            invariant
                n == b@.len(),
                b@ == self@.text,
                i <= n,
                count <= i,
                last <= i,
                count == line_ending_count(b@.subrange(0, i as int)),
                last == last_line_len(b@.subrange(0, i as int)),
            decreases n - i,
        {
            let c = b[i];
            proof {
                let next = b@.subrange(0, i + 1);
                assert(next.drop_last() =~= b@.subrange(0, i as int));
                assert(next.last() == c);
                assert(i > 0 ==> next[i - 1] == b@[i - 1]);
            }
            if c == CR || (c == LF && !(i > 0 && b[i - 1] == CR)) {
                count = count + 1;
            }
            if c == CR || c == LF {
                last = 0;
            } else {
                last = last + 1;
            }
            i = i + 1;
        }
        assert(b@.subrange(0, n as int) =~= b@);
        (count, last)
    }

    /// Splits the token at the `index`.
    ///
    /// Returns `(before_index, index_and_after)`; the right half's line and position are advanced
    /// over the line-endings of the left half.
    pub fn split(&self, index: usize) -> (r: (Self, Self))
        requires
            self.wf(),
            valid_split_index(self@.text, index as int),
        ensures
            (r.0@, r.1@) == split_view(self@, index as int),
            r.0.wf(),
            r.1.wf(),
    {
        proof {
            is_char_boundary_start_end_of_seq(self@.text);
        }
        let (left, right) = self.value.split_at(index);
        let left: Self = Self::new(left, self.line, self.position);
        let (line_ending_count, last_line_len) = left.line_ending_count_and_last_line_len();
        proof {
            lemma_line_ending_count_bound(left@.text);
        }
        let right: Self = Self::new(
            right,
            self.line + line_ending_count,
            if line_ending_count == 0 {
                self.position + last_line_len
            } else {
                last_line_len
            },
        );
        (left, right)
    }

    /// Splits the token at the `index`.
    ///
    /// Returns `(Some(before_index), index_and_after)` if the `index` is not `0`.
    /// Returns `(None, self)` if the `index` is `0`.
    pub fn split_optional(&self, index: usize) -> (r: (Option<Self>, Self))
        requires
            self.wf(),
            valid_split_index(self@.text, index as int),
        ensures
            index == 0 ==> r.0.is_none() && r.1 == *self,
            index != 0 ==> r.0.is_some() && (r.0.unwrap()@, r.1@) == split_view(self@, index as int)
                && r.0.unwrap().wf(),
            r.1.wf(),
    {
        if index == 0 {
            (None, *self)
        } else {
            let (left, right) = self.split(index);
            (Some(left), right)
        }
    }
}

} // verus!
