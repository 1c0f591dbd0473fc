//! Tokenized source code and the invariants that tie its tokens to the source.

use vstd::prelude::*;
use vstd::string::StringSliceAdditionalSpecFns;

use crate::kind::Kind;
use crate::lexeme::{Lexeme, LexemeView};
use crate::text::{CR, LF};

verus! {

broadcast use vstd::slice::group_slice_axioms;

/// The abstract value of a lex: the source bytes and its tokens.
pub ghost struct LexView {
    pub source: Seq<u8>,
    pub tokens: Seq<LexemeView>,
}

/// The concatenation of the texts of `tokens`.
pub open spec fn concat_texts(tokens: Seq<LexemeView>) -> Seq<u8>
    decreases tokens.len(),
{
    if tokens.len() == 0 {
        Seq::empty()
    } else {
        tokens[0].text + concat_texts(tokens.skip(1))
    }
}

/// The line and position that follow a token that starts at `line` and `position`: a line-ending
/// moves to the start of the next line, any other token moves along the line by its length.
pub open spec fn step(line: int, position: int, t: LexemeView) -> (int, int) {
    if t.kind == Kind::LineEnding {
        (line + 1, 0)
    } else {
        (line, position + t.text.len())
    }
}

/// The line and position reached after the first `i` tokens, starting from `line` and `position`.
pub open spec fn counters_from(line: int, position: int, tokens: Seq<LexemeView>, i: int) -> (int, int)
    decreases i,
{
    if i <= 0 || tokens.len() == 0 {
        (line, position)
    } else {
        let (l, p) = step(line, position, tokens[0]);
        counters_from(l, p, tokens.skip(1), i - 1)
    }
}

pub open spec fn fits_u32(c: (int, int)) -> bool {
    c.0 <= u32::MAX && c.1 <= u32::MAX
}

/// Each token sits at the line and position reached through the tokens before it, and the
/// counters never leave the 32-bit range.
pub open spec fn lines_and_positions_match(tokens: Seq<LexemeView>) -> bool {
    forall|i: int|
        0 <= i < tokens.len() ==> {
            &&& (#[trigger] tokens[i]).line == counters_from(0, 0, tokens, i).0
            &&& tokens[i].position == counters_from(0, 0, tokens, i).1
            &&& fits_u32(counters_from(0, 0, tokens, i + 1))
        }
}

/// Whether two adjacent tokens could not have been one: their kinds differ, both are special,
/// or both are line-endings that do not split a `CRLF`.
pub open spec fn distinct_neighbours(a: LexemeView, b: LexemeView) -> bool {
    ||| a.kind != b.kind
    ||| b.kind is Special
    ||| (b.kind == Kind::LineEnding && !(a.text == seq![CR] && b.text == seq![LF]))
}

/// No two adjacent tokens could have been merged into one.
pub open spec fn no_duplicates(tokens: Seq<LexemeView>) -> bool {
    forall|i: int| 0 < i < tokens.len() ==> distinct_neighbours(tokens[i - 1], #[trigger] tokens[i])
}

/// The tokens reconstruct the source, sit where they should, and are maximal.
pub open spec fn tokens_match(source: Seq<u8>, tokens: Seq<LexemeView>) -> bool {
    &&& concat_texts(tokens) == source
    &&& lines_and_positions_match(tokens)
    &&& no_duplicates(tokens)
}

/// The line and position after the first `i + 1` tokens follow from those after the first `i`.
pub proof fn lemma_counters_step(line: int, position: int, tokens: Seq<LexemeView>, i: int)
    requires
        0 <= i < tokens.len(),
    ensures
        counters_from(line, position, tokens, i + 1) == step(
            counters_from(line, position, tokens, i).0,
            counters_from(line, position, tokens, i).1,
            tokens[i],
        ),
    decreases i,
{
    let (l, p) = step(line, position, tokens[0]);
    assert(counters_from(line, position, tokens, i + 1) == counters_from(l, p, tokens.skip(1), i));
    if i > 0 {
        assert(tokens.skip(1)[i - 1] == tokens[i]);
        assert(counters_from(line, position, tokens, i) == counters_from(
            l,
            p,
            tokens.skip(1),
            i - 1,
        ));
        lemma_counters_step(l, p, tokens.skip(1), i - 1);
    }
}

/// Tokenized source code.
#[derive(Clone, Debug)]
pub struct Lex<'a> {
    source: &'a str,
    tokens: Vec<Lexeme<'a>>,
}

impl<'a> View for Lex<'a> {
    type V = LexView;

    closed spec fn view(&self) -> LexView {
        LexView {
            source: self.source.spec_bytes(),
            tokens: self.tokens@.map_values(|t: Lexeme<'a>| t@),
        }
    }
}

impl<'a> Lex<'a> {
    /// The tokens match the source.
    pub closed spec fn wf(&self) -> bool {
        tokens_match(self@.source, self@.tokens)
    }

    /// What a well-formed lex states of its tokens.
    pub proof fn lemma_wf(&self)
        requires
            self.wf(),
        ensures
            tokens_match(self@.source, self@.tokens),
    {
    }

    /// Creates a new lex.
    pub(crate) fn new(source: &'a str, tokens: Vec<Lexeme<'a>>) -> (r: Self)
        requires
            tokens_match(source.spec_bytes(), tokens@.map_values(|t: Lexeme<'a>| t@)),
        ensures
            r@.source == source.spec_bytes(),
            r@.tokens == tokens@.map_values(|t: Lexeme<'a>| t@),
            r.wf(),
    {
        Lex { source, tokens }
    }

    /// Checks if the tokens match the source code.
    pub fn matches(source: &'a str, tokens: &[Lexeme<'a>]) -> (r: bool)
        ensures
            r == tokens_match(source.spec_bytes(), tokens@.map_values(|t: Lexeme<'a>| t@)),
    {
        Self::matches_source(source, tokens) && Self::matches_lines_and_positions(tokens)
            && Self::has_no_duplicates(tokens)
    }

    /// Checks if the source matches the tokens values.
    pub fn matches_source(source: &'a str, tokens: &[Lexeme<'a>]) -> (r: bool)
        ensures
            r == (concat_texts(tokens@.map_values(|t: Lexeme<'a>| t@)) == source.spec_bytes()),
    {
        let ghost views = tokens@.map_values(|t: Lexeme<'a>| t@);
        let src = source.as_bytes();
        let mut at: usize = 0;
        let mut i: usize = 0;
        assert(views.skip(0) =~= views);
        assert(src@.skip(0) =~= src@);
        while i < tokens.len()
            invariant
                views == tokens@.map_values(|t: Lexeme<'a>| t@),
                src@ == source.spec_bytes(),
                i <= tokens@.len(),
                at <= src.len(),
                (concat_texts(views.skip(i as int)) == src@.skip(at as int)) == (concat_texts(views)
                    == src@),
            decreases tokens@.len() - i,
        {
            let value = tokens[i].value().as_bytes();
            let n = value.len();
            proof {
                assert(views[i as int] == tokens@[i as int]@);
                assert(views.skip(i as int)[0] == views[i as int]);
                assert(views.skip(i as int).skip(1) =~= views.skip(i + 1));
                assert(concat_texts(views.skip(i as int)) == value@ + concat_texts(
                    views.skip(i + 1),
                ));
            }
            if src.len() - at < n {
                proof {
                    let rest = concat_texts(views.skip(i + 1));
                    assert((value@ + rest).len() > src@.skip(at as int).len());
                }
                return false;
            }
            let mut j: usize = 0;
            while j < n && value[j] == src[at + j]
                invariant
                    n == value@.len(),
                    at + n <= src.len(),
                    src@ == source.spec_bytes(),
                    j <= n,
                    forall|k: int| 0 <= k < j ==> value@[k] == src@[at + k],
                decreases n - j,
            {
                j = j + 1;
            }
            if j < n {
                proof {
                    let rest = concat_texts(views.skip(i + 1));
                    assert((value@ + rest)[j as int] != src@.skip(at as int)[j as int]);
                    assert(concat_texts(views.skip(i as int)) != src@.skip(at as int));
                }
                return false;
            }
            proof {
                let rest = concat_texts(views.skip(i + 1));
                assert(value@ =~= src@.skip(at as int).take(n as int));
                assert(src@.skip(at as int) =~= value@ + src@.skip(at + n));
                assert((value@ + rest == value@ + src@.skip(at + n)) == (rest == src@.skip(
                    at + n,
                ))) by {
                    if value@ + rest == value@ + src@.skip(at + n) {
                        assert(rest =~= (value@ + rest).skip(n as int));
                        assert(src@.skip(at + n) =~= (value@ + src@.skip(at + n)).skip(n as int));
                    }
                }
            }
            at = at + n;
            i = i + 1;
        }
        proof {
            assert(views.skip(i as int).len() == 0);
            assert(src@.skip(at as int).len() == 0 ==> src@.skip(at as int) =~= Seq::<u8>::empty());
        }
        at == src.len()
    }

    /// Checks if there are no duplicate tokens: no two adjacent tokens that should have been one.
    pub fn has_no_duplicates(tokens: &[Lexeme<'a>]) -> (r: bool)
        ensures
            r == no_duplicates(tokens@.map_values(|t: Lexeme<'a>| t@)),
    {
        let ghost views = tokens@.map_values(|t: Lexeme<'a>| t@);
        if tokens.len() < 2 {
            return true;
        }
        let mut i: usize = 1;
        while i < tokens.len()
            invariant
                views == tokens@.map_values(|t: Lexeme<'a>| t@),
                1 <= i <= tokens@.len(),
                forall|j: int| 0 < j < i ==> distinct_neighbours(views[j - 1], #[trigger] views[j]),
            decreases tokens@.len() - i,
        {
            let last = &tokens[i - 1];
            let token = &tokens[i];
            assert(views[i as int] == tokens@[i as int]@);
            assert(views[i - 1] == tokens@[i - 1]@);
            if token.kind() == last.kind() {
                if let Kind::Special(_) = token.kind() {
                } else if token.kind() != Kind::LineEnding {
                    assert(!distinct_neighbours(views[i - 1], views[i as int]));
                    return false;
                } else {
                    let a = last.value().as_bytes();
                    let b = token.value().as_bytes();
                    let split_crlf = a.len() == 1 && a[0] == CR && b.len() == 1 && b[0] == LF;
                    proof {
                        assert(seq![CR].len() == 1 && seq![CR][0] == CR);
                        assert(seq![LF].len() == 1 && seq![LF][0] == LF);
                        if split_crlf {
                            assert(a@ =~= seq![CR]);
                            assert(b@ =~= seq![LF]);
                        }
                    }
                    if split_crlf {
                        assert(!distinct_neighbours(views[i - 1], views[i as int]));
                        return false;
                    }
                }
            }
            i = i + 1;
        }
        true
    }

    /// Checks if the lines and positions are correct.
    pub fn matches_lines_and_positions(tokens: &[Lexeme<'a>]) -> (r: bool)
        ensures
            r == lines_and_positions_match(tokens@.map_values(|t: Lexeme<'a>| t@)),
    {
        let ghost views = tokens@.map_values(|t: Lexeme<'a>| t@);
        let mut line: u32 = 0;
        let mut position: u32 = 0;
        let mut i: usize = 0;
        while i < tokens.len()
            invariant
                views == tokens@.map_values(|t: Lexeme<'a>| t@),
                i <= tokens@.len(),
                (line as int, position as int) == counters_from(0, 0, views, i as int),
                forall|j: int|
                    0 <= j < i ==> {
                        &&& (#[trigger] views[j]).line == counters_from(0, 0, views, j).0
                        &&& views[j].position == counters_from(0, 0, views, j).1
                        &&& fits_u32(counters_from(0, 0, views, j + 1))
                    },
            decreases tokens@.len() - i,
        {
            let token = &tokens[i];
            proof {
                lemma_counters_step(0, 0, views, i as int);
                assert(views[i as int] == tokens@[i as int]@);
            }
            if line != token.line() || position != token.position() {
                return false;
            }
            if token.kind() == Kind::LineEnding {
                if let Some(l) = line.checked_add(1) {
                    line = l;
                } else {
                    return false;
                }
                position = 0;
            } else {
                let n = token.value().as_bytes().len();
                if n > u32::MAX as usize {
                    return false;
                }
                if let Some(p) = position.checked_add(n as u32) {
                    position = p;
                } else {
                    return false;
                }
            }
            i = i + 1;
        }
        true
    }

    /// Gets the source code.
    pub fn source(&self) -> (r: &'a str)
        ensures
            r.spec_bytes() == self@.source,
    {
        self.source
    }

    /// Gets the tokens.
    pub fn tokens(&self) -> (r: &[Lexeme<'a>])
        ensures
            r@.map_values(|t: Lexeme<'a>| t@) == self@.tokens,
    {
        self.tokens.as_slice()
    }
}

} // verus!
