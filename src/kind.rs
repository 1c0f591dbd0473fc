//! The classification of lexical tokens.

use vstd::prelude::*;
use vstd::string::StringSliceAdditionalSpecFns;

use crate::text::{CR, LF, SPACE, TAB};

verus! {

/// A kind of lexical token.
#[derive(Copy, Clone, Ord, PartialOrd, Eq, PartialEq, Structural, Hash, Debug)]
pub enum Kind {
    /// A sequence of non US-ASCII code points. (bytes above 127)
    NonAscii,
    /// A single US-ASCII line-ending. (CR, LF, or CRLF)
    LineEnding,
    /// A sequence of US-ASCII whitespace chars. (spaces & tabs)
    Whitespace,
    /// A sequence of US-ASCII control chars. (excluding CR, LF, & TAB)
    Controls,
    /// A sequence of US-ASCII letters, numbers, & underscores.
    Symbol,
    /// A single special US-ASCII char. (punctuation excluding underscores)
    Special(u8),
}

pub open spec fn is_non_ascii_byte(b: u8) -> bool {
    b > 127
}

pub open spec fn is_whitespace_byte(b: u8) -> bool {
    b == SPACE || b == TAB
}

pub open spec fn is_control_byte(b: u8) -> bool {
    b == 127 || (b < 32 && b != CR && b != LF && b != TAB)
}

pub open spec fn is_alphanumeric_byte(b: u8) -> bool {
    (48 <= b <= 57) || (65 <= b <= 90) || (97 <= b <= 122)
}

pub open spec fn is_symbol_byte(b: u8) -> bool {
    is_alphanumeric_byte(b) || b == 95
}

pub open spec fn is_punctuation_byte(b: u8) -> bool {
    (33 <= b <= 47) || (58 <= b <= 64) || (91 <= b <= 96) || (123 <= b <= 126)
}

/// Whether `b` may stand in a run of kind `k`: the kinds that extend over several bytes.
pub open spec fn run_byte(k: Kind, b: u8) -> bool {
    match k {
        Kind::NonAscii => is_non_ascii_byte(b),
        Kind::Whitespace => is_whitespace_byte(b),
        Kind::Controls => is_control_byte(b),
        Kind::Symbol => is_symbol_byte(b),
        _ => false,
    }
}

/// Whether every byte of `s` may stand in a run of kind `k`.
pub open spec fn all_run_bytes(k: Kind, s: Seq<u8>) -> bool {
    forall|i: int| 0 <= i < s.len() ==> #[trigger] run_byte(k, s[i])
}

/// Whether `value` is a valid value for a token of kind `k`.
pub open spec fn kind_accepts(k: Kind, s: Seq<u8>) -> bool {
    match k {
        Kind::LineEnding => s == seq![CR] || s == seq![LF] || s == seq![CR, LF],
        Kind::Special(c) => s.len() == 1 && s[0] == c && is_punctuation_byte(c) && c != 95,
        _ => all_run_bytes(k, s),
    }
}

/// The name of a kind.
pub open spec fn kind_name(k: Kind) -> Seq<char> {
    match k {
        Kind::NonAscii => "non-ascii"@,
        Kind::LineEnding => "line-ending"@,
        Kind::Whitespace => "whitespace"@,
        Kind::Controls => "controls"@,
        Kind::Symbol => "symbol"@,
        Kind::Special(_) => "special"@,
    }
}

/// The char that displays a byte: `r`, `n`, `s`, `t` for CR, LF, space and tab, the byte itself
/// for letters, digits and punctuation, `?` otherwise.
pub open spec fn display_char(b: u8) -> char {
    if b == CR {
        'r'
    } else if b == LF {
        'n'
    } else if b == SPACE {
        's'
    } else if b == TAB {
        't'
    } else if is_alphanumeric_byte(b) || is_punctuation_byte(b) {
        b as char
    } else {
        '?'
    }
}

pub fn is_alphanumeric(b: u8) -> (r: bool)
    ensures
        r == is_alphanumeric_byte(b),
{
    (48 <= b && b <= 57) || (65 <= b && b <= 90) || (97 <= b && b <= 122)
}

pub fn is_punctuation(b: u8) -> (r: bool)
    ensures
        r == is_punctuation_byte(b),
{
    (33 <= b && b <= 47) || (58 <= b && b <= 64) || (91 <= b && b <= 96) || (123 <= b && b <= 126)
}

pub fn is_symbol(b: u8) -> (r: bool)
    ensures
        r == is_symbol_byte(b),
{
    is_alphanumeric(b) || b == 95
}

pub fn is_control(b: u8) -> (r: bool)
    ensures
        r == is_control_byte(b),
{
    b == 127 || (b < 32 && b != CR && b != LF && b != TAB)
}

impl Kind {
    /// Checks if the value is valid for the kind of token.
    pub fn is_valid(&self, value: &str) -> (r: bool)
        ensures
            r == kind_accepts(*self, value.spec_bytes()),
    {
        let b = value.as_bytes();
        let n = b.len();
        match self {
            Kind::LineEnding => {
                let r = (n == 1 && (b[0] == CR || b[0] == LF)) || (n == 2 && b[0] == CR && b[1] == LF);
                proof {
                    assert(seq![CR].len() == 1 && seq![CR][0] == CR);
                    assert(seq![LF].len() == 1 && seq![LF][0] == LF);
                    assert(seq![CR, LF].len() == 2 && seq![CR, LF][0] == CR && seq![CR, LF][1] == LF);
                    if n == 1 {
                        if b@[0] == CR {
                            assert(b@ =~= seq![CR]);
                        } else if b@[0] == LF {
                            assert(b@ =~= seq![LF]);
                        }
                    } else if n == 2 && b@[0] == CR && b@[1] == LF {
                        assert(b@ =~= seq![CR, LF]);
                    }
                }
                r
            },
            Kind::Special(c) => n == 1 && *c == b[0] && is_punctuation(*c) && *c != 95,
            _ => {
                let mut i: usize = 0;
                while i < n
                    invariant
                        n == b@.len(),
                        b@ == value.spec_bytes(),
                        i <= n,
                        *self != Kind::LineEnding,
                        !(*self is Special),
                        forall|j: int| 0 <= j < i ==> run_byte(*self, #[trigger] b@[j]),
                    decreases n - i,
                {
                    let c = b[i];
                    let ok = match self {
                        Kind::NonAscii => c > 127,
                        Kind::Controls => is_control(c),
                        Kind::Whitespace => c == SPACE || c == TAB,
                        _ => is_symbol(c),
                    };
                    if !ok {
                        assert(!run_byte(*self, b@[i as int]));
                        return false;
                    }
                    i = i + 1;
                }
                true
            },
        }
    }

    /// Gets the displayable char for the byte.
    pub fn display_byte(b: u8) -> (r: char)
        ensures
            r == display_char(b),
    {
        if b == CR {
            'r'
        } else if b == LF {
            'n'
        } else if b == SPACE {
            's'
        } else if b == TAB {
            't'
        } else if is_alphanumeric(b) || is_punctuation(b) {
            b as char
        } else {
            '?'
        }
    }

    /// Converts the kind to a static string.
    pub fn to_str(&self) -> (r: &'static str)
        ensures
            r@ == kind_name(*self),
    {
        match self {
            Kind::NonAscii => "non-ascii",
            Kind::LineEnding => "line-ending",
            Kind::Whitespace => "whitespace",
            Kind::Controls => "controls",
            Kind::Symbol => "symbol",
            Kind::Special(_) => "special",
        }
    }

    /// The name of the kind as an owned string.
    pub fn to_string(&self) -> (r: String)
        ensures
            r@ == kind_name(*self),
    {
        self.to_str().to_owned()
    }
}

} // verus!
