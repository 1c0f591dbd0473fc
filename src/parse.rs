//! Validation and parsing of decimal integer literals with optional underscore separators.

use vstd::prelude::*;
use vstd::string::StrSliceExecFns;

verus! {

/// Responsible for parsing integers.
#[derive(Copy, Clone, Debug)]
pub struct IntParser {
    allow_underscores: bool,
    allow_starting_underscore: bool,
    allow_ending_underscore: bool,
    allow_double_underscore: bool,
}

/// An error parsing an integer.
#[derive(Copy, Clone, Ord, PartialOrd, Eq, PartialEq, Structural, Hash, Debug)]
pub enum IntParseError {
    Empty,
    InvalidChar(char),
    ContainsUnderscore,
    StartsWithUnderscore,
    EndsWithUnderscore,
    ContainsDoubleUnderscore,
    ContainsOnlyUnderscores,
    ValueOutOfRange,
}

pub open spec fn is_digit_char(c: char) -> bool {
    '0' <= c <= '9'
}

pub open spec fn is_digit_or_underscore(c: char) -> bool {
    is_digit_char(c) || c == '_'
}

/// The index of the first char of `s` from `i` on that is neither a digit nor `_`, or the length
/// of `s` when there is none.
pub open spec fn first_invalid(s: Seq<char>, i: int) -> int
    decreases s.len() - i,
{
    if i < 0 || i >= s.len() || !is_digit_or_underscore(s[i]) {
        i
    } else {
        first_invalid(s, i + 1)
    }
}

/// The index of the first char of `s` from `i` on that is not `_`, or the length of `s`.
pub open spec fn skip_underscores(s: Seq<char>, i: int) -> int
    decreases s.len() - i,
{
    if i < 0 || i >= s.len() || s[i] != '_' {
        i
    } else {
        skip_underscores(s, i + 1)
    }
}

/// One past the last char of `s` before index `k` that is not `_`, or 0.
pub open spec fn trim_underscores_end(s: Seq<char>, k: int) -> int
    decreases k,
{
    if k <= 0 || k > s.len() || s[k - 1] != '_' {
        k
    } else {
        trim_underscores_end(s, k - 1)
    }
}

pub open spec fn has_double_underscore(s: Seq<char>) -> bool {
    exists|i: int| 0 <= i < s.len() - 1 && #[trigger] s[i] == '_' && s[i + 1] == '_'
}

pub open spec fn has_underscore(s: Seq<char>) -> bool {
    exists|i: int| 0 <= i < s.len() && #[trigger] s[i] == '_'
}

/// The value of a string of decimal digits.
pub open spec fn decimal_value(s: Seq<char>) -> nat
    decreases s.len(),
{
    if s.len() == 0 {
        0
    } else {
        decimal_value(s.drop_last()) * 10 + (s.last() as nat - '0' as nat) as nat
    }
}

pub open spec fn all_digits(s: Seq<char>) -> bool {
    s.len() > 0 && forall|i: int| 0 <= i < s.len() ==> is_digit_char(#[trigger] s[i])
}

pub open spec fn message_of(e: IntParseError) -> Seq<char> {
    match e {
        IntParseError::Empty => "integers cannot be empty"@,
        IntParseError::InvalidChar(_) => "the integer contains an invalid char"@,
        IntParseError::ContainsUnderscore => "integers cannot contain underscores"@,
        IntParseError::StartsWithUnderscore => "integers cannot start with underscores"@,
        IntParseError::EndsWithUnderscore => "integers cannot end with underscores"@,
        IntParseError::ContainsDoubleUnderscore => "integers cannot contain double underscores"@,
        IntParseError::ContainsOnlyUnderscores => "integers cannot contain only underscores"@,
        IntParseError::ValueOutOfRange => "the integer value is out of range"@,
    }
}

/// Relies on `u8::from_str`: a non-empty string of ASCII digits reads as its decimal value; it
/// fails on any other char, and when the value does not fit.
#[verifier::external_body]
fn read_u8(s: &str) -> (r: Option<u8>)
    requires
        s@.len() > 0,
        forall|i: int| 0 <= i < s@.len() ==> is_digit_or_underscore(#[trigger] s@[i]),
    ensures
        r is Some == (all_digits(s@) && decimal_value(s@) <= u8::MAX),
        r is Some ==> r->Some_0 == decimal_value(s@),
{
    <u8 as std::str::FromStr>::from_str(s).ok()
}

/// Relies on `u16::from_str`: a non-empty string of ASCII digits reads as its decimal value; it
/// fails on any other char, and when the value does not fit.
#[verifier::external_body]
fn read_u16(s: &str) -> (r: Option<u16>)
    requires
        s@.len() > 0,
        forall|i: int| 0 <= i < s@.len() ==> is_digit_or_underscore(#[trigger] s@[i]),
    ensures
        r is Some == (all_digits(s@) && decimal_value(s@) <= u16::MAX),
        r is Some ==> r->Some_0 == decimal_value(s@),
{
    <u16 as std::str::FromStr>::from_str(s).ok()
}

/// Relies on `u32::from_str`: a non-empty string of ASCII digits reads as its decimal value; it
/// fails on any other char, and when the value does not fit.
#[verifier::external_body]
fn read_u32(s: &str) -> (r: Option<u32>)
    requires
        s@.len() > 0,
        forall|i: int| 0 <= i < s@.len() ==> is_digit_or_underscore(#[trigger] s@[i]),
    ensures
        r is Some == (all_digits(s@) && decimal_value(s@) <= u32::MAX),
        r is Some ==> r->Some_0 == decimal_value(s@),
{
    <u32 as std::str::FromStr>::from_str(s).ok()
}

/// Relies on `u64::from_str`: a non-empty string of ASCII digits reads as its decimal value; it
/// fails on any other char, and when the value does not fit.
#[verifier::external_body]
fn read_u64(s: &str) -> (r: Option<u64>)
    requires
        s@.len() > 0,
        forall|i: int| 0 <= i < s@.len() ==> is_digit_or_underscore(#[trigger] s@[i]),
    ensures
        r is Some == (all_digits(s@) && decimal_value(s@) <= u64::MAX),
        r is Some ==> r->Some_0 == decimal_value(s@),
{
    <u64 as std::str::FromStr>::from_str(s).ok()
}

/// Relies on `u128::from_str`: a non-empty string of ASCII digits reads as its decimal value; it
/// fails on any other char, and when the value does not fit.
#[verifier::external_body]
fn read_u128(s: &str) -> (r: Option<u128>)
    requires
        s@.len() > 0,
        forall|i: int| 0 <= i < s@.len() ==> is_digit_or_underscore(#[trigger] s@[i]),
    ensures
        r is Some == (all_digits(s@) && decimal_value(s@) <= u128::MAX),
        r is Some ==> r->Some_0 == decimal_value(s@),
{
    <u128 as std::str::FromStr>::from_str(s).ok()
}

fn digit_or_underscore(c: char) -> (r: bool)
    ensures
        r == is_digit_or_underscore(c),
{
    (c >= '0' && c <= '9') || c == '_'
}

impl IntParseError {
    /// Gets the error message.
    pub fn message(&self) -> (r: &'static str)
        ensures
            r@ == message_of(*self),
    {
        match self {
            IntParseError::Empty => "integers cannot be empty",
            IntParseError::InvalidChar(_) => "the integer contains an invalid char",
            IntParseError::ContainsUnderscore => "integers cannot contain underscores",
            IntParseError::StartsWithUnderscore => "integers cannot start with underscores",
            IntParseError::EndsWithUnderscore => "integers cannot end with underscores",
            IntParseError::ContainsDoubleUnderscore => "integers cannot contain double underscores",
            IntParseError::ContainsOnlyUnderscores => "integers cannot contain only underscores",
            IntParseError::ValueOutOfRange => "the integer value is out of range",
        }
    }
}

impl Default for IntParser {
    fn default() -> (r: Self)
        ensures
            r.underscores(),
            !r.starting_underscore(),
            !r.ending_underscore(),
            !r.double_underscore(),
    {
        Self {
            allow_underscores: true,
            allow_starting_underscore: false,
            allow_ending_underscore: false,
            allow_double_underscore: false,
        }
    }
}

impl IntParser {
    pub closed spec fn underscores(&self) -> bool {
        self.allow_underscores
    }

    pub closed spec fn starting_underscore(&self) -> bool {
        self.allow_starting_underscore
    }

    pub closed spec fn ending_underscore(&self) -> bool {
        self.allow_ending_underscore
    }

    pub closed spec fn double_underscore(&self) -> bool {
        self.allow_double_underscore
    }

    /// What `validate` returns: the first rule that `s` breaks, in order, or the digits of `s`
    /// without its leading and trailing underscores.
    pub open spec fn validated(&self, s: Seq<char>) -> Result<Seq<char>, IntParseError> {
        let bad = first_invalid(s, 0);
        let a = skip_underscores(s, 0);
        let b = trim_underscores_end(s, s.len() as int);
        if s.len() == 0 {
            Err(IntParseError::Empty)
        } else if bad < s.len() {
            Err(IntParseError::InvalidChar(s[bad]))
        } else if !self.underscores() && has_underscore(s) {
            Err(IntParseError::ContainsUnderscore)
        } else if !self.starting_underscore() && s[0] == '_' {
            Err(IntParseError::StartsWithUnderscore)
        } else if !self.ending_underscore() && s.last() == '_' {
            Err(IntParseError::EndsWithUnderscore)
        } else if !self.double_underscore() && has_double_underscore(s) {
            Err(IntParseError::ContainsDoubleUnderscore)
        } else if a >= b {
            Err(IntParseError::ContainsOnlyUnderscores)
        } else {
            Ok(s.subrange(a, b))
        }
    }
}


impl IntParser {
    /// Validates the string and strips the starting & ending underscores.
    #[verifier::loop_isolation(false)]
    pub fn validate<'a>(&self, s: &'a str) -> (r: Result<&'a str, IntParseError>)
        ensures
            self.validated(s@) is Err ==> r == Err::<&'a str, IntParseError>(
                self.validated(s@)->Err_0,
            ),
            self.validated(s@) is Ok ==> r is Ok && r->Ok_0@ == self.validated(s@)->Ok_0,
            r is Ok ==> r->Ok_0@.len() > 0 && forall|i: int|
                0 <= i < r->Ok_0@.len() ==> is_digit_or_underscore(#[trigger] r->Ok_0@[i]),
    {
        let ghost v = s@;
        let n = s.unicode_len();
        if n == 0 {
            return Err(IntParseError::Empty);
        }
        let mut i: usize = 0;
        while i < n && digit_or_underscore(s.get_char(i))
            invariant
                n == v.len(),
                v == s@,
                i <= n,
                first_invalid(v, 0) == first_invalid(v, i as int),
                forall|j: int| 0 <= j < i ==> is_digit_or_underscore(#[trigger] v[j]),
            decreases n - i,
        {
            i += 1;
        }
        if i < n {
            return Err(IntParseError::InvalidChar(s.get_char(i)));
        }
        if !self.allow_underscores {
            let mut j: usize = 0;
            while j < n
                invariant
                    n == v.len(),
                    v == s@,
                    j <= n,
                    forall|k: int| 0 <= k < j ==> #[trigger] v[k] != '_',
                decreases n - j,
            {
                if s.get_char(j) == '_' {
                    assert(v[j as int] == '_');
                    return Err(IntParseError::ContainsUnderscore);
                }
                j += 1;
            }
        }
        if !self.allow_starting_underscore && s.get_char(0) == '_' {
            return Err(IntParseError::StartsWithUnderscore);
        }
        if !self.allow_ending_underscore && s.get_char(n - 1) == '_' {
            return Err(IntParseError::EndsWithUnderscore);
        }
        if !self.allow_double_underscore {
            let mut j: usize = 0;
            while j < n - 1
                invariant
                    n == v.len(),
                    v == s@,
                    forall|k: int| 0 <= k < j && k < v.len() - 1 ==> !(#[trigger] v[k] == '_' && v[k + 1] == '_'),
                decreases n - j,
            {
                if s.get_char(j) == '_' && s.get_char(j + 1) == '_' {
                    assert(v[j as int] == '_' && v[j + 1] == '_');
                    return Err(IntParseError::ContainsDoubleUnderscore);
                }
                j += 1;
            }
        }
        let mut a: usize = 0;
        while a < n && s.get_char(a) == '_'
            invariant
                n == v.len(),
                v == s@,
                a <= n,
                skip_underscores(v, 0) == skip_underscores(v, a as int),
            decreases n - a,
        {
            a += 1;
        }
        let mut b: usize = n;
        while b > 0 && s.get_char(b - 1) == '_'
            invariant
                n == v.len(),
                v == s@,
                b <= n,
                trim_underscores_end(v, n as int) == trim_underscores_end(v, b as int),
            decreases b,
        {
            b -= 1;
        }
        if a >= b {
            return Err(IntParseError::ContainsOnlyUnderscores);
        }
        Ok(s.substring_char(a, b))
    }

    /// Parses a `u8` value.
    pub fn parse_u8(&self, s: &str) -> (r: Result<u8, IntParseError>)
        ensures
            self.validated(s@) is Err ==> r == Err::<u8, IntParseError>(self.validated(s@)->Err_0),
            self.validated(s@) is Ok ==> ({
                let t = self.validated(s@)->Ok_0;
                if all_digits(t) && decimal_value(t) <= u8::MAX {
                    r == Ok::<u8, IntParseError>(decimal_value(t) as u8)
                } else {
                    r == Err::<u8, IntParseError>(IntParseError::ValueOutOfRange)
                }
            }),
    {
        let s: &str = self.validate(s)?;
        match read_u8(s) {
            Some(v) => Ok(v),
            None => Err(IntParseError::ValueOutOfRange),
        }
    }

    /// Parses a `u16` value.
    pub fn parse_u16(&self, s: &str) -> (r: Result<u16, IntParseError>)
        ensures
            self.validated(s@) is Err ==> r == Err::<u16, IntParseError>(self.validated(s@)->Err_0),
            self.validated(s@) is Ok ==> ({
                let t = self.validated(s@)->Ok_0;
                if all_digits(t) && decimal_value(t) <= u16::MAX {
                    r == Ok::<u16, IntParseError>(decimal_value(t) as u16)
                } else {
                    r == Err::<u16, IntParseError>(IntParseError::ValueOutOfRange)
                }
            }),
    {
        let s: &str = self.validate(s)?;
        match read_u16(s) {
            Some(v) => Ok(v),
            None => Err(IntParseError::ValueOutOfRange),
        }
    }

    /// Parses a `u32` value.
    pub fn parse_u32(&self, s: &str) -> (r: Result<u32, IntParseError>)
        ensures
            self.validated(s@) is Err ==> r == Err::<u32, IntParseError>(self.validated(s@)->Err_0),
            self.validated(s@) is Ok ==> ({
                let t = self.validated(s@)->Ok_0;
                if all_digits(t) && decimal_value(t) <= u32::MAX {
                    r == Ok::<u32, IntParseError>(decimal_value(t) as u32)
                } else {
                    r == Err::<u32, IntParseError>(IntParseError::ValueOutOfRange)
                }
            }),
    {
        let s: &str = self.validate(s)?;
        match read_u32(s) {
            Some(v) => Ok(v),
            None => Err(IntParseError::ValueOutOfRange),
        }
    }

    /// Parses a `u64` value.
    pub fn parse_u64(&self, s: &str) -> (r: Result<u64, IntParseError>)
        ensures
            self.validated(s@) is Err ==> r == Err::<u64, IntParseError>(self.validated(s@)->Err_0),
            self.validated(s@) is Ok ==> ({
                let t = self.validated(s@)->Ok_0;
                if all_digits(t) && decimal_value(t) <= u64::MAX {
                    r == Ok::<u64, IntParseError>(decimal_value(t) as u64)
                } else {
                    r == Err::<u64, IntParseError>(IntParseError::ValueOutOfRange)
                }
            }),
    {
        let s: &str = self.validate(s)?;
        match read_u64(s) {
            Some(v) => Ok(v),
            None => Err(IntParseError::ValueOutOfRange),
        }
    }

    /// Parses a `u128` value.
    pub fn parse_u128(&self, s: &str) -> (r: Result<u128, IntParseError>)
        ensures
            self.validated(s@) is Err ==> r == Err::<u128, IntParseError>(self.validated(s@)->Err_0),
            self.validated(s@) is Ok ==> ({
                let t = self.validated(s@)->Ok_0;
                if all_digits(t) && decimal_value(t) <= u128::MAX {
                    r == Ok::<u128, IntParseError>(decimal_value(t) as u128)
                } else {
                    r == Err::<u128, IntParseError>(IntParseError::ValueOutOfRange)
                }
            }),
    {
        let s: &str = self.validate(s)?;
        match read_u128(s) {
            Some(v) => Ok(v),
            None => Err(IntParseError::ValueOutOfRange),
        }
    }
}

} // verus!
