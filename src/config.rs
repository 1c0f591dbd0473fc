//! Parse configuration: the line-comment delimiter and the width of a tab stop.

use vstd::prelude::*;
use vstd::string::StringSliceAdditionalSpecFns;

use vstd::utf8::encode_utf8;

use crate::text::{is_cr_or_lf, CR, LF};

verus! {

broadcast use vstd::slice::group_slice_axioms;

/// A line-comment delimiter is non-empty and holds no `CR` or `LF`.
pub open spec fn valid_delimiter(d: Seq<u8>) -> bool {
    &&& d.len() > 0
    &&& forall|i: int| 0 <= i < d.len() ==> !is_cr_or_lf(#[trigger] d[i])
}

/// The bytes of an optional owned string.
pub open spec fn delimiter_bytes(d: Option<String>) -> Option<Seq<u8>> {
    match d {
        Some(s) => Some(encode_utf8(s@)),
        None => None,
    }
}

/// Checks if `s` is a valid line-comment delimiter.
fn check_delimiter(s: &str) -> (r: bool)
    ensures
        r == valid_delimiter(s.spec_bytes()),
{
    let b = s.as_bytes();
    if b.len() == 0 {
        return false;
    }
    let mut i: usize = 0;
    while i < b.len()
        invariant
            b@ == s.spec_bytes(),
            i <= b@.len(),
            forall|j: int| 0 <= j < i ==> !is_cr_or_lf(#[trigger] b@[j]),
        decreases b@.len() - i,
    {
        if b[i] == CR || b[i] == LF {
            return false;
        }
        i = i + 1;
    }
    true
}

/// A parse config.
#[derive(Debug)]
pub struct Config {
    line_comment_delimiter: Option<String>,
    spaces_per_tab: usize,
}

impl Config {
    #[verifier::type_invariant]
    spec fn inv(&self) -> bool {
        &&& self.spaces_per_tab >= 1
        &&& match self.line_comment_delimiter {
            Some(d) => valid_delimiter(encode_utf8(d@)),
            None => true,
        }
    }

    /// The bytes of the delimiter, if there is one.
    pub closed spec fn delimiter(&self) -> Option<Seq<u8>> {
        delimiter_bytes(self.line_comment_delimiter)
    }

    /// The number of spaces that make one indent level.
    pub closed spec fn tab_width(&self) -> nat {
        self.spaces_per_tab as nat
    }

    /// Checks if the `line_comment_delimiter` is valid.
    pub fn is_valid_line_comment_delimiter(line_comment_delimiter: &str) -> (r: bool)
        ensures
            r == valid_delimiter(line_comment_delimiter.spec_bytes()),
    {
        check_delimiter(line_comment_delimiter)
    }

    /// Gets the optional line-comment delimiter.
    pub fn line_comment_delimiter(&self) -> (r: Option<&str>)
        ensures
            r is None <==> self.delimiter() is None,
            r matches Some(d) ==> self.delimiter() == Some(d.spec_bytes()) && valid_delimiter(
                d.spec_bytes(),
            ),
    {
        proof {
            use_type_invariant(self);
        }
        match &self.line_comment_delimiter {
            Some(s) => Some(s.as_str()),
            None => None,
        }
    }

    /// Sets the `line_comment_delimiter`, which must be valid.
    pub fn set_line_comment_delimiter(&mut self, line_comment_delimiter: &str)
        requires
            valid_delimiter(line_comment_delimiter.spec_bytes()),
        ensures
            final(self).delimiter() == Some(line_comment_delimiter.spec_bytes()),
            final(self).tab_width() == old(self).tab_width(),
    {
        proof {
            use_type_invariant(&*self);
        }
        let d = line_comment_delimiter.to_owned();
        proof {
            assert(encode_utf8(d@) == line_comment_delimiter.spec_bytes());
        }
        self.line_comment_delimiter = Some(d);
    }

    /// Sets the `line_comment_delimiter`, which must be valid.
    pub fn with_line_comment_delimiter(self, line_comment_delimiter: &str) -> (r: Self)
        requires
            valid_delimiter(line_comment_delimiter.spec_bytes()),
        ensures
            r.delimiter() == Some(line_comment_delimiter.spec_bytes()),
            r.tab_width() == self.tab_width(),
    {
        let mut c = self;
        c.set_line_comment_delimiter(line_comment_delimiter);
        c
    }

    /// Gets the spaces per tab.
    pub fn spaces_per_tab(&self) -> (r: usize)
        ensures
            r == self.tab_width(),
            r >= 1,
    {
        proof {
            use_type_invariant(self);
        }
        self.spaces_per_tab
    }

    /// Sets the `spaces_per_tab`, which cannot be `0`.
    pub fn set_spaces_per_tab(&mut self, spaces_per_tab: usize)
        requires
            spaces_per_tab >= 1,
        ensures
            final(self).tab_width() == spaces_per_tab,
            final(self).delimiter() == old(self).delimiter(),
    {
        proof {
            use_type_invariant(&*self);
        }
        self.spaces_per_tab = spaces_per_tab;
    }

    /// Sets the `spaces_per_tab`, which cannot be `0`.
    pub fn with_spaces_per_tab(self, spaces_per_tab: usize) -> (r: Self)
        requires
            spaces_per_tab >= 1,
        ensures
            r.tab_width() == spaces_per_tab,
            r.delimiter() == self.delimiter(),
    {
        let mut c = self;
        c.set_spaces_per_tab(spaces_per_tab);
        c
    }
}

fn clone_delimiter(d: &Option<String>) -> (r: Option<String>)
    ensures
        r == *d,
{
    match d {
        Some(s) => Some(s.clone()),
        None => None,
    }
}

impl Clone for Config {
    fn clone(&self) -> (r: Self)
        ensures
            r.delimiter() == self.delimiter(),
            r.tab_width() == self.tab_width(),
    {
        proof {
            use_type_invariant(self);
        }
        Config {
            line_comment_delimiter: clone_delimiter(&self.line_comment_delimiter),
            spaces_per_tab: self.spaces_per_tab,
        }
    }
}

impl Default for Config {
    fn default() -> (r: Self)
        ensures
            r.delimiter() is None,
            r.tab_width() == 4,
    {
        Self { line_comment_delimiter: None, spaces_per_tab: 4 }
    }
}

/// A comment parsing config.
#[derive(Debug)]
pub struct CommentConfig {
    line_comment_delimiter: Option<String>,
}

impl CommentConfig {
    #[verifier::type_invariant]
    spec fn inv(&self) -> bool {
        match self.line_comment_delimiter {
            Some(d) => valid_delimiter(encode_utf8(d@)),
            None => true,
        }
    }

    /// The bytes of the delimiter, if there is one.
    pub closed spec fn delimiter(&self) -> Option<Seq<u8>> {
        delimiter_bytes(self.line_comment_delimiter)
    }

    /// Checks if the line-comment delimiter is valid.
    pub fn is_valid_line_comment_delimiter(line_comment_delimiter: &str) -> (r: bool)
        ensures
            r == valid_delimiter(line_comment_delimiter.spec_bytes()),
    {
        check_delimiter(line_comment_delimiter)
    }

    /// Gets the optional line-comment delimiter.
    pub fn line_comment_delimiter(&self) -> (r: Option<&str>)
        ensures
            r is None <==> self.delimiter() is None,
            r matches Some(d) ==> self.delimiter() == Some(d.spec_bytes()) && valid_delimiter(
                d.spec_bytes(),
            ),
    {
        proof {
            use_type_invariant(self);
        }
        match &self.line_comment_delimiter {
            Some(s) => Some(s.as_str()),
            None => None,
        }
    }

    /// Sets the line-comment delimiter, which must be valid.
    pub fn set_line_comment_delimiter(&mut self, line_comment_delimiter: &str)
        requires
            valid_delimiter(line_comment_delimiter.spec_bytes()),
        ensures
            final(self).delimiter() == Some(line_comment_delimiter.spec_bytes()),
    {
        proof {
            use_type_invariant(&*self);
        }
        let d = line_comment_delimiter.to_owned();
        proof {
            assert(encode_utf8(d@) == line_comment_delimiter.spec_bytes());
        }
        self.line_comment_delimiter = Some(d);
    }

    /// Sets the line-comment delimiter, which must be valid.
    pub fn with_line_comment_delimiter(self, line_comment_delimiter: &str) -> (r: Self)
        requires
            valid_delimiter(line_comment_delimiter.spec_bytes()),
        ensures
            r.delimiter() == Some(line_comment_delimiter.spec_bytes()),
    {
        let mut c = self;
        c.set_line_comment_delimiter(line_comment_delimiter);
        c
    }
}

impl Clone for CommentConfig {
    fn clone(&self) -> (r: Self)
        ensures
            r.delimiter() == self.delimiter(),
    {
        proof {
            use_type_invariant(self);
        }
        CommentConfig { line_comment_delimiter: clone_delimiter(&self.line_comment_delimiter) }
    }
}

impl Default for CommentConfig {
    fn default() -> (r: Self)
        ensures
            r.delimiter() is None,
    {
        Self { line_comment_delimiter: None }
    }
}

} // verus!
