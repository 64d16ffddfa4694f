//! Compiled regular expressions, each kept with the pattern it was compiled
//! from, so that what a search returns can be stated over that pattern.

use vstd::prelude::*;

verus! {

#[verifier::external_type_specification]
#[verifier::external_body]
pub struct ExBytesRegex(regex::bytes::Regex);

#[verifier::external_type_specification]
#[verifier::external_body]
pub struct ExTextRegex(regex::Regex);

/// Whether the byte-level engine compiles `pattern`: it refuses an invalid
/// pattern and one whose compiled form exceeds its size limit.
pub uninterp spec fn bytes_compiles(pattern: Seq<char>) -> bool;

/// Whether the text engine compiles `pattern`: it refuses an invalid
/// pattern, one that could match invalid UTF-8, and one whose compiled form
/// exceeds its size limit.
pub uninterp spec fn text_compiles(pattern: Seq<char>) -> bool;

/// `hay` with every non-overlapping, leftmost-first match of `pattern`
/// replaced by `rep`.
pub uninterp spec fn bytes_replaced(pattern: Seq<char>, hay: Seq<u8>, rep: Seq<u8>) -> Seq<u8>;

/// The text of capture group 1 of the leftmost-first match of `pattern` in
/// `hay`, if there is a match and the group took part in it.
pub uninterp spec fn first_group(pattern: Seq<char>, hay: Seq<char>) -> Option<Seq<char>>;

/// A byte-level regular expression, with the pattern it was compiled from.
pub struct BytePattern {
    re: regex::bytes::Regex,
    source: String,
}

impl BytePattern {
    pub closed spec fn source(&self) -> Seq<char> {
        self.source@
    }

    /// Relies on `regex::bytes::Regex::new`: compiles `source`, or fails when
    /// it is not a valid pattern or is too large.
    #[verifier::external_body]
    pub(crate) fn compile(source: &str) -> (r: Option<BytePattern>)
        ensures
            r is Some <==> bytes_compiles(source@),
            r matches Some(p) ==> p.source() == source@,
    {
        match regex::bytes::Regex::new(source) {
            Ok(re) => Some(BytePattern { re, source: source.to_string() }),
            Err(_) => None,
        }
    }

    /// Relies on `regex::bytes::Regex::replace_all`: every match of the
    /// pattern replaced by `rep`.
    #[verifier::external_body]
    pub(crate) fn replace_all(&self, hay: &[u8], rep: &[u8]) -> (r: Vec<u8>)
        ensures
            r@ == bytes_replaced(self.source(), hay@, rep@),
    {
        self.re.replace_all(hay, rep).into_owned()
    }
}

/// A text regular expression, with the pattern it was compiled from.
pub struct TextPattern {
    re: regex::Regex,
    source: String,
}

impl TextPattern {
    pub closed spec fn source(&self) -> Seq<char> {
        self.source@
    }

    /// Relies on `regex::Regex::new`: compiles `source`, or fails when it is
    /// not a valid pattern or is too large.
    #[verifier::external_body]
    pub(crate) fn compile(source: &str) -> (r: Option<TextPattern>)
        ensures
            r is Some <==> text_compiles(source@),
            r matches Some(p) ==> p.source() == source@,
    {
        match regex::Regex::new(source) {
            Ok(re) => Some(TextPattern { re, source: source.to_string() }),
            Err(_) => None,
        }
    }

    /// Relies on `regex::Regex::captures`, read through `Captures::get(1)`:
    /// the text of group 1 of the leftmost-first match.
    #[verifier::external_body]
    pub(crate) fn group_one(&self, hay: &str) -> (r: Option<String>)
        ensures
            match r {
                Some(s) => first_group(self.source(), hay@) == Some(s@),
                None => first_group(self.source(), hay@) is None,
            },
    {
        match self.re.captures(hay) {
            Some(c) => match c.get(1) {
                Some(m) => Some(m.as_str().to_string()),
                None => None,
            },
            None => None,
        }
    }
}

} // verus!
