//! Header names and values: names are held in ASCII lowercase, values are
//! trimmed of surrounding whitespace.

use vstd::prelude::*;

use crate::prop::{trim_back, trim_front};
use crate::text::string_from_chars;

verus! {

/// ASCII lowercasing of one character: an ASCII uppercase letter gains 32,
/// every other character stays.
pub open spec fn to_lower_char(c: char) -> char {
    if 'A' <= c && c <= 'Z' {
        ((c as u8) + 32) as char
    } else {
        c
    }
}

/// ASCII lowercasing of a character sequence.
pub open spec fn lowered(s: Seq<char>) -> Seq<char> {
    s.map_values(|c: char| to_lower_char(c))
}

/// Relies on `char::to_ascii_lowercase`: an ASCII uppercase letter maps to
/// its lowercase counterpart, every other character comes back unchanged.
#[verifier::external_body]
fn lower_char(c: char) -> (r: char)
    ensures
        r == to_lower_char(c),
{
    c.to_ascii_lowercase()
}

/// Lowercases a string, ASCII-wise.
pub(crate) fn lower_str(s: &str) -> (r: String)
    ensures
        r@ == lowered(s@),
{
    let n = s.unicode_len();
    let mut out: Vec<char> = Vec::new();
    let mut i: usize = 0;
    while i < n
        invariant
            n == s@.len(),
            i <= n,
            out@.len() == i,
            forall|q: int| 0 <= q < i ==> out@[q] == to_lower_char(#[trigger] s@[q]),
        decreases n - i,
    {
        out.push(lower_char(s.get_char(i)));
        i = i + 1;
    }
    proof {
        assert(out@ =~= lowered(s@));
    }
    string_from_chars(&out)
}

/// Failure to build a header.
#[derive(Debug, Clone)]
pub enum HeaderError {
    /// Input that can make neither key nor value; carries it.
    Input(String),
    /// A key that cannot be used; carries it.
    Key(String),
    /// A value that cannot be used; carries it.
    Value(String),
}

/// A header name, held in ASCII lowercase.
#[derive(Debug, Clone, PartialEq, Eq, Hash)]
pub struct HeaderKey(String);

impl View for HeaderKey {
    type V = Seq<char>;

    closed spec fn view(&self) -> Seq<char> {
        self.0@
    }
}

impl HeaderKey {
    /// Builds a key: the name, ASCII-lowercased.
    pub fn new(s: &str) -> (r: HeaderKey)
        ensures
            r@ == lowered(s@),
    {
        HeaderKey(lower_str(s))
    }

    /// The key's text.
    pub fn as_str(&self) -> (r: &str)
        ensures
            r@ == self@,
    {
        self.0.as_str()
    }
}

/// A header value, trimmed of surrounding whitespace.
#[derive(Debug, Clone)]
pub struct HeaderValue(String);

impl View for HeaderValue {
    type V = Seq<char>;

    closed spec fn view(&self) -> Seq<char> {
        self.0@
    }
}

impl HeaderValue {
    /// Builds a value: the text, trimmed.
    pub fn new(s: &str) -> (r: HeaderValue)
        ensures
            r@ == trim_back(trim_front(s@)),
    {
        HeaderValue(crate::prop::trim_str(s))
    }

    /// The value's text.
    pub fn as_str(&self) -> (r: &str)
        ensures
            r@ == self@,
    {
        self.0.as_str()
    }
}

/// A header: its lowercased name and its trimmed value.
pub type Header = (HeaderKey, HeaderValue);

/// Builds a header from a name and a value: the name is ASCII-lowercased and
/// the value trimmed of surrounding whitespace.
pub fn header(key: &str, value: &str) -> (r: Result<Header, HeaderError>)
    ensures
        r matches Ok(h) && h.0@ == lowered(key@) && h.1@ == trim_back(trim_front(value@)),
{
    Ok((HeaderKey::new(key), HeaderValue::new(value)))
}

} // verus!
