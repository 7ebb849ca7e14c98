//! The request and response model: a parsed request template with its verb,
//! URL text, optional body and headers, and a received response. Default
//! headers are filled in for what the request leaves unsaid.

use vstd::prelude::*;

use crate::headers::{header, lowered, Header, HeaderError, HeaderValue};
use crate::prop::{trim_back, trim_front};
use crate::text::{dec_str, has_prefix, usize_to_string};
use vstd::utf8::encode_utf8;

verus! {

/// An HTTP request method.
#[derive(PartialEq, Eq, Structural, Debug, Clone, Copy)]
pub enum Verb {
    Get,
    Head,
    Post,
    Put,
    Delete,
    Connect,
    Options,
    Trace,
    Patch,
}

/// Whether a request under some verb should carry a body.
#[derive(PartialEq, Eq, Structural, Debug, Clone, Copy)]
pub enum BodyStatus {
    Permitted,
    Discouraged,
    Forbidden,
}

/// The verb's name on the wire.
pub open spec fn verb_name(v: Verb) -> Seq<char> {
    match v {
        Verb::Get => "GET"@,
        Verb::Head => "HEAD"@,
        Verb::Post => "POST"@,
        Verb::Put => "PUT"@,
        Verb::Delete => "DELETE"@,
        Verb::Connect => "CONNECT"@,
        Verb::Options => "OPTIONS"@,
        Verb::Trace => "TRACE"@,
        Verb::Patch => "PATCH"@,
    }
}

impl Verb {
    /// Whether a request under this verb should carry a body.
    pub fn body(&self) -> (r: BodyStatus)
        ensures
            r == (match *self {
                Verb::Post | Verb::Put | Verb::Patch => BodyStatus::Permitted,
                Verb::Trace => BodyStatus::Forbidden,
                _ => BodyStatus::Discouraged,
            }),
    {
        match self {
            Verb::Get => BodyStatus::Discouraged,
            Verb::Head => BodyStatus::Discouraged,
            Verb::Post => BodyStatus::Permitted,
            Verb::Put => BodyStatus::Permitted,
            Verb::Delete => BodyStatus::Discouraged,
            Verb::Connect => BodyStatus::Discouraged,
            Verb::Options => BodyStatus::Discouraged,
            Verb::Trace => BodyStatus::Forbidden,
            Verb::Patch => BodyStatus::Permitted,
        }
    }

    /// The verb's name on the wire.
    pub fn name(&self) -> (r: &'static str)
        ensures
            r@ == verb_name(*self),
    {
        match self {
            Verb::Get => "GET",
            Verb::Head => "HEAD",
            Verb::Post => "POST",
            Verb::Put => "PUT",
            Verb::Delete => "DELETE",
            Verb::Connect => "CONNECT",
            Verb::Options => "OPTIONS",
            Verb::Trace => "TRACE",
            Verb::Patch => "PATCH",
        }
    }
}

/// The first header under a name, scanning front to back.
pub open spec fn header_lookup(hs: Seq<(Seq<char>, Seq<char>)>, k: Seq<char>) -> Option<Seq<char>>
    decreases hs.len(),
{
    if hs.len() == 0 {
        None
    } else if hs[0].0 == k {
        Some(hs[0].1)
    } else {
        header_lookup(hs.drop_first(), k)
    }
}

/// The URL a request is actually sent to: the written URL when it names a
/// scheme, otherwise the written URL under `https`.
pub open spec fn spec_effective_url(u: Seq<char>) -> Seq<char> {
    if (u.len() >= 7 && u.take(7) == "http://"@) || (u.len() >= 8 && u.take(8) == "https://"@) {
        u
    } else {
        "https://"@ + u
    }
}

/// The host that the URL parser extracts from a URL string, if any.
pub uninterp spec fn host_of(url: Seq<char>) -> Option<Seq<char>>;

/// Relies on `url::Url::parse` and `url::Url::host_str`: whether the text
/// parses as a URL and what host it names depend on the text alone.
#[verifier::external_body]
fn url_host(url: &str) -> (r: Option<String>)
    ensures
        r is Some == host_of(url@) is Some,
        r matches Some(h) ==> host_of(url@) == Some(h@),
{
    match url::Url::parse(url) {
        Ok(u) => u.host_str().map(|h| h.to_string()),
        Err(_) => None,
    }
}

/// The mathematical content of an `HttpRequest`.
pub ghost struct HttpRequestModel {
    pub verb: Verb,
    pub url: Seq<char>,
    pub body: Option<Seq<char>>,
    pub headers: Seq<(Seq<char>, Seq<char>)>,
}

/// A request read from a template: verb, URL text, optional body, headers.
#[derive(Debug)]
pub struct HttpRequest {
    verb: Verb,
    url: String,
    body: Option<String>,
    headers: Vec<Header>,
}

impl View for HttpRequest {
    type V = HttpRequestModel;

    closed spec fn view(&self) -> HttpRequestModel {
        HttpRequestModel {
            verb: self.verb,
            url: self.url@,
            body: match self.body {
                Some(b) => Some(b@),
                None => None,
            },
            headers: self.headers@.map_values(|h: Header| (h.0@, h.1@)),
        }
    }
}

/// The length of a text in UTF-8 bytes, as the machine reports it.
pub open spec fn byte_len(s: Seq<char>) -> nat {
    (encode_utf8(s).len() as usize) as nat
}

/// The size of the body that will be sent: the body's bytes under a verb
/// that carries one, nothing otherwise.
pub open spec fn spec_body_size(m: HttpRequestModel) -> nat {
    match m.verb {
        Verb::Post | Verb::Put | Verb::Delete | Verb::Patch => match m.body {
            Some(b) => byte_len(b),
            None => 0,
        },
        _ => 0,
    }
}

/// The headers after the defaults are filled in: `host` when the URL names
/// one, `content-length` when a body will be sent, `user-agent`; each only
/// where the request does not already set it.
pub open spec fn spec_default_headers(m: HttpRequestModel) -> Seq<(Seq<char>, Seq<char>)> {
    let h0 = m.headers;
    let h1 = match host_of(spec_effective_url(m.url)) {
        Some(host) => if header_lookup(h0, "host"@) is None {
            h0.push(("host"@, trim_back(trim_front(host))))
        } else {
            h0
        },
        None => h0,
    };
    let h2 = if spec_body_size(m) != 0 && header_lookup(h0, "content-length"@) is None {
        h1.push(("content-length"@, dec_str(spec_body_size(m))))
    } else {
        h1
    };
    if header_lookup(h0, "user-agent"@) is None {
        h2.push(("user-agent"@, "fire/0.1.0"@))
    } else {
        h2
    }
}

impl HttpRequest {
    /// Builds a request from its parts.
    pub fn new(verb: Verb, url: String, body: Option<String>, headers: Vec<Header>) -> (r:
        HttpRequest)
        ensures
            r@.verb == verb,
            r@.url == url@,
            r@.body == (match body {
                Some(b) => Some(b@),
                None => None::<Seq<char>>,
            }),
            r@.headers == headers@.map_values(|h: Header| (h.0@, h.1@)),
    {
        HttpRequest { verb, url, body, headers }
    }

    /// The request's verb.
    pub fn verb(&self) -> (r: Verb)
        ensures
            r == self@.verb,
    {
        self.verb
    }

    /// The request's verb, under its HTTP name: the request method.
    pub fn method(&self) -> (r: Verb)
        ensures
            r == self@.verb,
    {
        self.verb
    }

    /// The URL the request will be sent to: as written when it names a
    /// scheme, otherwise under `https`.
    pub fn effective_url(&self) -> (r: String)
        ensures
            r@ == spec_effective_url(self@.url),
    {
        proof {
            reveal_strlit("http://");
            reveal_strlit("https://");
        }
        if has_prefix(self.url.as_str(), "http://") || has_prefix(self.url.as_str(), "https://") {
            self.url.clone()
        } else {
            let prefixed: String = "https://".to_owned();
            prefixed.concat(self.url.as_str())
        }
    }

    /// The request's headers.
    pub fn headers(&self) -> (r: &Vec<Header>)
        ensures
            r@.map_values(|h: Header| (h.0@, h.1@)) == self@.headers,
    {
        &self.headers
    }

    /// The first header under the given name, compared ASCII-lowercased.
    pub fn header(&self, key: &str) -> (r: Option<&str>)
        ensures
            match header_lookup(self@.headers, lowered(key@)) {
                Some(v) => r matches Some(s) && s@ == v,
                None => r is None,
            },
    {
        let needle = crate::headers::lower_str(key);
        let ghost hs = self@.headers;
        let ghost k = lowered(key@);
        let mut i: usize = 0;
        proof {
            assert(hs.skip(0) =~= hs);
        }
        while i < self.headers.len()
            invariant
                hs == self@.headers,
                k == needle@,
                k == lowered(key@),
                i <= hs.len(),
                header_lookup(hs, k) == header_lookup(hs.skip(i as int), k),
            decreases hs.len() - i,
        {
            proof {
                assert(hs[i as int] == (self.headers@[i as int].0@, self.headers@[i as int].1@));
                assert(hs.skip(i as int)[0] == hs[i as int]);
                assert(hs.skip(i as int).drop_first() =~= hs.skip(i + 1));
            }
            if crate::text::str_eq(self.headers[i].0.as_str(), needle.as_str()) {
                proof {
                    assert(header_lookup(hs, k) == Some(hs[i as int].1));
                }
                return Some(self.headers[i].1.as_str());
            }
            i = i + 1;
        }
        proof {
            assert(hs.skip(hs.len() as int) =~= Seq::<(Seq<char>, Seq<char>)>::empty());
        }
        None
    }

    /// Fills in the default headers, `host`, `content-length` and
    /// `user-agent`, each only where the request does not set it already.
    pub fn set_default_headers(&mut self) -> (r: Result<(), HeaderError>)
        ensures
            r is Ok,
            final(self)@.verb == old(self)@.verb,
            final(self)@.url == old(self)@.url,
            final(self)@.body == old(self)@.body,
            final(self)@.headers == spec_default_headers(old(self)@),
    {
        let ghost m = old(self)@;
        let ghost h0 = m.headers;
        proof {
            reveal_strlit("host");
            reveal_strlit("content-length");
            reveal_strlit("user-agent");
            reveal_strlit("fire/0.1.0");
            assert(lowered("host"@) =~= "host"@);
            assert(lowered("content-length"@) =~= "content-length"@);
            assert(lowered("user-agent"@) =~= "user-agent"@);
        }
        let effective = self.effective_url();
        let host = url_host(effective.as_str());
        match host {
            Some(h) => {
                if self.header("host").is_none() {
                    match header("host", h.as_str()) {
                        Ok(hd) => {
                            self.headers.push(hd);
                            proof {
                                assert(self@.headers =~= h0.push(
                                    ("host"@, trim_back(trim_front(h@))),
                                ));
                                assert(self@.headers.drop_last() =~= h0);
                                assert(self@.headers.last().0 == "host"@);
                            }
                        },
                        Err(e) => {
                            return Err(e);
                        },
                    }
                }
            },
            None => {},
        }
        let ghost h1 = self@.headers;
        proof {
            lemma_lookup_after_push(h0, h1, "content-length"@);
            lemma_lookup_after_push(h0, h1, "user-agent"@);
        }
        let size = self.body_size();
        if size != 0 {
            if self.header("content-length").is_none() {
                let value = usize_to_string(size);
                match header("content-length", value.as_str()) {
                    Ok(hd) => {
                        proof {
                            lemma_trim_digits(spec_body_size(m));
                        }
                        self.headers.push(hd);
                        proof {
                            assert(self@.headers =~= h1.push(
                                ("content-length"@, dec_str(spec_body_size(m))),
                            ));
                            assert(self@.headers.drop_last() =~= h1);
                            assert(self@.headers.last().0 == "content-length"@);
                        }
                    },
                    Err(e) => {
                        return Err(e);
                    },
                }
            }
        }
        let ghost h2 = self@.headers;
        proof {
            lemma_lookup_after_push(h1, h2, "user-agent"@);
        }
        if self.header("user-agent").is_none() {
            match header("user-agent", "fire/0.1.0") {
                Ok(hd) => {
                    proof {
                        lemma_trim_plain("fire/0.1.0"@);
                    }
                    self.headers.push(hd);
                    proof {
                        assert(self@.headers =~= h2.push(("user-agent"@, "fire/0.1.0"@)));
                    }
                },
                Err(e) => {
                    return Err(e);
                },
            }
        }
        proof {
            assert(self@.headers =~= spec_default_headers(m));
        }
        Ok(())
    }

    /// Whether a body will be sent.
    pub fn has_body(&self) -> (r: bool)
        ensures
            r == (spec_body_size(self@) != 0),
    {
        self.body_size() != 0
    }

    /// The request's body text, if any.
    pub fn body(&self) -> (r: &Option<String>)
        ensures
            self@.body == (match *r {
                Some(b) => Some(b@),
                None => None::<Seq<char>>,
            }),
    {
        &self.body
    }

    /// The size in bytes of the body that will be sent: the body's length
    /// under a verb that carries one, zero otherwise.
    pub fn body_size(&self) -> (r: usize)
        ensures
            r == spec_body_size(self@),
    {
        match self.verb {
            Verb::Post | Verb::Put | Verb::Delete | Verb::Patch => match &self.body {
                Some(b) => b.as_str().len(),
                None => 0,
            },
            _ => 0,
        }
    }
}

/// Looking a name up is unchanged by pushes of other names.
proof fn lemma_lookup_after_push(
    h0: Seq<(Seq<char>, Seq<char>)>,
    h1: Seq<(Seq<char>, Seq<char>)>,
    k: Seq<char>,
)
    requires
        h0 == h1 || (h1.len() == h0.len() + 1 && h1.drop_last() == h0 && h1.last().0 != k),
    ensures
        header_lookup(h1, k) == header_lookup(h0, k),
    decreases h0.len(),
{
    if h0 != h1 {
        if h0.len() == 0 {
            assert(h1.len() == 1);
            assert(h1[0] == h1.last());
            assert(h1[0].0 != k);
            assert(h1.drop_first() =~= Seq::<(Seq<char>, Seq<char>)>::empty());
        } else {
            assert(h1[0] == h1.drop_last()[0]);
            assert(h1[0] == h0[0]);
            if h1[0].0 != k {
                assert(h1.drop_first().drop_last() =~= h0.drop_first());
                assert(h1.drop_first().last() == h1.last());
                lemma_lookup_after_push(h0.drop_first(), h1.drop_first(), k);
                assert(header_lookup(h1, k) == header_lookup(h1.drop_first(), k));
                assert(header_lookup(h0, k) == header_lookup(h0.drop_first(), k));
            } else {
                assert(header_lookup(h1, k) == Some(h1[0].1));
                assert(header_lookup(h0, k) == Some(h0[0].1));
            }
        }
    }
}

/// Decimal digit strings hold no whitespace, so trimming leaves them alone.
proof fn lemma_trim_digits(n: nat)
    ensures
        trim_back(trim_front(dec_str(n))) == dec_str(n),
    decreases n,
{
    lemma_dec_str_digits(n);
    assert(!crate::prop::is_space_char(dec_str(n)[0]));
    assert(!crate::prop::is_space_char(dec_str(n).last()));
}

/// Every character of a decimal digit string is a digit.
proof fn lemma_dec_str_digits(n: nat)
    ensures
        dec_str(n).len() > 0,
        forall|i: int|
            0 <= i < dec_str(n).len() ==> '0' <= #[trigger] dec_str(n)[i] && dec_str(n)[i] <= '9',
    decreases n,
{
    if n >= 10 {
        lemma_dec_str_digits(n / 10);
        assert forall|i: int|
            0 <= i < dec_str(n).len() implies '0' <= #[trigger] dec_str(n)[i] && dec_str(n)[i]
            <= '9' by {
            if i < dec_str(n).len() - 1 {
                assert(dec_str(n)[i] == dec_str(n / 10)[i]);
            }
        }
    }
}

/// A sequence without leading or trailing whitespace trims to itself.
proof fn lemma_trim_plain(s: Seq<char>)
    requires
        s.len() > 0,
        !crate::prop::is_space_char(s[0]),
        !crate::prop::is_space_char(s.last()),
    ensures
        trim_back(trim_front(s)) == s,
{
}

/// The mathematical content of an `HttpResponse`.
pub ghost struct HttpResponseModel {
    pub version: Seq<char>,
    pub status: u16,
    pub headers: Seq<(Seq<char>, Seq<char>)>,
    pub body: Seq<char>,
}

/// A received response: protocol version, status code, headers, body text.
#[derive(Debug)]
pub struct HttpResponse {
    version: String,
    status: u16,
    headers: Vec<(String, String)>,
    body: String,
}

impl View for HttpResponse {
    type V = HttpResponseModel;

    closed spec fn view(&self) -> HttpResponseModel {
        HttpResponseModel {
            version: self.version@,
            status: self.status,
            headers: self.headers@.map_values(|h: (String, String)| (h.0@, h.1@)),
            body: self.body@,
        }
    }
}

impl HttpResponse {
    /// Builds a response from its parts.
    pub fn new(version: String, status: u16, headers: Vec<(String, String)>, body: String) -> (r:
        HttpResponse)
        ensures
            r@.version == version@,
            r@.status == status,
            r@.headers == headers@.map_values(|h: (String, String)| (h.0@, h.1@)),
            r@.body == body@,
    {
        HttpResponse { version, status, headers, body }
    }

    /// The protocol version text.
    pub fn version(&self) -> (r: &str)
        ensures
            r@ == self@.version,
    {
        self.version.as_str()
    }

    /// The status code.
    pub fn status(&self) -> (r: u16)
        ensures
            r == self@.status,
    {
        self.status
    }

    /// The response's headers.
    pub fn headers(&self) -> (r: &Vec<(String, String)>)
        ensures
            r@.map_values(|h: (String, String)| (h.0@, h.1@)) == self@.headers,
    {
        &self.headers
    }

    /// The first header under the given name; the name is ASCII-lowercased
    /// before the comparison, as received header names are on the wire.
    pub fn header(&self, key: &str) -> (r: Option<&str>)
        ensures
            match header_lookup(self@.headers, lowered(key@)) {
                Some(v) => r matches Some(s) && s@ == v,
                None => r is None,
            },
    {
        let needle = crate::headers::lower_str(key);
        let ghost hs = self@.headers;
        let ghost k = lowered(key@);
        let mut i: usize = 0;
        proof {
            assert(hs.skip(0) =~= hs);
        }
        while i < self.headers.len()
            invariant
                hs == self@.headers,
                k == needle@,
                k == lowered(key@),
                i <= hs.len(),
                header_lookup(hs, k) == header_lookup(hs.skip(i as int), k),
            decreases hs.len() - i,
        {
            proof {
                assert(hs[i as int] == (self.headers@[i as int].0@, self.headers@[i as int].1@));
                assert(hs.skip(i as int)[0] == hs[i as int]);
                assert(hs.skip(i as int).drop_first() =~= hs.skip(i + 1));
            }
            if crate::text::str_eq(self.headers[i].0.as_str(), needle.as_str()) {
                proof {
                    assert(header_lookup(hs, k) == Some(hs[i as int].1));
                }
                return Some(self.headers[i].1.as_str());
            }
            i = i + 1;
        }
        proof {
            assert(hs.skip(hs.len() as int) =~= Seq::<(Seq<char>, Seq<char>)>::empty());
        }
        None
    }

    /// The response body's text.
    pub fn body(&self) -> (r: &str)
        ensures
            r@ == self@.body,
    {
        self.body.as_str()
    }

    /// The response body's length in bytes.
    pub fn body_len(&self) -> (r: usize)
        ensures
            r == byte_len(self@.body),
    {
        self.body.as_str().len()
    }
}

} // verus!
