//! Content formatters for printed request and response bodies.

use vstd::prelude::*;

use crate::text::has_prefix;

verus! {

/// A formatter for one kind of body content.
pub trait ContentFormatter {
    /// Whether this formatter applies to content of the given type.
    fn accept(&self, content_type: Option<&str>) -> bool;

    /// Formats the content, or says why it cannot.
    fn format(&self, content: String) -> Result<String, String>;
}

/// What pretty-printing a JSON text yields: a reindented form exactly when
/// the text parses as JSON.
pub uninterp spec fn pretty_json_of(s: Seq<char>) -> Option<Seq<char>>;

/// Relies on `serde_json::from_str::<Value>` and
/// `serde_json::to_string_pretty`: whether a text parses as JSON and what
/// its pretty-printed form is depend on the text alone.
#[verifier::external_body]
fn pretty_json(content: &str) -> (r: Option<String>)
    ensures
        r is Some == pretty_json_of(content@) is Some,
        r matches Some(p) ==> pretty_json_of(content@) == Some(p@),
{
    let value: serde_json::Value = match serde_json::from_str(content) {
        Ok(v) => v,
        Err(_) => return None,
    };
    serde_json::to_string_pretty(&value).ok()
}

/// Reindents JSON bodies.
#[derive(Debug, Clone, Copy)]
pub struct JsonPretty;

impl JsonPretty {
    /// Builds the formatter.
    pub fn new() -> (r: JsonPretty)
        ensures
            r == JsonPretty,
    {
        JsonPretty
    }

    /// Whether the content type is JSON.
    pub fn accepts_json(content_type: Option<&str>) -> (r: bool)
        ensures
            r == (match content_type {
                Some(ct) => ct@.len() >= 16 && ct@.take(16) == "application/json"@,
                None => false,
            }),
    {
        proof {
            reveal_strlit("application/json");
        }
        match content_type {
            Some(ct) => has_prefix(ct, "application/json"),
            None => false,
        }
    }

    /// Reindents the content when it parses as JSON; says so when it does
    /// not.
    pub fn pretty(content: &str) -> (r: Result<String, String>)
        ensures
            match pretty_json_of(content@) {
                Some(p) => r matches Ok(s) && s@ == p,
                None => r is Err,
            },
    {
        match pretty_json(content) {
            Some(p) => Ok(p),
            None => Err("Unable to parse body as JSON".to_owned()),
        }
    }
}

impl ContentFormatter for JsonPretty {
    fn accept(&self, content_type: Option<&str>) -> bool {
        JsonPretty::accepts_json(content_type)
    }

    fn format(&self, content: String) -> Result<String, String> {
        JsonPretty::pretty(content.as_str())
    }
}

} // verus!
