//! Layered property resolution and `{{KEY}}` template substitution for HTTP
//! request templates: properties are gathered from command-line overrides,
//! discovered variable files and the inherited environment, merged by a total
//! priority order, and substituted into the template text.

pub mod args;
pub mod discover;
pub mod format;
pub mod headers;
pub mod http;
pub mod prop;
pub mod templ;
pub mod template;
pub mod text;
