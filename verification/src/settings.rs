//! Settings read from the environment.
use vstd::prelude::*;
use crate::text::{trim_str, chars_of, trim};

verus! {

/// A setting that cannot be used.
#[derive(Clone, Copy, Debug, PartialEq, Eq, Structural)]
pub enum ConfigError {
    /// A search template without a place for the query.
    InvalidSearchTemplate,
}

impl ConfigError {
    /// The message of the error.
    pub fn message(&self) -> (r: String)
        ensures
            r@ == "invalid search template: missing query placeholder"@,
    {
        crate::text::string_from_chars(&chars_of("invalid search template: missing query placeholder"))
    }
}

/// The web search template from the value of its environment variable (`None` when
/// the variable is unset or not valid text): the value when it is not blank, else no
/// template. A template without `{query}` or `%s` is kept too: the query is then
/// appended to it. No value is refused.
pub fn search_template_from(value: Option<&str>) -> (r: Result<Option<String>, ConfigError>)
    ensures
        match value {
            Some(v) => if trim(v@).len() > 0 {
                r matches Ok(Some(t)) && t@ == v@
            } else {
                r matches Ok(None)
            },
            None => r matches Ok(None),
        },
{
    match value {
        Some(v) => {
            let t = trim_str(v);
            if chars_of(t.as_str()).len() == 0 {
                Ok(None)
            } else {
                Ok(Some(crate::text::string_from_chars(&chars_of(v))))
            }
        },
        None => Ok(None),
    }
}

} // verus!
