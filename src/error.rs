//! The library's error value: a human-readable message with an optional
//! summary line.
use vstd::prelude::*;

verus! {

#[derive(Debug, Clone, PartialEq)]
pub struct MeliError {
    pub summary: Option<String>,
    pub details: String,
}

impl MeliError {
    pub fn new(details: String) -> (r: MeliError)
        ensures
            r.details@ == details@,
            r.summary is None,
    {
        MeliError { summary: None, details }
    }

    pub fn with_summary(details: String, summary: String) -> (r: MeliError)
        ensures
            r.details@ == details@,
            r.summary matches Some(s) && s@ == summary@,
    {
        MeliError { summary: Some(summary), details }
    }

    pub fn from_str(details: &str) -> (r: MeliError)
        ensures
            r.details@ == details@,
            r.summary is None,
    {
        MeliError { summary: None, details: details.to_owned() }
    }
}

} // verus!
