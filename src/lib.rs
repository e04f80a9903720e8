//! Detection of the technologies that a web page uses, from the signals that
//! were read off the page and a catalog of technology signatures.
use vstd::prelude::*;
use vstd::string::*;

pub mod pattern;
pub mod wapp;

use std::time::Duration;
use wapp::{AppsJsonData, RawData, Tech, check, detected, techs_view};

verus! {

/// The outcome of one scan: the page's address, and either the technologies
/// detected on it, each once, or why the page could not be read.
#[derive(Debug)]
pub struct Analysis {
    pub url: String,
    pub result: Result<Vec<Tech>, String>,
    pub scan_time: Option<Duration>,
}

/// The analysis of a page from the signals read off it, or of a page whose
/// signals could not be read (`None`). The scan time is left for the caller
/// to fill in.
pub fn analyze(url: String, catalog: &AppsJsonData, raw_data: Option<&RawData>) -> (r: Analysis)
    ensures
        r.url@ == url@,
        r.scan_time is None,
        raw_data is None ==> (r.result matches Err(e) && e@ == seq!['E', 'r', 'r', 'o', 'r']),
        raw_data matches Some(raw) ==> (r.result matches Ok(v) && techs_view(v@).no_duplicates() && forall|t|
            techs_view(v@).contains(t) <==> detected(catalog@, raw@).contains(t)),
{
    match raw_data {
        Some(raw) => Analysis { url, result: Ok(check(catalog, raw)), scan_time: None },
        None => {
            proof {
                reveal_strlit("Error");
            }
            let e = String::from_str("Error");
            assert(e@ =~= seq!['E', 'r', 'r', 'o', 'r']);
            Analysis { url, result: Err(e), scan_time: None }
        },
    }
}

/// What can go wrong in a scan.
#[derive(Debug, Clone)]
pub enum WappError {
    Fetch(String),
    Analyze(String),
    Other(String),
}

impl WappError {
    /// The error as a line of text: its kind, a slash, and its message.
    pub fn message(&self) -> (r: String)
        ensures
            r@ == (match self {
                WappError::Fetch(e) => seq!['F', 'e', 't', 'c', 'h', '/'] + e@,
                WappError::Analyze(e) => seq!['A', 'n', 'a', 'l', 'y', 'z', 'e', '/'] + e@,
                WappError::Other(e) => seq!['O', 't', 'h', 'e', 'r', '/'] + e@,
            }),
    {
        proof {
            reveal_strlit("Fetch/");
            reveal_strlit("Analyze/");
            reveal_strlit("Other/");
        }
        match self {
            WappError::Fetch(e) => {
                let mut r = String::from_str("Fetch/");
                r.append(e.as_str());
                assert(r@ =~= seq!['F', 'e', 't', 'c', 'h', '/'] + e@);
                r
            },
            WappError::Analyze(e) => {
                let mut r = String::from_str("Analyze/");
                r.append(e.as_str());
                assert(r@ =~= seq!['A', 'n', 'a', 'l', 'y', 'z', 'e', '/'] + e@);
                r
            },
            WappError::Other(e) => {
                let mut r = String::from_str("Other/");
                r.append(e.as_str());
                assert(r@ =~= seq!['O', 't', 'h', 'e', 'r', '/'] + e@);
                r
            },
        }
    }
}

} // verus!
