//! The closed set of errors the harvester reports. Failures of outside
//! libraries (CSV rows, I/O, URL parsing, HTTP, JSON) are re-tagged into
//! these variants carrying only a diagnostic message.

use vstd::prelude::*;
use vstd::string::StringExecFns;

use crate::strutil::{dec_str, u32_to_string};

verus! {

/// The largest page size the source accepts for one fetch.
pub const MAX_PS_FETCH_SIZE: u32 = 1000;

/// Everything that can go wrong while building queries, harvesting, or
/// persisting the record set.
#[derive(Debug)]
pub enum PSError {
    /// A query parameter was set twice; parameters are write-once.
    AlreadyAdded(String),
    /// A row could not be written or read as CSV.
    Csv(String),
    /// A file could not be opened, read or flushed.
    Io(String),
    /// A collection name with characters outside the allow-list.
    InvalidSubreddit(String),
    /// The source produced only empty rounds; the harvest is exhausted.
    NoMoreNodes,
    /// `build` was called before any parameter was set.
    NoParams,
    /// A URL could not be parsed.
    Parse(String),
    /// A transport failure.
    Reqwest(String),
    /// A response body could not be decoded.
    SerdeJson(String),
    /// A requested page size above `MAX_PS_FETCH_SIZE`.
    SizeTooHigh(u32),
}

impl PSError {
    /// The diagnostic text for this error.
    pub open spec fn message_spec(&self) -> Seq<char> {
        match self {
            PSError::AlreadyAdded(param) => "Parameter already added: "@ + param@,
            PSError::Csv(error) => "CSV: "@ + error@,
            PSError::Io(error) => "IO: "@ + error@,
            PSError::InvalidSubreddit(subreddit) => "Subreddit may only contain alphanumeric and _: "@
                + subreddit@,
            PSError::NoMoreNodes => "No more nodes to scrape."@,
            PSError::NoParams => "No parameters found. You have to specify parameters such as a subreddit."@,
            PSError::Parse(error) => "Parse: "@ + error@,
            PSError::Reqwest(error) => "Reqwest: "@ + error@,
            PSError::SerdeJson(error) => "Serde: "@ + error@,
            PSError::SizeTooHigh(size) => "Size must be less than "@ + dec_str(
                MAX_PS_FETCH_SIZE as u64,
            ) + "; got: "@ + dec_str(*size as u64),
        }
    }

    /// Renders the diagnostic text.
    pub fn message(&self) -> (r: String)
        ensures
            r@ == self.message_spec(),
    {
        match self {
            PSError::AlreadyAdded(param) => {
                let mut s = String::from_str("Parameter already added: ");
                s.append(param.as_str());
                s
            },
            PSError::Csv(error) => {
                let mut s = String::from_str("CSV: ");
                s.append(error.as_str());
                s
            },
            PSError::Io(error) => {
                let mut s = String::from_str("IO: ");
                s.append(error.as_str());
                s
            },
            PSError::InvalidSubreddit(subreddit) => {
                let mut s = String::from_str("Subreddit may only contain alphanumeric and _: ");
                s.append(subreddit.as_str());
                s
            },
            PSError::NoMoreNodes => String::from_str("No more nodes to scrape."),
            PSError::NoParams => String::from_str(
                "No parameters found. You have to specify parameters such as a subreddit.",
            ),
            PSError::Parse(error) => {
                let mut s = String::from_str("Parse: ");
                s.append(error.as_str());
                s
            },
            PSError::Reqwest(error) => {
                let mut s = String::from_str("Reqwest: ");
                s.append(error.as_str());
                s
            },
            PSError::SerdeJson(error) => {
                let mut s = String::from_str("Serde: ");
                s.append(error.as_str());
                s
            },
            PSError::SizeTooHigh(size) => {
                let mut s = String::from_str("Size must be less than ");
                let max = u32_to_string(MAX_PS_FETCH_SIZE);
                s.append(max.as_str());
                s.append("; got: ");
                let got = u32_to_string(*size);
                s.append(got.as_str());
                s
            },
        }
    }
}

} // verus!
