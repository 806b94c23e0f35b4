//! The Pushshift API endpoint chosen for a harvest.

use vstd::prelude::*;

verus! {

/// Pushshift API endpoint.
#[derive(Clone, Copy, Debug, PartialEq, Eq, Hash, Structural)]
pub enum PSEndpoint {
    Comment,
    Submission,
    Subreddit,
}

impl PSEndpoint {
    /// The path under the API base that this endpoint is served at.
    pub open spec fn path_spec(self) -> Seq<char> {
        match self {
            PSEndpoint::Comment => "/comment/search"@,
            PSEndpoint::Submission => "/submission/search"@,
            PSEndpoint::Subreddit => "/subreddit/search"@,
        }
    }

    /// Renders the endpoint as its URL path segment.
    pub fn path(&self) -> (r: &'static str)
        ensures
            r@ == self.path_spec(),
    {
        match self {
            PSEndpoint::Comment => "/comment/search",
            PSEndpoint::Submission => "/submission/search",
            PSEndpoint::Subreddit => "/subreddit/search",
        }
    }
}

} // verus!
