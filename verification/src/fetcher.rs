//! The description of a fetch: the URL to request, the fetch mode, and the
//! errors a fetch can report. The request itself is I/O and is made by the
//! surrounding program, which hands the fetched title and body back to the
//! renderer.

use vstd::prelude::*;

verus! {

/// How the article is to be fetched.
pub enum FetcherType {
    SingleBlocking,
    Multiple(i32),
}

/// Why a fetch failed: the request itself failed, or its payload could not
/// be parsed. Either way a pre-formatted reason is carried along.
pub enum FetcherError {
    RequestError(String),
    ParseError(String),
}

impl FetcherError {
    /// The human-readable reason carried by the error, whichever variant
    /// holds it.
    pub fn message(&self) -> (msg: &str)
        ensures
            msg@ == (match self {
                FetcherError::RequestError(reason) => reason@,
                FetcherError::ParseError(reason) => reason@,
            }),
    {
        match self {
            FetcherError::RequestError(reason) => reason.as_str(),
            FetcherError::ParseError(reason) => reason.as_str(),
        }
    }
}

/// A fetch target: the URL and the fetch mode.
pub struct Fetcher {
    path: String,
    fetcher_type: FetcherType,
}

impl Fetcher {
    /// The URL that the fetch will request.
    pub closed spec fn spec_path(&self) -> Seq<char> {
        self.path@
    }

    /// The configured fetch mode.
    pub closed spec fn spec_fetcher_type(&self) -> FetcherType {
        self.fetcher_type
    }

    pub fn new(path: String, fetcher_type: FetcherType) -> (r: Self)
        ensures
            r.spec_path() == path@,
            r.spec_fetcher_type() == fetcher_type,
    {
        Fetcher { path, fetcher_type }
    }

    /// The URL that the fetch will request.
    pub fn path(&self) -> (p: &str)
        ensures
            p@ == self.spec_path(),
    {
        self.path.as_str()
    }

    /// The configured fetch mode.
    pub fn fetcher_type(&self) -> (t: &FetcherType)
        ensures
            *t == self.spec_fetcher_type(),
    {
        &self.fetcher_type
    }
}

} // verus!
