//! The service's error kinds and how they surface on the wire.

use vstd::prelude::*;
use vstd::string::StringExecFns;

use crate::search::SearchError;

verus! {

/// An error of the service: a bad query, a failure of the persistent
/// store — carrying the store's own description — or an infrastructure
/// fault.
#[derive(Debug)]
pub enum DictError {
    Search(SearchError),
    Database(String),
    Internal,
}

impl DictError {
    /// The HTTP status an error surfaces as: a bad query is the caller's
    /// fault, everything else is the server's.
    pub fn status_code(&self) -> (r: u16)
        ensures
            r == (match self {
                DictError::Search(_) => 400u16,
                DictError::Database(_) => 500u16,
                DictError::Internal => 500u16,
            }),
    {
        match self {
            DictError::Search(_) => 400,
            DictError::Database(_) => 500,
            DictError::Internal => 500,
        }
    }

    /// A human-readable description of the error.
    pub fn message(&self) -> (r: String)
        ensures
            match self {
                DictError::Search(e) => r@ == "Search error: "@ + "Invalid query"@,
                DictError::Database(d) => r@ == "Database error: "@ + d@,
                DictError::Internal => r@ == "Internal error"@,
            },
    {
        match self {
            DictError::Search(e) => {
                let m = e.message();
                "Search error: ".to_owned().concat(m.as_str())
            },
            DictError::Database(d) => "Database error: ".to_owned().concat(d.as_str()),
            DictError::Internal => "Internal error".to_owned(),
        }
    }
}

} // verus!
