//! The errors of the library.

use crate::text::{decimal, decimal_string};
use vstd::prelude::*;
use vstd::string::StringExecFns;

verus! {

/// What can go wrong in a store operation or a query.
#[derive(Debug, PartialEq, Eq)]
pub enum LinkError {
    /// No doublet has this index.
    NotFound(u32),
    /// The query does not have the shape that is asked for.
    InvalidFormat(String),
    /// The store could not do what was asked of it.
    StorageError(String),
    /// The query could not be carried out.
    QueryError(String),
    /// The text is not well-formed notation.
    ParseError(String),
}

impl LinkError {
    /// The text that describes the error.
    pub open spec fn spec_message(&self) -> Seq<char> {
        match self {
            LinkError::NotFound(index) => "Link not found: "@ + decimal(*index as nat),
            LinkError::InvalidFormat(detail) => "Invalid link format: "@ + detail@,
            LinkError::StorageError(detail) => "Storage error: "@ + detail@,
            LinkError::QueryError(detail) => "Query error: "@ + detail@,
            LinkError::ParseError(detail) => "Parse error: "@ + detail@,
        }
    }

    /// The text that describes the error.
    pub fn message(&self) -> (text: String)
        ensures
            text@ == self.spec_message(),
    {
        match self {
            LinkError::NotFound(index) => {
                let number = decimal_string(*index);
                String::from_str("Link not found: ").concat(number.as_str())
            },
            LinkError::InvalidFormat(detail) => String::from_str("Invalid link format: ").concat(
                detail.as_str(),
            ),
            LinkError::StorageError(detail) => String::from_str("Storage error: ").concat(
                detail.as_str(),
            ),
            LinkError::QueryError(detail) => String::from_str("Query error: ").concat(
                detail.as_str(),
            ),
            LinkError::ParseError(detail) => String::from_str("Parse error: ").concat(
                detail.as_str(),
            ),
        }
    }
}

} // verus!
