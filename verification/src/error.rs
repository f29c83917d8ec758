//! Why a conversion can fail.

use vstd::prelude::*;

verus! {

/// Why a conversion can fail.
#[derive(Debug, PartialEq, Eq)]
pub enum ConvertError {
    /// A part of the document does not hold what it has to.
    MalformedPart { part: String, detail: String },
    /// A part that has to be there is not.
    MissingPart(String),
    /// A resource limit was reached.
    LimitExceeded,
    /// The input is not of a kind that can be converted.
    Unsupported(String),
}

impl ConvertError {
    /// A part of the document does not hold what it has to.
    pub fn malformed_part(part: String, detail: &str) -> (r: ConvertError)
        ensures
            r matches ConvertError::MalformedPart { part: p, detail: d } && p == part && d@
                == detail@,
    {
        ConvertError::MalformedPart { part, detail: detail.to_owned() }
    }
}

} // verus!
