use vstd::prelude::*;
use vstd::string::StringExecFns;

verus! {

/// The errors that input operations produce.
#[derive(Debug)]
#[non_exhaustive]
pub enum HumioError {
    /// The input backend failed.
    Backend(String),
    /// The mouse location could not be obtained.
    LocationQuery(String),
}

impl HumioError {
    /// The error's message: "Input backend error: " or "Mouse location query
    /// failed: " followed by its detail.
    pub fn message(&self) -> (m: String)
        ensures
            match self {
                HumioError::Backend(d) => m@ == "Input backend error: "@ + d@,
                HumioError::LocationQuery(d) => m@ == "Mouse location query failed: "@ + d@,
            },
    {
        match self {
            HumioError::Backend(d) => String::from_str("Input backend error: ").concat(d.as_str()),
            HumioError::LocationQuery(d) => String::from_str("Mouse location query failed: ").concat(
                d.as_str(),
            ),
        }
    }
}

} // verus!
