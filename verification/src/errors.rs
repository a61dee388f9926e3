//! The fatal errors of the scanner: everything else is absorbed into the
//! open/closed classification of a single probe.

use vstd::prelude::*;

verus! {

/// An error that aborts the scan before any probing starts.
#[derive(Debug, Clone, PartialEq, Eq)]
pub enum ScanError {
    /// Malformed range, list or single-port text; carries the offending text.
    InvalidPortSpec(String),
    /// Not four dotted octets, or an octet out of range; carries the text.
    InvalidAddress(String),
}

impl ScanError {
    /// A one-line description of the error, for the reporting layer.
    pub fn message(&self) -> (m: String)
        ensures
            match self {
                ScanError::InvalidPortSpec(t) => m@ == "invalid port specification: "@ + t@,
                ScanError::InvalidAddress(t) => m@ == "invalid ip address: "@ + t@,
            },
    {
        match self {
            ScanError::InvalidPortSpec(t) => {
                let head = String::from_str("invalid port specification: ");
                head.concat(t.as_str())
            },
            ScanError::InvalidAddress(t) => {
                let head = String::from_str("invalid ip address: ");
                head.concat(t.as_str())
            },
        }
    }
}

} // verus!
