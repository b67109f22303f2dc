//! The ways in which a request for GFS data can fail.

use vstd::prelude::*;

verus! {

/// Why a request could not be answered. Every kind ends the request that
/// met it; nothing is retried.
#[derive(Clone, Copy, Debug, PartialEq, Eq, Structural)]
pub enum GfsError {
    /// The bucket listing is not the XML document that the provider publishes.
    MalformedListing,
    /// A listing or an object could not be fetched.
    NetworkFailure,
    /// A line of an index file does not have six colon-delimited fields, or
    /// its sequence index or start byte is not a number. `line` counts the
    /// lines of the file from one.
    IndexFormatError { line: usize },
    /// No record of the index has the parameter and level asked for.
    RecordNotFound,
    /// None of the runs that were probed is complete.
    RunNotFound,
}

impl GfsError {
    /// The HTTP status that answers a request which met this error: 404
    /// where the thing asked for does not exist, a run or a record; 500
    /// where the bucket could not be reached or sent what cannot be read.
    pub open spec fn status_spec(self) -> u16 {
        match self {
            GfsError::RecordNotFound => 404,
            GfsError::RunNotFound => 404,
            GfsError::MalformedListing => 500,
            GfsError::NetworkFailure => 500,
            GfsError::IndexFormatError { .. } => 500,
        }
    }

    /// Whether the error says that what was asked for does not exist,
    /// rather than that something went wrong on the way to it.
    pub open spec fn is_not_found(self) -> bool {
        self == GfsError::RecordNotFound || self == GfsError::RunNotFound
    }

    /// The HTTP status that answers a request which met this error.
    pub fn status_code(&self) -> (status: u16)
        ensures
            status == self.status_spec(),
            self.is_not_found() <==> status == 404,
            !self.is_not_found() <==> status == 500,
    {
        match self {
            GfsError::RecordNotFound => 404,
            GfsError::RunNotFound => 404,
            GfsError::MalformedListing => 500,
            GfsError::NetworkFailure => 500,
            GfsError::IndexFormatError { .. } => 500,
        }
    }
}

} // verus!
