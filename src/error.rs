use vstd::prelude::*;

verus! {

/// The ways in which an operation of the library fails.
#[derive(Debug, PartialEq, Eq)]
pub enum TrackError {
    /// A track identifier, a file or a key that was asked for is absent.
    NotFound(String),
    /// A track or an artifact does not have the expected shape.
    DecodeFailure,
    /// The persisted artifact could not be created, written or read.
    IoFailure(String),
}

} // verus!
