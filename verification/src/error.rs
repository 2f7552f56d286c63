//! Error type of the library.
use vstd::prelude::*;

verus! {

/// I/O errors that the library's callers report through [`FcesError::Io`].
#[verifier::external_type_specification]
#[verifier::external_body]
pub struct ExIoError(std::io::Error);

/// Errors of the clustering pipeline.
#[derive(Debug)]
pub enum FcesError {
    /// The nearest-neighbour index failed.
    UsSearch(String),
    /// A file could not be read or written.
    Io(std::io::Error),
    /// No Infomap executable was found.
    InfomapNotFound,
    /// Infomap could not be run or reported a failure.
    InfomapExecution(String),
    /// Infomap's output could not be read.
    InfomapParse(String),
    /// The input data is invalid.
    InvalidInput(String),
    /// Community detection failed.
    CommunityDetection(String),
}

} // verus!
