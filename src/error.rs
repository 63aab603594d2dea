//! Errors of the conversions.
use vstd::prelude::*;

verus! {

/// Why a conversion stopped.
#[derive(Debug)]
pub enum ConvertError {
    /// Malformed inline content, under the logical path given.
    Decode(String),
    /// A location that would resolve outside the root.
    PathEscape(String),
    /// External content that was not supplied for a reference.
    MissingContent(String),
}

/// The model of a `ConvertError`.
pub enum Failure {
    Decode(Seq<char>),
    PathEscape(Seq<char>),
    MissingContent(Seq<char>),
}

impl View for ConvertError {
    type V = Failure;

    open spec fn view(&self) -> Failure {
        match self {
            ConvertError::Decode(p) => Failure::Decode(p@),
            ConvertError::PathEscape(p) => Failure::PathEscape(p@),
            ConvertError::MissingContent(p) => Failure::MissingContent(p@),
        }
    }
}

} // verus!
