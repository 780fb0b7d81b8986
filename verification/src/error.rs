use vstd::prelude::*;

verus! {

/// Failure taxonomy shared by the whole library.
#[derive(Debug, Clone, Copy, PartialEq, Eq, Structural)]
pub enum Error {
    /// Namespace text is empty or contains a character outside the grammar.
    InvalidNamespace,
    /// An action token is empty.
    InvalidAction,
    /// A grant set is too large for the wire encoding's length fields.
    EncodingFailure,
    /// A capability resource entry carries the capability prefix but its
    /// remainder cannot be decoded.
    DecodingFailure,
}

} // verus!
