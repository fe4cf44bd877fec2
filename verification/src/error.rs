use vstd::prelude::*;

verus! {

/// Every failure this library can report while decoding a scalar, assembling
/// a configuration, or planning a filename-normalization pass.
///
/// The kinds are deliberately a closed, fieldless set so that callers can
/// dispatch on the kind alone; the caller knows which document, field or
/// file name it handed in.
#[derive(Debug, Clone, Copy, PartialEq, Eq, Structural)]
pub enum Error {
    /// A bare number fell outside every recognized magnitude band.
    InvalidScalarValue,
    /// A unit suffix was not in the closed set of recognized suffixes.
    UnrecognizedUnit,
    /// The leading numeric run of a string scalar was not a well-formed
    /// decimal numeral (no digits, more than one point, or more fractional
    /// digits than the canonical resolution carries).
    MalformedNumericPrefix,
    /// A decoded quantity does not fit the canonical integer width.
    NarrowingOverflow,
    /// A legacy schema could not supply a required field.
    MissingRequiredField,
    /// A score was zero where a positive integer is required.
    InvalidScore,
    /// Two entries of one directory would normalize to the same file name.
    RenameCollision,
    /// A file name was not valid text.
    InvalidFilenameEncoding,
}

/// A unit suffix that neither the duration decoder nor the memory-size
/// decoder recognizes; carries the offending suffix verbatim.
#[derive(Debug, Clone, PartialEq, Eq)]
pub struct InvalidUnit(pub String);

} // verus!
