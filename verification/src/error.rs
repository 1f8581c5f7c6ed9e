//! The failures that dealing, reconstruction and decoding report.

use vstd::prelude::*;

verus! {

/// Why an operation was refused. No variant carries secret material.
#[derive(Clone, Copy, Debug, PartialEq, Eq, Structural)]
pub enum Error {
    /// The threshold is below two, the share count is below the threshold or
    /// above 255, or the element width does not fit the scheme.
    InvalidParameters,
    /// A share has the reserved identifier zero, or a value of the wrong
    /// length, or a value that is no canonical element.
    InvalidShare,
    /// Two shares of one reconstruction set carry the same identifier.
    DuplicateShare,
    /// Fewer shares than the threshold were supplied.
    SharingMinThreshold,
    /// Bytes or text that are no canonical encoding, a malformed length
    /// prefix, or a declared count that the payload does not match.
    InvalidEncoding,
    /// The seed drawn from the caller's random source is not 32 bytes long.
    InvalidRng,
}

} // verus!
