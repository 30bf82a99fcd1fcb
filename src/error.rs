use vstd::prelude::*;

verus! {

/// The ways in which an operation of this library can fail.
#[derive(Debug, Clone, Copy, PartialEq, Eq, Structural)]
pub enum PngError {
    /// Bad file signature, truncated chunk frame or a length that overruns the input.
    Format,
    /// The stored CRC of a chunk does not match its type and data.
    Checksum,
    /// A chunk type text that is not four ASCII letters.
    Tag,
    /// No chunk of the requested type.
    NotFound,
    /// A payload that is not valid UTF-8 text.
    Encoding,
}

} // verus!
