use vstd::prelude::*;

verus! {

/// Every way in which an operation of this library can fail.
#[derive(Debug, Clone, Copy, PartialEq, Eq, Structural)]
pub enum PngError {
    /// A chunk type holds a byte that is not an ASCII letter.
    InvalidCharacters,
    /// A chunk type text is not four characters long.
    WrongLength,
    /// Fewer bytes remain than a chunk declares.
    Truncated,
    /// The stream does not begin with the PNG signature.
    BadHeader,
    /// The CRC stored after a payload differs from the one computed over it.
    ChecksumMismatch,
    /// No chunk of the requested type is present.
    NotFound,
    /// A payload is not valid UTF-8.
    NotUtf8,
}

} // verus!
