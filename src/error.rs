//! What can go wrong while reading or writing.
use vstd::prelude::*;

verus! {

/// A failure that the transport under a stream reported; kept as it came.
#[verifier::external_type_specification]
#[verifier::external_body]
pub struct ExIoError(std::io::Error);

/// Why a read or a write did not complete.
#[derive(Debug)]
pub enum ByteError {
    /// The stream ended before a fixed-width value (an integer, or a length prefix) was complete.
    EndOfStream,
    /// The stream ended inside a string's payload, after its length prefix was read.
    TruncatedPayload,
    /// A string's payload is not valid UTF-8; the payload has been consumed.
    InvalidUtf8,
    /// A string's byte length does not fit in the chosen length prefix; nothing was written.
    LengthOverflow,
    /// The stream accepted none of the bytes it was offered.
    WriteZero,
    /// The transport under the stream failed.
    Io(std::io::Error),
}

} // verus!
