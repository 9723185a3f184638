use vstd::prelude::*;

verus! {

/// The ways a read or a decode can fail.
#[derive(Debug, Clone, Copy, PartialEq, Eq, Structural)]
pub enum PackError {
    /// The source ended before a fixed-length or delimited field was complete.
    UnexpectedEof,
    /// The underlying byte stream could not be read (for instance, a corrupt
    /// compressed block).
    IoFailure,
    /// A value lies outside the range of its type, or a file name does not
    /// carry a parseable hash where one is expected.
    MalformedEncoding,
}

} // verus!
