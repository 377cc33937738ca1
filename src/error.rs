use vstd::prelude::*;

verus! {

/// Why a byte stream or a delta script could not be read.
#[derive(Clone, Copy, Debug, PartialEq, Eq, Structural)]
pub enum FormatError {
    /// The stream ended inside a header, a frame or an op.
    Truncated,
    /// A frame or op tag that the format does not define.
    UnknownTag(u8),
    /// A color that is not six lowercase hex digits.
    BadHex,
    /// A skip run of length zero.
    EmptySkip,
    /// Delta ops that cover more pixels than a frame holds.
    Overrun,
    /// A header whose width or height is zero.
    ZeroSize,
    /// A stream that holds a header and no frame.
    NoFrames,
    /// A stream whose first frame is a delta frame.
    DeltaFirst,
    /// Delta ops that run out before every pixel of the frame is produced.
    OpsExhausted,
}

impl FormatError {
    /// An error that reading a single frame or op can raise.
    pub open spec fn in_frame(self) -> bool {
        ||| self is Truncated
        ||| self is UnknownTag
        ||| self is BadHex
        ||| self is EmptySkip
        ||| self is Overrun
    }
}

} // verus!
