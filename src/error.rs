use vstd::prelude::*;

verus! {

/// What went wrong while decoding a stream.
#[derive(Debug, Clone, Copy, PartialEq, Eq, Structural)]
pub enum ErrorCode {
    /// The byte source ended before a field was complete.
    UnexpectedEof,
    WrongMagic,
    InvalidMetadataType,
    FrameOutOfSync,
    FrameHeaderCrcMismatch,
    FrameSampleSizeUnknown,
    FrameBlockSizeUnknown,
    FrameChannelAssignmentUnknown,
    FrameCrcMismatch,
    SubframeReservedType,
    SubframeOutOfSync,
    ResidualCodingMethodUnknown,
    FixedLPCCoefficientUnknown,
    QLPPrecisionInvalid,
    LPCSignalRestoreFailure,
    FrameBufferUnallocated,
    /// The wasted-bits count leaves a subframe no sample bits.
    SampleSizeInvalid,
    /// A decoded sample does not fit in 32 signed bits.
    SampleOverflow,
}

/// An error of the decoder, tagged with its code.
#[derive(Debug, PartialEq, Eq)]
pub struct Error {
    pub code: ErrorCode,
}

impl Error {
    pub fn from_code(code: ErrorCode) -> (r: Error)
        ensures
            r.code == code,
    {
        Error { code }
    }
}

} // verus!
