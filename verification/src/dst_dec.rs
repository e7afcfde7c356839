//! The error model of the native DST frame decoder.
use vstd::prelude::*;

verus! {

/// Why a DST frame could not be decoded.
#[derive(Debug, Clone, PartialEq, Eq)]
pub enum DecodeError {
    /// Attempted to read beyond the end of the provided DST frame.
    ReadPastEnd,
    /// The frame contains an illegal stuffing or arithmetic pattern.
    InvalidFrame(&'static str),
    /// The output buffer is too small for `channels * channel_frame_size` bytes.
    OutputTooSmall,
    /// The native decoder returned an unexpected status code.
    NativeError(i32),
}

/// What a status code of the native decoder means: `0` success, `-1` an
/// invalid frame, `-2` an output buffer that is too small, anything else an
/// unexpected native error.
pub open spec fn spec_decode_status(rv: i32) -> Result<(), DecodeError> {
    if rv == 0 {
        Ok(())
    } else if rv == -1 {
        Err(DecodeError::InvalidFrame("C++ decoder error"))
    } else if rv == -2 {
        Err(DecodeError::OutputTooSmall)
    } else {
        Err(DecodeError::NativeError(rv))
    }
}

/// Turn a status code of the native decoder into a result.
pub fn decode_status(rv: i32) -> (r: Result<(), DecodeError>)
    ensures
        r == spec_decode_status(rv),
{
    match rv {
        0 => Ok(()),
        -1 => Err(DecodeError::InvalidFrame("C++ decoder error")),
        -2 => Err(DecodeError::OutputTooSmall),
        n => Err(DecodeError::NativeError(n)),
    }
}

} // verus!
