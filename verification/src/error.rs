use vstd::prelude::*;

verus! {

/// Everything that can make opening, reading or seeking fail.
#[derive(Copy, Clone, PartialEq, Eq, Debug, Structural)]
pub enum DsdError {
    /// Fewer bytes were left in the file than a fixed-size read needed.
    UnexpectedEof,
    /// A seek aimed before the start of the file or past the largest offset
    /// a file position can hold (`i64::MAX`).
    InvalidSeek,
    /// A size or an offset computed from the file's header fields does not fit
    /// in the integer type that holds it.
    SizeOverflow,
    /// The file's layout makes a quotient undefined (zero channels, zero block
    /// size or a zero-length DST frame).
    DegenerateLayout,
    /// DSDIFF: the file does not start with `FRM8`.
    NotFrm8,
    /// DSDIFF: the `FRM8` size does not fit when added to the 12 header bytes.
    Frm8SizeOverflow,
    /// DSDIFF: the form type is not `DSD `.
    NotDsdContainer,
    /// DSDIFF: the file ended where the id of a top-level chunk was expected.
    ChunkIdEof,
    /// DSDIFF: the file ended where the id of a `SND ` property subchunk was expected.
    SndSubchunkIdEof,
    /// DSDIFF: `CMPR` names neither `DSD ` nor `DST `.
    UnsupportedCmpr,
    /// DSDIFF: `CMPR` is shorter than four bytes.
    InvalidCmpr,
    /// DSDIFF: a `DST ` chunk does not start with a six-byte `FRTE` chunk.
    DstMissingFrte,
    /// DSDIFF: no `DSD ` or `DST ` sound data chunk was found.
    AudioChunkNotFound,
    /// DSDIFF: no usable `CHNL` property.
    ChnlMissing,
    /// DSDIFF: no usable `FS  ` property.
    FsMissing,
    /// DSDIFF: the `FRTE` frame rate is zero.
    InvalidDstFramerate,
    /// DSDIFF: a DST frame was found but no DST decoder is attached to the reader.
    DstDecoderNotInitialized,
    /// Fewer output buffers than channels were handed to `read`.
    NotEnoughChannelBuffers,
    /// The reader was used before a successful `open`.
    ReaderNotOpened,
    /// A sample index times the channel count does not fit in 64 bits.
    SeekOverflow,
    /// DSF: the file does not start with `DSD `.
    NotDsf,
    /// DSF: the `fmt ` chunk is missing.
    FmtChunkMissing,
    /// DSF: the format version is not 1.
    UnsupportedFormatVersion,
    /// DSF: the format id is not 0 (raw DSD).
    UnsupportedFormatId,
    /// DSF: the `data` chunk is missing.
    DataChunkMissing,
    /// The file starts with neither `DSD ` nor `FRM8`.
    UnknownDsdFormat,
}

} // verus!
