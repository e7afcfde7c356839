//! Reading DSD (Direct Stream Digital) audio containers: DSF and DSDIFF (DFF).
//!
//! The readers work on the bytes of a whole file held in memory; they parse
//! the container headers, walk the chunk structure, collect metadata and hand
//! out de-interleaved per-channel sample bytes.

pub mod error;
pub mod stream;
pub mod meta;
pub mod id3_tag;
pub mod text;
pub mod dff_reader;
pub mod dsf_reader;
pub mod dst_dec;
pub mod detect;

pub use error::DsdError;
pub use meta::{DSDMeta, MetaPicture};
pub use detect::{detect_container, DsdContainer};

use vstd::prelude::*;

verus! {

/// Stream parameters reported by a reader when it opens a file.
#[derive(Copy, Clone, PartialEq, Eq, Default, Debug, Structural)]
pub struct DSDFormat {
    pub sampling_rate: u32,
    pub num_channels: u32,
    pub total_samples: u64,
    pub is_lsb_first: bool,
}

/// Two formats differ when their sampling rate or channel count differ; the
/// sample count and the bit order are not compared.
pub open spec fn spec_is_different(a: DSDFormat, b: DSDFormat) -> bool {
    a.sampling_rate != b.sampling_rate || a.num_channels != b.num_channels
}

/// Being different is symmetric, and no format is different from itself or
/// from one that has its sampling rate and channel count.
pub proof fn law_is_different(a: DSDFormat, b: DSDFormat)
    ensures
        spec_is_different(a, b) == spec_is_different(b, a),
        !spec_is_different(a, a),
        a.sampling_rate == b.sampling_rate && a.num_channels == b.num_channels ==> !spec_is_different(a, b),
{
}

impl DSDFormat {
    /// Whether the sampling rate or the channel count differ.
    pub fn is_different(&self, other: &Self) -> (r: bool)
        ensures
            r == spec_is_different(*self, *other),
    {
        self.sampling_rate != other.sampling_rate || self.num_channels != other.num_channels
    }
}

} // verus!
