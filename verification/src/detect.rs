//! Telling DSF from DSDIFF by the first four bytes of a file.
use vstd::prelude::*;

use crate::error::DsdError;
use crate::stream::be_value;

verus! {

/// `"DSD "` read as a big-endian number: the DSF magic, and the DSDIFF form type.
pub const ID_DSD: u32 = 0x4453_4420;

/// `"FRM8"` read as a big-endian number: the DSDIFF magic.
pub const ID_FRM8: u32 = 0x4652_4d38;

/// The two container formats.
#[derive(Copy, Clone, PartialEq, Eq, Debug, Structural)]
pub enum DsdContainer {
    Dsf,
    Dff,
}

/// The container that a file starting with `head` holds.
pub open spec fn spec_detect(head: Seq<u8>) -> Result<DsdContainer, DsdError> {
    if head.len() < 4 {
        Err(DsdError::UnexpectedEof)
    } else if be_value(head.take(4)) == ID_DSD {
        Ok(DsdContainer::Dsf)
    } else if be_value(head.take(4)) == ID_FRM8 {
        Ok(DsdContainer::Dff)
    } else {
        Err(DsdError::UnknownDsdFormat)
    }
}

/// Classify a file by its first four bytes: `DSD ` is DSF, `FRM8` is DSDIFF.
pub fn detect_container(head: &[u8]) -> (r: Result<DsdContainer, DsdError>)
    ensures
        r == spec_detect(head@),
{
    if head.len() < 4 {
        return Err(DsdError::UnexpectedEof);
    }
    let v: u32 = ((head[0] as u32) * 0x100_0000) + ((head[1] as u32) * 0x1_0000) + ((
    head[2] as u32) * 0x100) + (head[3] as u32);
    proof {
        let t = head@.take(4);
        assert(t.drop_last().drop_last().drop_last().drop_last() =~= Seq::<u8>::empty());
        assert(t.drop_last().drop_last().drop_last() =~= seq![head@[0]]);
        assert(t.drop_last().drop_last() =~= seq![head@[0], head@[1]]);
        assert(t.drop_last() =~= seq![head@[0], head@[1], head@[2]]);
        reveal_with_fuel(be_value, 5);
    }
    if v == ID_DSD {
        Ok(DsdContainer::Dsf)
    } else if v == ID_FRM8 {
        Ok(DsdContainer::Dff)
    } else {
        Err(DsdError::UnknownDsdFormat)
    }
}

} // verus!
