//! Reading DSF (`.dsf`) files: a `DSD ` header chunk, a `fmt ` chunk, a
//! `data` chunk of per-channel blocks, and an optional ID3 tag at the end.
use vstd::prelude::*;

use crate::dff_reader::{read_count, rows, sat_add};
use crate::detect::ID_DSD;
use crate::error::DsdError;
use crate::meta::{spec_from_id3, DSDMeta, DSDMetaView};
use crate::stream::{
    be_value, can_read, le_value, lemma_le_bound, lemma_pow256_8, max_offset,
    pos_after_short_read, resize_zero, resized, seekable, ByteStream,
};
use crate::DSDFormat;

verus! {

/// `"fmt "` read as a big-endian number.
pub const ID_FMT: u32 = 0x666d_7420;
/// `"data"` read as a big-endian number.
pub const ID_DATA: u32 = 0x6461_7461;
/// `"ID3"` read as a big-endian number.
pub const ID_ID3: u32 = 0x49_4433;

/// A DSF reader over the bytes of a whole file.
pub struct DSFReader {
    file: ByteStream,
    buf: Vec<u8>,
    ch: usize,
    blocksize: usize,
    filled: usize,
    pos: usize,
    total_samples: u64,
    read_samples: u64,
    data_start: u64,
    metadata: Option<DSDMeta>,
}

/// The state of a `DSFReader`.
#[verifier::ext_equal]
pub struct DsfView {
    pub file: Seq<u8>,
    /// The read position in the file.
    pub fpos: u64,
    /// One block per channel, channel after channel.
    pub buf: Seq<u8>,
    pub ch: usize,
    /// Bytes per channel in a block.
    pub blocksize: usize,
    /// Bytes per channel held in `buf`.
    pub filled: usize,
    /// Bytes per channel of `buf` already handed out.
    pub pos: usize,
    /// Bytes per channel of sample data in the file (samples / 8).
    pub total_samples: u64,
    /// Bytes per channel handed out since the last seek (or the seek position).
    pub read_samples: u64,
    pub data_start: u64,
    pub metadata: Option<DSDMetaView>,
}

impl View for DSFReader {
    type V = DsfView;

    closed spec fn view(&self) -> DsfView {
        DsfView {
            file: self.file.data@,
            fpos: self.file.pos,
            buf: self.buf@,
            ch: self.ch,
            blocksize: self.blocksize,
            filled: self.filled,
            pos: self.pos,
            total_samples: self.total_samples,
            read_samples: self.read_samples,
            data_start: self.data_start,
            metadata: match self.metadata {
                Some(m) => Some(m@),
                None => None,
            },
        }
    }
}

/// `2` to the power `8 n`: the numbers that `n` bytes can spell.
pub open spec fn pow2_bytes(n: u64) -> nat {
    crate::stream::pow256(n as nat)
}

impl DsfView {
    /// The reader's invariant: positions fit in a file offset, and while
    /// buffered bytes are left the buffer holds a whole block per channel.
    pub open spec fn wf(self) -> bool {
        &&& self.stream_ok()
        &&& self.pos <= self.filled
        &&& self.pos < self.filled ==> self.filled <= self.blocksize && self.blocksize * self.ch
            <= self.buf.len()
    }

    /// The file fits in a file offset, and so does the position.
    pub open spec fn stream_ok(self) -> bool {
        &&& self.file.len() <= max_offset()
        &&& self.fpos <= max_offset()
    }

    /// The reader moved to file position `p`.
    pub open spec fn at(self, p: u64) -> DsfView {
        DsfView { fpos: p, ..self }
    }

    /// Whether `n` bytes can be read at the position.
    pub open spec fn fits(self, n: int) -> bool {
        can_read(self.file, self.fpos, n) && self.file.len() <= max_offset()
    }

    /// The `n` bytes at the position.
    pub open spec fn bytes(self, n: int) -> Seq<u8> {
        self.file.subrange(self.fpos as int, self.fpos + n)
    }

    /// The little-endian number in the `n` bytes at the position.
    pub open spec fn le(self, n: int) -> nat {
        le_value(self.bytes(n))
    }

    /// The four bytes at the position as a chunk id (big-endian).
    pub open spec fn id(self) -> nat {
        be_value(self.bytes(4))
    }

    /// Move on by `n` bytes.
    pub open spec fn adv(self, n: int) -> DsfView {
        self.at((self.fpos + n) as u64)
    }

    /// Where a read that ran out of bytes leaves the reader.
    pub open spec fn short(self) -> DsfView {
        self.at(pos_after_short_read(self.file, self.fpos))
    }

    /// The state of a reader that has not been opened.
    pub open spec fn initial(file: Seq<u8>) -> DsfView {
        DsfView {
            file: file,
            fpos: 0,
            buf: Seq::empty(),
            ch: 0,
            blocksize: 0,
            filled: 0,
            pos: 0,
            total_samples: 0,
            read_samples: 0,
            data_start: 0,
            metadata: None,
        }
    }
}


/// The tag size in an ID3v2 header, as the four size bytes are combined
/// (each shifted by seven bits per place, the bytes taken whole).
pub open spec fn spec_id3_size(h: Seq<u8>) -> u32 {
    ((h[6] as u32) << 21u32) | ((h[7] as u32) << 14u32) | ((h[8] as u32) << 7u32) | (h[9] as u32)
}

/// Look for an ID3v2 tag at `offset` and, when its header and body can be
/// read, take the metadata from it; the read position is left where it was.
pub open spec fn spec_read_id3_at(s: DsfView, offset: u64) -> DsfView {
    if !seekable(offset as int) {
        s
    } else {
        let s1 = s.at(offset);
        if !s1.fits(10) {
            s
        } else {
            let header = s1.bytes(10);
            if be_value(header.take(3)) != ID_ID3 {
                s
            } else {
                let size = spec_id3_size(header);
                let s2 = s1.adv(10);
                if !s2.fits(size as int) {
                    s
                } else {
                    DsfView { metadata: Some(spec_from_id3(header + s2.bytes(size as int))), ..s }
                }
            }
        }
    }
}

/// `v as i64`, as a number.
pub open spec fn as_i64(v: u64) -> int {
    if v <= 0x7fff_ffff_ffff_ffff {
        v as int
    } else {
        v - 0x1_0000_0000_0000_0000
    }
}

/// A little-endian number of `n` bytes: the reader after it, and the number
/// (`None`: the file ended).
pub open spec fn rd(s: DsfView, n: int) -> (DsfView, Option<nat>) {
    if s.fits(n) {
        (s.adv(n), Some(s.le(n)))
    } else {
        (s.short(), None)
    }
}

/// A four-byte chunk id (big-endian).
pub open spec fn rd_id(s: DsfView) -> (DsfView, Option<nat>) {
    if s.fits(4) {
        (s.adv(4), Some(s.id()))
    } else {
        (s.short(), None)
    }
}

/// The part of opening after the `fmt ` fields: step to the `data` chunk,
/// note where the sample data starts, size the block buffer, find the tag.
pub open spec fn spec_open_data(s: DsfView, fmt_size: u64, meta_ptr: u64) -> (
    DsfView,
    Result<(), DsdError>,
) {
    let delta = as_i64(fmt_size) - 48;
    if delta < -0x8000_0000_0000_0000 {
        (s, Err(DsdError::SizeOverflow))
    } else if !seekable(s.fpos + delta) {
        (s, Err(DsdError::InvalidSeek))
    } else {
        let (s1, id) = rd_id(s.at((s.fpos + delta) as u64));
        match id {
            None => (s1, Err(DsdError::UnexpectedEof)),
            Some(id) => if id != ID_DATA {
                (s1, Err(DsdError::DataChunkMissing))
            } else {
                let (s2, size) = rd(s1, 8);
                match size {
                    None => (s2, Err(DsdError::UnexpectedEof)),
                    Some(_) => {
                        let s3 = DsfView { data_start: s2.fpos, ..s2 };
                        if s3.blocksize * s3.ch > usize::MAX {
                            (s3, Err(DsdError::SizeOverflow))
                        } else {
                            let s4 = DsfView { buf: resized(s3.buf, s3.blocksize * s3.ch), ..s3 };
                            if meta_ptr != 0 {
                                (spec_read_id3_at(s4, meta_ptr), Ok(()))
                            } else {
                                (s4, Ok(()))
                            }
                        }
                    },
                }
            },
        }
    }
}

/// The `fmt ` fields from the channel type on, in a reader positioned at them.
pub open spec fn spec_open_fmt(s: DsfView, f: DSDFormat, fmt_size: u64, meta_ptr: u64) -> (
    DsfView,
    DSDFormat,
    Result<(), DsdError>,
) {
    let (s1, channel_type) = rd(s, 4);
    if channel_type is None {
        (s1, f, Err(DsdError::UnexpectedEof))
    } else {
        let (s2, channels) = rd(s1, 4);
        match channels {
            None => (s2, f, Err(DsdError::UnexpectedEof)),
            Some(channels) => {
                let f1 = DSDFormat { num_channels: channels as u32, ..f };
                let (s3, rate) = rd(DsfView { ch: channels as u32 as usize, ..s2 }, 4);
                match rate {
                    None => (s3, f1, Err(DsdError::UnexpectedEof)),
                    Some(rate) => {
                        let f2 = DSDFormat { sampling_rate: rate as u32, ..f1 };
                        let (s4, bits) = rd(s3, 4);
                        match bits {
                            None => (s4, f2, Err(DsdError::UnexpectedEof)),
                            Some(bits) => {
                                let f3 = DSDFormat { is_lsb_first: bits == 1, ..f2 };
                                let (s5, count) = rd(s4, 8);
                                match count {
                                    None => (s5, f3, Err(DsdError::UnexpectedEof)),
                                    Some(count) => {
                                        let f4 = DSDFormat { total_samples: count as u64, ..f3 };
                                        let (s6, block) = rd(
                                            DsfView { total_samples: (count as u64) / 8, ..s5 },
                                            4,
                                        );
                                        match block {
                                            None => (s6, f4, Err(DsdError::UnexpectedEof)),
                                            Some(block) => {
                                                let (s7, r7) = spec_open_data(
                                                    DsfView { blocksize: block as usize, ..s6 },
                                                    fmt_size,
                                                    meta_ptr,
                                                );
                                                (s7, f4, r7)
                                            },
                                        }
                                    },
                                }
                            },
                        }
                    },
                }
            },
        }
    }
}

/// The `DSD ` chunk and the `fmt ` chunk up to the format id.
pub open spec fn spec_open_head(s: DsfView) -> (DsfView, Result<(u64, u64), DsdError>) {
    let (s1, ident) = rd_id(s);
    match ident {
        None => (s1, Err(DsdError::UnexpectedEof)),
        Some(ident) => if ident != ID_DSD {
            (s1, Err(DsdError::NotDsf))
        } else {
            let (s2, a) = rd(s1, 8);
            let (s3, b) = rd(s2, 8);
            let (s4, mp) = rd(s3, 8);
            if a is None {
                (s2, Err(DsdError::UnexpectedEof))
            } else if b is None {
                (s3, Err(DsdError::UnexpectedEof))
            } else if mp is None {
                (s4, Err(DsdError::UnexpectedEof))
            } else {
                let (s5, fid) = rd_id(s4);
                match fid {
                    None => (s5, Err(DsdError::UnexpectedEof)),
                    Some(fid) => if fid != ID_FMT {
                        (s5, Err(DsdError::FmtChunkMissing))
                    } else {
                        let (s6, fmt_size) = rd(s5, 8);
                        let (s7, version) = rd(s6, 4);
                        if fmt_size is None {
                            (s6, Err(DsdError::UnexpectedEof))
                        } else if version is None {
                            (s7, Err(DsdError::UnexpectedEof))
                        } else if version.unwrap() != 1 {
                            (s7, Err(DsdError::UnsupportedFormatVersion))
                        } else {
                            let (s8, format_id) = rd(s7, 4);
                            match format_id {
                                None => (s8, Err(DsdError::UnexpectedEof)),
                                Some(format_id) => if format_id != 0 {
                                    (s8, Err(DsdError::UnsupportedFormatId))
                                } else {
                                    (s8, Ok((fmt_size.unwrap() as u64, mp.unwrap() as u64)))
                                },
                            }
                        }
                    },
                }
            }
        },
    }
}

/// Opening a DSF file (bytes buffered before are dropped).
pub open spec fn spec_open(s: DsfView, f: DSDFormat) -> (DsfView, DSDFormat, Result<(), DsdError>) {
    let (s1, r1) = spec_open_head(DsfView { pos: 0, filled: 0, ..s });
    match r1 {
        Err(e) => (s1, f, Err(e)),
        Ok((fmt_size, meta_ptr)) => spec_open_fmt(s1, f, fmt_size, meta_ptr),
    }
}

impl DSFReader {
    /// A reader over the bytes of a DSF file, positioned at its start.
    pub fn new(data: Vec<u8>) -> (r: DSFReader)
        requires
            data@.len() <= max_offset(),
        ensures
            r@ == DsfView::initial(data@),
            r@.wf(),
    {
        let r = DSFReader {
            file: ByteStream::new(data),
            buf: Vec::new(),
            ch: 0,
            blocksize: 0,
            filled: 0,
            pos: 0,
            total_samples: 0,
            read_samples: 0,
            data_start: 0,
            metadata: None,
        };
        assert(r@ =~= DsfView::initial(data@));
        r
    }

    /// A reader over an empty file.
    pub fn empty() -> (r: DSFReader)
        ensures
            r@ == DsfView::initial(Seq::empty()),
            r@.wf(),
    {
        DSFReader::new(Vec::new())
    }

    /// Read a little-endian number of `n <= 8` bytes.
    fn read_le(&mut self, n: u64) -> (r: Result<u64, DsdError>)
        requires
            old(self)@.stream_ok(),
            n <= 8,
        ensures
            final(self)@.pos == old(self)@.pos,
            final(self)@.filled == old(self)@.filled,
            final(self)@.stream_ok(),
            old(self)@.fits(n as int) ==> r == Ok::<u64, DsdError>(old(self)@.le(n as int) as u64)
                && final(self)@ == old(self)@.adv(n as int) && old(self)@.le(n as int) < pow2_bytes(n),
            !old(self)@.fits(n as int) ==> r == Err::<u64, DsdError>(DsdError::UnexpectedEof)
                && final(self)@ == old(self)@.short(),
    {
        proof {
            if old(self)@.fits(n as int) {
                lemma_le_bound(old(self)@.bytes(n as int));
                lemma_pow256_8();
                crate::stream::lemma_pow256_mono(n as nat, 8);
            }
        }
        self.file.read_le(n)
    }

    /// Read a four-byte chunk id (big-endian).
    fn read_id(&mut self) -> (r: Result<u32, DsdError>)
        requires
            old(self)@.stream_ok(),
        ensures
            final(self)@.pos == old(self)@.pos,
            final(self)@.filled == old(self)@.filled,
            final(self)@.stream_ok(),
            old(self)@.fits(4) ==> r == Ok::<u32, DsdError>(old(self)@.id() as u32)
                && final(self)@ == old(self)@.adv(4) && old(self)@.id() < 0x1_0000_0000,
            !old(self)@.fits(4) ==> r == Err::<u32, DsdError>(DsdError::UnexpectedEof)
                && final(self)@ == old(self)@.short(),
    {
        proof {
            if old(self)@.fits(4) {
                crate::stream::lemma_be_bound(old(self)@.bytes(4));
                lemma_pow256_8();
            }
        }
        let v = match self.file.read_be(4) {
            Ok(v) => v,
            Err(e) => return Err(e),
        };
        Ok(v as u32)
    }
}


impl DSFReader {
    /// Look for an ID3v2 tag at `offset` and take the metadata from it (see
    /// `spec_read_id3_at`).
    fn read_id3_at(&mut self, offset: u64)
        requires
            old(self)@.stream_ok(),
        ensures
            final(self)@.pos == old(self)@.pos,
            final(self)@.filled == old(self)@.filled,
            final(self)@.stream_ok(),
            final(self)@ == spec_read_id3_at(old(self)@, offset),
    {
        let saved = self.file.tell();
        if self.file.seek_to(offset).is_err() {
            let _ = self.file.seek_to(saved);
            return;
        }
        let header = match self.file.read_vec(10) {
            Ok(h) => h,
            Err(_) => {
                let _ = self.file.seek_to(saved);
                return;
            },
        };
        proof {
            let t = header@.take(3);
            assert(t.drop_last().drop_last().drop_last() =~= Seq::<u8>::empty());
            assert(t.drop_last().drop_last() =~= seq![header@[0]]);
            assert(t.drop_last() =~= seq![header@[0], header@[1]]);
            reveal_with_fuel(be_value, 4);
        }
        let magic: u32 = (header[0] as u32) * 0x1_0000 + (header[1] as u32) * 0x100
            + (header[2] as u32);
        if magic != ID_ID3 {
            let _ = self.file.seek_to(saved);
            return;
        }
        let size: u32 = ((header[6] as u32) << 21u32) | ((header[7] as u32) << 14u32) | ((
        header[8] as u32) << 7u32) | (header[9] as u32);
        let mut raw = header;
        match self.file.read_vec(size as u64) {
            Ok(mut body) => {
                raw.append(&mut body);
                self.metadata = Some(DSDMeta::from_id3(raw));
            },
            Err(_) => {},
        }
        let _ = self.file.seek_to(saved);
    }

    /// The `DSD ` chunk and the `fmt ` chunk up to the format id.
    fn open_head(&mut self) -> (r: Result<(u64, u64), DsdError>)
        requires
            old(self)@.stream_ok(),
        ensures
            final(self)@.pos == old(self)@.pos,
            final(self)@.filled == old(self)@.filled,
            final(self)@.stream_ok(),
            (final(self)@, r) == spec_open_head(old(self)@),
    {
        proof {
            lemma_pow256_8();
        }
        let ident = match self.read_id() {
            Ok(v) => v,
            Err(e) => return Err(e),
        };
        if ident != ID_DSD {
            return Err(DsdError::NotDsf);
        }
        let _dsd_chunk_size = match self.read_le(8) {
            Ok(v) => v,
            Err(e) => return Err(e),
        };
        let _total_file_size = match self.read_le(8) {
            Ok(v) => v,
            Err(e) => return Err(e),
        };
        let metadata_pointer = match self.read_le(8) {
            Ok(v) => v,
            Err(e) => return Err(e),
        };
        let fmt_ident = match self.read_id() {
            Ok(v) => v,
            Err(e) => return Err(e),
        };
        if fmt_ident != ID_FMT {
            return Err(DsdError::FmtChunkMissing);
        }
        let fmt_size = match self.read_le(8) {
            Ok(v) => v,
            Err(e) => return Err(e),
        };
        let format_version = match self.read_le(4) {
            Ok(v) => v,
            Err(e) => return Err(e),
        };
        if format_version != 1 {
            return Err(DsdError::UnsupportedFormatVersion);
        }
        let format_id = match self.read_le(4) {
            Ok(v) => v,
            Err(e) => return Err(e),
        };
        if format_id != 0 {
            return Err(DsdError::UnsupportedFormatId);
        }
        Ok((fmt_size, metadata_pointer))
    }

    /// The rest of opening after the `fmt ` fields (see `spec_open_data`).
    fn open_data(&mut self, fmt_size: u64, meta_ptr: u64) -> (r: Result<(), DsdError>)
        requires
            old(self)@.stream_ok(),
        ensures
            final(self)@.pos == old(self)@.pos,
            final(self)@.filled == old(self)@.filled,
            final(self)@.stream_ok(),
            (final(self)@, r) == spec_open_data(old(self)@, fmt_size, meta_ptr),
    {
        proof {
            lemma_pow256_8();
        }
        let delta: i128 = if fmt_size <= 0x7fff_ffff_ffff_ffffu64 {
            fmt_size as i128 - 48
        } else {
            fmt_size as i128 - 0x1_0000_0000_0000_0000i128 - 48
        };
        if delta < -0x8000_0000_0000_0000i128 {
            return Err(DsdError::SizeOverflow);
        }
        match self.file.seek_by(delta as i64) {
            Ok(_) => {},
            Err(e) => return Err(e),
        }
        let data_ident = match self.read_id() {
            Ok(v) => v,
            Err(e) => return Err(e),
        };
        if data_ident != ID_DATA {
            return Err(DsdError::DataChunkMissing);
        }
        let _data_size = match self.read_le(8) {
            Ok(v) => v,
            Err(e) => return Err(e),
        };
        self.data_start = self.file.tell();
        let n = match self.blocksize.checked_mul(self.ch) {
            Some(n) => n,
            None => return Err(DsdError::SizeOverflow),
        };
        resize_zero(&mut self.buf, n);
        if meta_ptr != 0 {
            self.read_id3_at(meta_ptr);
        }
        Ok(())
    }

    /// The `fmt ` fields from the channel type on (see `spec_open_fmt`).
    fn open_fmt(&mut self, format: &mut DSDFormat, fmt_size: u64, meta_ptr: u64) -> (r: Result<
        (),
        DsdError,
    >)
        requires
            old(self)@.stream_ok(),
        ensures
            final(self)@.pos == old(self)@.pos,
            final(self)@.filled == old(self)@.filled,
            final(self)@.stream_ok(),
            (final(self)@, *final(format), r) == spec_open_fmt(
                old(self)@,
                *old(format),
                fmt_size,
                meta_ptr,
            ),
    {
        proof {
            lemma_pow256_8();
        }
        let _channel_type = match self.read_le(4) {
            Ok(v) => v,
            Err(e) => return Err(e),
        };
        let channels = match self.read_le(4) {
            Ok(v) => v as u32,
            Err(e) => return Err(e),
        };
        format.num_channels = channels;
        self.ch = channels as usize;
        let sampling_freq = match self.read_le(4) {
            Ok(v) => v as u32,
            Err(e) => return Err(e),
        };
        format.sampling_rate = sampling_freq;
        let bits_per_sample = match self.read_le(4) {
            Ok(v) => v,
            Err(e) => return Err(e),
        };
        format.is_lsb_first = bits_per_sample == 1;
        let sample_count = match self.read_le(8) {
            Ok(v) => v,
            Err(e) => return Err(e),
        };
        format.total_samples = sample_count;
        self.total_samples = sample_count / 8;
        let block_size = match self.read_le(4) {
            Ok(v) => v as usize,
            Err(e) => return Err(e),
        };
        self.blocksize = block_size;
        self.open_data(fmt_size, meta_ptr)
    }

    /// Open the file: the `DSD ` chunk, the `fmt ` chunk and the `data` chunk
    /// header (see `spec_open`). `format` receives the channel count, the
    /// sampling rate, the sample count and the bit order; an ID3 tag found at
    /// the metadata offset gives the metadata. Bytes buffered by earlier
    /// reads are dropped first, so that a reader opened again never hands out
    /// bytes laid out for another block size or channel count.
    pub fn open(&mut self, format: &mut DSDFormat) -> (r: Result<(), DsdError>)
        requires
            old(self)@.wf(),
        ensures
            (final(self)@, *final(format), r) == spec_open(old(self)@, *old(format)),
            final(self)@.wf(),
    {
        self.pos = 0;
        self.filled = 0;
        let (fmt_size, meta_ptr) = match self.open_head() {
            Ok(v) => v,
            Err(e) => return Err(e),
        };
        self.open_fmt(format, fmt_size, meta_ptr)
    }

    /// The number of channels found by `open`.
    pub fn channels(&self) -> (n: usize)
        ensures
            n == self@.ch,
    {
        self.ch
    }

    /// The metadata, once an ID3 tag has been read.
    pub fn get_metadata(&self) -> (m: Option<&DSDMeta>)
        ensures
            match m {
                Some(x) => self@.metadata == Some(x@),
                None => self@.metadata is None,
            },
    {
        self.metadata.as_ref()
    }

    /// Bytes per channel handed out, counted from the start of the sample data.
    pub fn get_position_frames(&self) -> (n: u64)
        ensures
            n == self@.read_samples,
    {
        self.read_samples
    }

    /// Bytes per channel of sample data in the file.
    pub fn total_samples(&self) -> (n: u64)
        ensures
            n == self@.total_samples,
    {
        self.total_samples
    }

    /// Whether every sample byte has been handed out.
    pub fn eof(&self) -> (b: bool)
        ensures
            b == (self@.read_samples >= self@.total_samples),
    {
        self.read_samples >= self.total_samples
    }
}


// ---------------------------------------------------------------------------
// Reading and seeking

/// Row `row` after receiving `size` bytes of channel `c`'s block in `buf`
/// (blocks of `bs` bytes), from byte `pos` of the block, at byte `w` on.
pub open spec fn dsf_deal_row(row: Seq<u8>, buf: Seq<u8>, bs: int, c: int, pos: int, w: int, size: int) -> Seq<u8> {
    Seq::new(
        row.len(),
        |k: int|
            if w <= k < w + size {
                buf[bs * c + pos + k - w]
            } else {
                row[k]
            },
    )
}

/// Every channel's row receives `size` bytes of its block.
pub open spec fn spec_dsf_deal(out: Seq<Seq<u8>>, buf: Seq<u8>, bs: int, ch: int, pos: int, w: int, size: int) -> Seq<
    Seq<u8>,
> {
    Seq::new(
        out.len(),
        |c: int|
            if c < ch {
                dsf_deal_row(out[c], buf, bs, c, pos, w, size)
            } else {
                out[c]
            },
    )
}

/// How far the file still goes past the position.
pub open spec fn file_left(s: DsfView) -> nat {
    if s.fpos < s.file.len() {
        (s.file.len() - s.fpos) as nat
    } else {
        0
    }
}

/// Hand out up to `want` more bytes per channel, `read_bytes` having been
/// handed out by this read so far, fetching a block per channel as the
/// buffer runs dry.
pub open spec fn spec_dsf_read_loop(s: DsfView, out: Seq<Seq<u8>>, read_bytes: int, want: int) -> (
    DsfView,
    Seq<Seq<u8>>,
    Result<usize, DsdError>,
)
    decreases want, file_left(s),
    when s.pos <= s.filled && s.file.len() <= max_offset() && 0 <= want && 0 <= read_bytes
{
    if want == 0 {
        let rs = s.read_samples + read_bytes;
        (
            DsfView {
                read_samples: if rs > u64::MAX {
                    u64::MAX
                } else {
                    rs as u64
                },
                ..s
            },
            out,
            Ok(read_bytes as usize),
        )
    } else if s.pos == s.filled && s.blocksize * s.ch > usize::MAX {
        (s, out, Err(DsdError::SizeOverflow))
    } else {
        let (s1, stop) = if s.pos == s.filled {
            let to_read = s.blocksize * s.ch;
            let b1 = resized(s.buf, to_read);
            let n = read_count(s.file, s.fpos, to_read);
            if n == 0 {
                (DsfView { buf: b1, ..s }, true)
            } else {
                (
                    DsfView {
                        buf: s.file.subrange(s.fpos as int, s.fpos + n) + b1.skip(n),
                        fpos: (s.fpos + n) as u64,
                        filled: (n / (s.ch as int)) as usize,
                        pos: 0,
                        ..s
                    },
                    false,
                )
            }
        } else {
            (s, false)
        };
        if stop {
            let rs = s1.read_samples + read_bytes;
            (
                DsfView {
                    read_samples: if rs > u64::MAX {
                        u64::MAX
                    } else {
                        rs as u64
                    },
                    ..s1
                },
                out,
                Ok(read_bytes as usize),
            )
        } else {
            let avail = s1.filled - s1.pos;
            let size = if avail <= want {
                avail
            } else {
                want
            };
            let out2 = spec_dsf_deal(
                out,
                s1.buf,
                s1.blocksize as int,
                s1.ch as int,
                s1.pos as int,
                read_bytes,
                size,
            );
            spec_dsf_read_loop(
                DsfView { pos: (s1.pos + size) as usize, ..s1 },
                out2,
                read_bytes + size,
                want - size,
            )
        }
    }
}

/// A read of up to `bpc` bytes per channel into the per-channel rows `out`.
pub open spec fn spec_dsf_read(s: DsfView, out: Seq<Seq<u8>>, bpc: usize) -> (
    DsfView,
    Seq<Seq<u8>>,
    Result<usize, DsdError>,
) {
    spec_dsf_read_loop(s, out, 0, bpc as int)
}

/// Seek to the block that holds sample byte `sample_index` of each channel:
/// the position is rounded down to a block boundary.
pub open spec fn spec_dsf_seek(s: DsfView, sample_index: u64) -> (DsfView, Result<(), DsdError>) {
    if sample_index * s.ch > u64::MAX {
        (s, Err(DsdError::SeekOverflow))
    } else if s.blocksize * s.ch > usize::MAX {
        (s, Err(DsdError::SizeOverflow))
    } else if s.blocksize * s.ch == 0 {
        (s, Err(DsdError::DegenerateLayout))
    } else {
        let total = sample_index * s.ch;
        let bb = s.blocksize * s.ch;
        let aligned = (total / bb) * bb;
        let target = s.data_start + aligned;
        if !seekable(target) {
            (s, Err(DsdError::InvalidSeek))
        } else {
            (
                DsfView {
                    fpos: target as u64,
                    read_samples: (aligned / (s.ch as int)) as u64,
                    pos: 0,
                    filled: 0,
                    ..s
                },
                Ok(()),
            )
        }
    }
}

impl DSFReader {
    /// Hand out `size` buffered bytes of each channel's block, at byte `written` on.
    fn deal(&self, data: &mut Vec<Vec<u8>>, written: usize, size: usize)
        requires
            self@.wf(),
            old(data)@.len() >= self.ch,
            forall|c: int| 0 <= c < self.ch ==> old(data)@[c]@.len() >= written + size,
            self.pos + size <= self.filled,
        ensures
            rows(final(data)@) == spec_dsf_deal(
                rows(old(data)@),
                self.buf@,
                self.blocksize as int,
                self.ch as int,
                self.pos as int,
                written as int,
                size as int,
            ),
            final(data)@.len() == old(data)@.len(),
            forall|c: int|
                0 <= c < old(data)@.len() ==> #[trigger] final(data)@[c]@.len() == old(
                    data,
                )@[c]@.len(),
    {
        let ch = self.ch;
        let bs = self.blocksize;
        let p = self.pos;
        let blen = self.buf.len();
        let ghost d0 = rows(data@);
        let ghost target = spec_dsf_deal(
            d0,
            self.buf@,
            bs as int,
            ch as int,
            p as int,
            written as int,
            size as int,
        );
        let mut c: usize = 0;
        while c < ch
            invariant
                self@.wf(),
                ch == self.ch,
                bs == self.blocksize,
                p == self.pos,
                p + size <= self.filled,
                blen == self.buf@.len(),
                d0 == rows(old(data)@),
                target == spec_dsf_deal(
                    d0,
                    self.buf@,
                    bs as int,
                    ch as int,
                    p as int,
                    written as int,
                    size as int,
                ),
                data@.len() == d0.len(),
                d0.len() >= ch,
                forall|x: int| 0 <= x < ch ==> d0[x].len() >= written + size,
                c <= ch,
                forall|x: int| 0 <= x < c ==> #[trigger] data@[x]@ == target[x],
                forall|x: int| c <= x < d0.len() ==> #[trigger] data@[x]@ == d0[x],
            decreases ch - c,
        {
            let mut row: Vec<u8> = Vec::new();
            std::mem::swap(&mut row, &mut data[c]);
            let ghost row0 = row@;
            let row_len = row.len();
            proof {
                if size > 0 {
                    assert(bs * c + p + size <= bs * ch) by (nonlinear_arith)
                        requires
                            c < ch,
                            p + size <= bs,
                    ;
                }
            }
            let mut k: usize = 0;
            while k < size
                invariant
                    self@.wf(),
                    ch == self.ch,
                    bs == self.blocksize,
                    p == self.pos,
                    c < ch,
                    p + size <= self.filled,
                    size > 0 ==> bs * c + p + size <= bs * ch,
                    blen == self.buf@.len(),
                    row@.len() == row0.len(),
                    row_len == row0.len(),
                    row0.len() >= written + size,
                    k <= size,
                    forall|j: int|
                        0 <= j < row0.len() ==> #[trigger] row@[j] == if written <= j < written + k {
                            self.buf@[bs * c + p + j - written]
                        } else {
                            row0[j]
                        },
                decreases size - k,
            {
                let src: usize = bs * c + p + k;
                row.set(written + k, self.buf[src]);
                k = k + 1;
            }
            assert(row@ =~= dsf_deal_row(row0, self.buf@, bs as int, c as int, p as int, written as int, size as int));
            std::mem::swap(&mut row, &mut data[c]);
            c = c + 1;
        }
        assert(rows(data@) =~= target);
    }

    /// Hand out up to `bytes_per_channel` sample bytes to each channel's row
    /// and return how many (see `spec_dsf_read`).
    pub fn read(&mut self, data: &mut Vec<Vec<u8>>, bytes_per_channel: usize) -> (r: Result<
        usize,
        DsdError,
    >)
        requires
            old(self)@.wf(),
            old(data)@.len() >= old(self)@.ch,
            forall|c: int| 0 <= c < old(self)@.ch ==> #[trigger] old(data)@[c]@.len() >= bytes_per_channel,
        ensures
            final(self)@.wf(),
            (final(self)@, rows(final(data)@), r) == spec_dsf_read(
                old(self)@,
                rows(old(data)@),
                bytes_per_channel,
            ),
    {
        let ghost s0 = self@;
        let ghost d0 = rows(data@);
        let mut read_bytes: usize = 0;
        let mut want: usize = bytes_per_channel;
        while want > 0
            invariant
                self@.wf(),
                self.ch == s0.ch,
                self.blocksize == s0.blocksize,
                self@.file == s0.file,
                s0 == old(self)@,
                d0 == rows(old(data)@),
                data@.len() == d0.len(),
                d0.len() >= self.ch,
                forall|c: int| 0 <= c < self.ch ==> #[trigger] data@[c]@.len() >= bytes_per_channel,
                read_bytes + want == bytes_per_channel,
                spec_dsf_read_loop(self@, rows(data@), read_bytes as int, want as int)
                    == spec_dsf_read_loop(s0, d0, 0, bytes_per_channel as int),
            decreases want, file_left(self@),
        {
            if self.pos == self.filled {
                let to_read = match self.blocksize.checked_mul(self.ch) {
                    Some(n) => n,
                    None => return Err(DsdError::SizeOverflow),
                };
                resize_zero(&mut self.buf, to_read);
                let ghost b1 = self.buf@;
                let n = self.file.read_into(&mut self.buf);
                if n == 0 {
                    proof {
                        assert(self.buf@ =~= self.buf@.skip(0));
                        assert(b1 =~= b1.skip(0));
                    }
                    self.read_samples = self.read_samples.saturating_add(read_bytes as u64);
                    return Ok(read_bytes);
                }
                proof {
                    assert(self.buf@ =~= self.buf@.take(n as int) + self.buf@.skip(n as int));
                    assert(self.ch > 0) by (nonlinear_arith)
                        requires
                            n > 0,
                            n <= self.blocksize * self.ch,
                    ;
                    assert(n / self.ch <= self.blocksize) by (nonlinear_arith)
                        requires
                            self.ch > 0,
                            n <= self.blocksize * self.ch,
                    ;
                }
                self.filled = n / self.ch;
                self.pos = 0;
            }
            let available = self.filled - self.pos;
            let size = if available <= want {
                available
            } else {
                want
            };
            self.deal(data, read_bytes, size);
            self.pos = self.pos + size;
            want = want - size;
            read_bytes = read_bytes + size;
        }
        self.read_samples = self.read_samples.saturating_add(read_bytes as u64);
        Ok(read_bytes)
    }

    /// Seek to the block holding sample byte `sample_index` of each channel
    /// (see `spec_dsf_seek`).
    pub fn seek_samples(&mut self, sample_index: u64) -> (r: Result<(), DsdError>)
        requires
            old(self)@.wf(),
        ensures
            final(self)@.wf(),
            (final(self)@, r) == spec_dsf_seek(old(self)@, sample_index),
    {
        let ch = self.ch as u64;
        if ch != 0 && sample_index > u64::MAX / ch {
            proof {
                assert(sample_index * ch > u64::MAX) by (nonlinear_arith)
                    requires
                        ch > 0,
                        sample_index > u64::MAX / ch,
                ;
            }
            return Err(DsdError::SeekOverflow);
        }
        proof {
            if ch != 0 {
                assert(sample_index * ch <= u64::MAX) by (nonlinear_arith)
                    requires
                        ch > 0,
                        sample_index <= u64::MAX / ch,
                ;
            } else {
                assert(sample_index * ch == 0) by (nonlinear_arith)
                    requires
                        ch == 0,
                ;
            }
        }
        let total_bytes = sample_index * ch;
        let block = match self.blocksize.checked_mul(self.ch) {
            Some(b) => b,
            None => return Err(DsdError::SizeOverflow),
        };
        if block == 0 {
            return Err(DsdError::DegenerateLayout);
        }
        let block_bytes = block as u64;
        proof {
            assert((total_bytes / block_bytes) * block_bytes <= total_bytes) by (nonlinear_arith)
                requires
                    block_bytes > 0,
            ;
        }
        let aligned = (total_bytes / block_bytes) * block_bytes;
        if aligned > u64::MAX - self.data_start {
            return Err(DsdError::InvalidSeek);
        }
        match self.file.seek_to(self.data_start + aligned) {
            Ok(_) => {},
            Err(e) => return Err(e),
        }
        proof {
            assert(self.ch > 0) by (nonlinear_arith)
                requires
                    self.blocksize * self.ch > 0,
            ;
        }
        self.read_samples = aligned / ch;
        self.pos = 0;
        self.filled = 0;
        Ok(())
    }

    /// Go back to the first sample.
    pub fn reset(&mut self) -> (r: Result<(), DsdError>)
        requires
            old(self)@.wf(),
        ensures
            final(self)@.wf(),
            (final(self)@, r) == spec_dsf_seek(old(self)@, 0),
    {
        self.seek_samples(0)
    }
}


// ---------------------------------------------------------------------------
// Laws of seeking and reading


/// How many blocks of `bs` bytes hold `want` bytes.
pub open spec fn blocks_for(want: int, bs: int) -> int {
    (want + bs - 1) / bs
}

/// Where byte `j` of channel `c`'s data lies, counted from a block boundary,
/// in a file of blocks of `bs` bytes for each of `ch` channels in turn.
pub open spec fn block_offset(j: int, c: int, bs: int, ch: int) -> int {
    (j / bs) * (bs * ch) + c * bs + j % bs
}

/// A seek puts the position at the start of the block that holds sample byte
/// `k` of each channel: the sample position becomes `k` rounded down to a
/// multiple of the block size, and the file position the start of that block.
pub proof fn law_dsf_seek_aligns(s: DsfView, k: u64)
    requires
        spec_dsf_seek(s, k).1 is Ok,
    ensures
        ({
            let s1 = spec_dsf_seek(s, k).0;
            let bs = s.blocksize as int;
            &&& bs > 0
            &&& s1.read_samples == (k as int / bs) * bs
            &&& s1.fpos == s.data_start + (k as int / bs) * (bs * s.ch)
            &&& s1.pos == 0
            &&& s1.filled == 0
        }),
{
    let ch = s.ch as int;
    let bs = s.blocksize as int;
    assert(bs > 0 && ch > 0) by (nonlinear_arith)
        requires
            bs * ch != 0,
            bs >= 0,
            ch >= 0,
    ;
    let total = k * ch;
    let bb = bs * ch;
    vstd::arithmetic::div_mod::lemma_div_multiples_vanish_quotient(ch, k as int, bs);
    assert(k * ch == ch * k) by (nonlinear_arith);
    assert(bs * ch == ch * bs) by (nonlinear_arith);
    assert(total / bb == k as int / bs);
    let q = k as int / bs;
    assert(q * bb == (q * bs) * ch) by (nonlinear_arith)
        requires
            bb == bs * ch,
    ;
    assert(q >= 0) by (nonlinear_arith)
        requires
            k >= 0,
            bs > 0,
            q == k as int / bs,
    ;
    vstd::arithmetic::div_mod::lemma_div_by_multiple(q * bs, ch);
}

/// A read loop that starts at a block boundary with an empty buffer, in a
/// file that holds enough whole blocks, hands out every wanted byte.
proof fn lemma_dsf_whole_blocks(s: DsfView, out: Seq<Seq<u8>>, rb: int, want: int)
    requires
        s.pos == s.filled,
        s.file.len() <= max_offset(),
        s.blocksize > 0,
        s.ch > 0,
        s.blocksize * s.ch <= usize::MAX,
        0 <= rb,
        0 <= want,
        rb + want <= usize::MAX,
        out.len() >= s.ch,
        s.fpos + blocks_for(want, s.blocksize as int) * (s.blocksize * s.ch) <= s.file.len(),
    ensures
        ({
            let (s2, out2, r) = spec_dsf_read_loop(s, out, rb, want);
            let bs = s.blocksize as int;
            let ch = s.ch as int;
            &&& r == Ok::<usize, DsdError>((rb + want) as usize)
            &&& s2.read_samples == sat_add(s.read_samples as int, rb + want)
            &&& out2.len() == out.len()
            &&& forall|c: int| 0 <= c < out.len() ==> #[trigger] out2[c].len() == out[c].len()
            &&& forall|c: int, j: int|
                0 <= c < ch && 0 <= j < want && rb + j < out[c].len() ==> #[trigger] out2[c][rb + j]
                    == s.file[s.fpos + block_offset(j, c, bs, ch)]
            &&& forall|c: int, j: int|
                0 <= c < out.len() && 0 <= j < out[c].len() && !(c < ch && rb <= j < rb + want)
                    ==> #[trigger] out2[c][j] == out[c][j]
        }),
    decreases want,
{
    let bs = s.blocksize as int;
    let ch = s.ch as int;
    let bb = bs * ch;
    if want == 0 {
        return;
    }
    assert(blocks_for(want, bs) >= 1) by (nonlinear_arith)
        requires
            want >= 1,
            bs >= 1,
            blocks_for(want, bs) == (want + bs - 1) / bs,
    ;
    assert(bb <= blocks_for(want, bs) * bb) by (nonlinear_arith)
        requires
            blocks_for(want, bs) >= 1,
            bb >= 0,
    ;
    assert(bb > 0) by (nonlinear_arith)
        requires
            bs > 0,
            ch > 0,
            bb == bs * ch,
    ;
    // The whole block is read.
    let b1 = resized(s.buf, bb);
    assert(read_count(s.file, s.fpos, bb) == bb);
    let s1 = DsfView {
        buf: s.file.subrange(s.fpos as int, s.fpos + bb) + b1.skip(bb),
        fpos: (s.fpos + bb) as u64,
        filled: (bb / ch) as usize,
        pos: 0,
        ..s
    };
    assert(bb / ch == bs) by (nonlinear_arith)
        requires
            bb == bs * ch,
            ch > 0,
    ;
    assert(b1.len() == bb);
    assert(s1.buf =~= s.file.subrange(s.fpos as int, s.fpos + bb));
    let size = if bs <= want {
        bs
    } else {
        want
    };
    let out2 = spec_dsf_deal(out, s1.buf, bs, ch, 0, rb, size);
    let s2 = DsfView { pos: (s1.pos + size) as usize, ..s1 };
    assert(spec_dsf_read_loop(s, out, rb, want) == spec_dsf_read_loop(s2, out2, rb + size, want
        - size));
    assert forall|c: int, j: int| 0 <= c < ch && 0 <= j < size implies 0 <= bs * c + j < bb
        && #[trigger] block_offset(j, c, bs, ch) == bs * c + j by {
        assert(bs * c + j < bb) by (nonlinear_arith)
            requires
                0 <= c < ch,
                0 <= j < bs,
                bb == bs * ch,
        ;
        assert(0 <= bs * c) by (nonlinear_arith)
            requires
                0 <= c,
                0 <= bs,
        ;
        vstd::arithmetic::div_mod::lemma_small_mod(j as nat, bs as nat);
        vstd::arithmetic::div_mod::lemma_basic_div(j, bs);
        assert(c * bs == bs * c) by (nonlinear_arith);
    }
    if want <= bs {
        // The last block: the loop ends with the wanted bytes handed out.
        assert(want - size == 0);
        return;
    }
    // More blocks follow.
    assert(s2.pos == s2.filled);
    assert(blocks_for(want - bs, bs) == blocks_for(want, bs) - 1) by (nonlinear_arith)
        requires
            bs > 0,
            want > bs,
            blocks_for(want - bs, bs) == (want - bs + bs - 1) / bs,
            blocks_for(want, bs) == (want + bs - 1) / bs,
    {
        vstd::arithmetic::div_mod::lemma_div_plus_one(want - 1, bs);
    }
    assert(s2.fpos + blocks_for(want - bs, bs) * bb == s.fpos + blocks_for(want, bs) * bb) by (
    nonlinear_arith)
        requires
            s2.fpos == s.fpos + bb,
            blocks_for(want - bs, bs) == blocks_for(want, bs) - 1,
    ;
    lemma_dsf_whole_blocks(s2, out2, rb + bs, want - bs);
    let (s3, out3, r3) = spec_dsf_read_loop(s2, out2, rb + bs, want - bs);
    assert forall|c: int, j: int|
        0 <= c < ch && bs <= j < want && rb + j < out[c].len() implies #[trigger] out3[c][rb + j]
            == s.file[s.fpos + block_offset(j, c, bs, ch)] by {
        let jj = j - bs;
        assert(out3[c][(rb + bs) + jj] == s.file[s2.fpos + block_offset(jj, c, bs, ch)]);
        assert(j / bs == jj / bs + 1 && j % bs == jj % bs) by {
            vstd::arithmetic::div_mod::lemma_div_plus_one(jj, bs);
            vstd::arithmetic::div_mod::lemma_mod_add_multiples_vanish(jj, bs);
        }
        assert(s2.fpos + block_offset(jj, c, bs, ch) == s.fpos + block_offset(j, c, bs, ch)) by (
        nonlinear_arith)
            requires
                s2.fpos == s.fpos + bb,
                bb == bs * ch,
                j / bs == jj / bs + 1,
                j % bs == jj % bs,
                block_offset(jj, c, bs, ch) == (jj / bs) * (bs * ch) + c * bs + jj % bs,
                block_offset(j, c, bs, ch) == (j / bs) * (bs * ch) + c * bs + j % bs,
        ;
    }
}


/// After a seek to sample byte `k`, a read of `bpc` bytes per channel, in a
/// file that holds whole blocks for all of them, hands channel `c` its bytes
/// from the start of the block that holds `k` on: byte `j` is byte `j % bs` of
/// channel `c`'s part of block `j / bs` (blocks hold `bs` bytes for each
/// channel in turn). The position moves on by `bpc`.
pub proof fn law_dsf_seek_then_read(s: DsfView, k: u64, out: Seq<Seq<u8>>, bpc: usize)
    requires
        s.wf(),
        spec_dsf_seek(s, k).1 is Ok,
        out.len() >= s.ch,
        spec_dsf_seek(s, k).0.fpos + blocks_for(bpc as int, s.blocksize as int) * (s.blocksize
            * s.ch) <= s.file.len(),
    ensures
        ({
            let s1 = spec_dsf_seek(s, k).0;
            let (s2, out2, r) = spec_dsf_read(s1, out, bpc);
            let bs = s.blocksize as int;
            let ch = s.ch as int;
            let start = s.data_start + (k as int / bs) * (bs * ch);
            &&& s1.read_samples == (k as int / bs) * bs
            &&& r == Ok::<usize, DsdError>(bpc)
            &&& s2.read_samples == sat_add((k as int / bs) * bs, bpc as int)
            &&& forall|c: int, j: int|
                0 <= c < ch && 0 <= j < bpc && j < out[c].len() ==> #[trigger] out2[c][j]
                    == s.file[start + block_offset(j, c, bs, ch)]
            &&& forall|c: int, j: int|
                0 <= c < out.len() && 0 <= j < out[c].len() && !(c < ch && j < bpc)
                    ==> #[trigger] out2[c][j] == out[c][j]
        }),
{
    law_dsf_seek_aligns(s, k);
    let s1 = spec_dsf_seek(s, k).0;
    assert(s.blocksize > 0 && s.ch > 0) by (nonlinear_arith)
        requires
            s.blocksize * s.ch != 0,
    ;
    lemma_dsf_whole_blocks(s1, out, 0, bpc as int);
    let (s2, out2, r) = spec_dsf_read(s1, out, bpc);
    assert forall|c: int, j: int|
        0 <= c < s.ch && 0 <= j < bpc && j < out[c].len() implies #[trigger] out2[c][j]
            == s.file[s.data_start + (k as int / s.blocksize as int) * (s.blocksize * s.ch)
            + block_offset(j, c, s.blocksize as int, s.ch as int)] by {
        assert(out2[c][0 + j] == s.file[s1.fpos + block_offset(j, c, s.blocksize as int, s.ch as int)]);
    }
}


/// What `open` reports in the format agrees with the reader: the channel
/// count, and the sample count, which the reader keeps in bytes per channel
/// (eight one-bit samples to a byte).
pub proof fn law_open_reports_reader(s: DsfView, f: DSDFormat)
    requires
        spec_open(s, f).2 is Ok,
    ensures
        ({
            let (s1, f1, _) = spec_open(s, f);
            &&& f1.num_channels == s1.ch
            &&& s1.total_samples == f1.total_samples / 8
        }),
{
}

/// The read loop hands out at most what is still wanted, and the position
/// moves on by the whole count of the read when the loop ends.
proof fn lemma_dsf_read_loop_count(s: DsfView, out: Seq<Seq<u8>>, rb: int, want: int)
    requires
        s.pos <= s.filled,
        s.file.len() <= max_offset(),
        0 <= want,
        0 <= rb,
        rb + want <= usize::MAX,
    ensures
        ({
            let (s2, out2, r) = spec_dsf_read_loop(s, out, rb, want);
            &&& keeps_stream(s, s2)
            &&& r is Err ==> r == Err::<usize, DsdError>(DsdError::SizeOverflow)
            &&& r matches Ok(n) ==> {
                &&& rb <= n <= rb + want
                &&& s2.read_samples == sat_add(s.read_samples as int, n as int)
            }
        }),
    decreases want, file_left(s),
{
    if want == 0 {
        return;
    }
    if s.pos == s.filled && s.blocksize * s.ch > usize::MAX {
        return;
    }
    let (s1, stop) = if s.pos == s.filled {
        let to_read = s.blocksize * s.ch;
        let b1 = resized(s.buf, to_read);
        let n = read_count(s.file, s.fpos, to_read);
        if n == 0 {
            (DsfView { buf: b1, ..s }, true)
        } else {
            (
                DsfView {
                    buf: s.file.subrange(s.fpos as int, s.fpos + n) + b1.skip(n),
                    fpos: (s.fpos + n) as u64,
                    filled: (n / (s.ch as int)) as usize,
                    pos: 0,
                    ..s
                },
                false,
            )
        }
    } else {
        (s, false)
    };
    if !stop {
        let avail = s1.filled - s1.pos;
        let size = if avail <= want {
            avail
        } else {
            want
        };
        let out2 = spec_dsf_deal(
            out,
            s1.buf,
            s1.blocksize as int,
            s1.ch as int,
            s1.pos as int,
            rb,
            size,
        );
        lemma_dsf_read_loop_count(
            DsfView { pos: (s1.pos + size) as usize, ..s1 },
            out2,
            rb + size,
            want - size,
        );
    }
}

/// A read never reports more bytes per channel than were asked for, and its
/// only error is a block layout too large for memory. The position moves on
/// by the count it reports (saturating at `u64::MAX`), also when the read
/// runs into the end of the file.
pub proof fn law_dsf_read_count(s: DsfView, out: Seq<Seq<u8>>, bpc: usize)
    requires
        s.wf(),
    ensures
        ({
            let (s2, out2, r) = spec_dsf_read(s, out, bpc);
            &&& r is Err ==> r == Err::<usize, DsdError>(DsdError::SizeOverflow)
            &&& r matches Ok(n) ==> {
                &&& n <= bpc
                &&& s2.read_samples == sat_add(s.read_samples as int, n as int)
            }
        }),
{
    lemma_dsf_read_loop_count(s, out, 0, bpc as int);
}

/// Whether `b` reads the same stream as `a`: the file, the channel count,
/// the block size, the sample count, where the sample data starts, and the
/// metadata.
pub open spec fn keeps_stream(a: DsfView, b: DsfView) -> bool {
    &&& b.file == a.file
    &&& b.ch == a.ch
    &&& b.blocksize == a.blocksize
    &&& b.total_samples == a.total_samples
    &&& b.data_start == a.data_start
    &&& b.metadata == a.metadata
}

/// Seeking and reading keep the stream: the file, the channel count, the
/// block size, the sample count, where the sample data starts, and the
/// metadata are what they were.
pub proof fn law_seek_and_read_keep_stream(s: DsfView, k: u64, out: Seq<Seq<u8>>, bpc: usize)
    requires
        s.wf(),
    ensures
        keeps_stream(s, spec_dsf_seek(s, k).0),
        keeps_stream(s, spec_dsf_read(s, out, bpc).0),
{
    lemma_dsf_read_loop_count(s, out, 0, bpc as int);
}

/// `reset` brings a reader back to the start of the sample data: whatever was
/// read or sought since `open`, the next read hands out the same bytes and
/// reports the same result as the first read after `open`, where the file
/// holds whole blocks for what is read.
pub proof fn law_reset_repeats_first_read(
    s: DsfView,
    f: DSDFormat,
    t: DsfView,
    out: Seq<Seq<u8>>,
    bpc: usize,
)
    requires
        s.wf(),
        spec_open(s, f).2 is Ok,
        t.wf(),
        keeps_stream(spec_open(s, f).0, t),
        spec_dsf_seek(t, 0).1 is Ok,
        out.len() >= t.ch,
        t.data_start + blocks_for(bpc as int, t.blocksize as int) * (t.blocksize * t.ch)
            <= t.file.len(),
    ensures
        spec_dsf_read(spec_dsf_seek(t, 0).0, out, bpc).1 == spec_dsf_read(spec_open(s, f).0, out, bpc).1,
        spec_dsf_read(spec_dsf_seek(t, 0).0, out, bpc).2 == spec_dsf_read(spec_open(s, f).0, out, bpc).2,
{
    let s1 = spec_open(s, f).0;
    let t1 = spec_dsf_seek(t, 0).0;
    law_dsf_seek_aligns(t, 0);
    assert(t.blocksize > 0 && t.ch > 0) by (nonlinear_arith)
        requires
            t.blocksize * t.ch != 0,
            t.blocksize * t.ch <= usize::MAX,
    ;
    assert(s1.fpos == s1.data_start && s1.pos == 0 && s1.filled == 0);
    lemma_dsf_whole_blocks(s1, out, 0, bpc as int);
    lemma_dsf_whole_blocks(t1, out, 0, bpc as int);
    let oa = spec_dsf_read(s1, out, bpc).1;
    let ob = spec_dsf_read(t1, out, bpc).1;
    assert forall|c: int| 0 <= c < oa.len() implies #[trigger] oa[c] =~= ob[c] by {
        assert forall|j: int| 0 <= j < oa[c].len() implies oa[c][j] == ob[c][j] by {
            if c < t.ch && 0 <= j < bpc {
                assert(oa[c][0 + j] == s1.file[s1.fpos + block_offset(j, c, t.blocksize as int, t.ch as int)]);
                assert(ob[c][0 + j] == t1.file[t1.fpos + block_offset(j, c, t.blocksize as int, t.ch as int)]);
            }
        }
    }
    assert(oa =~= ob);
}

proof fn lemma_syncsafe(a: u8, b: u8, c: u8, d: u8)
    requires
        a < 128,
        b < 128,
        c < 128,
        d < 128,
    ensures
        ((a as u32) << 21u32) | ((b as u32) << 14u32) | ((c as u32) << 7u32) | (d as u32) == a
            * 0x20_0000 + b * 0x4000 + c * 0x80 + d,
{
    assert(((a as u32) << 21u32) | ((b as u32) << 14u32) | ((c as u32) << 7u32) | (d as u32) == a
        * 0x20_0000 + b * 0x4000 + c * 0x80 + d) by (bit_vector)
        requires
            a < 128,
            b < 128,
            c < 128,
            d < 128,
    ;
}

/// An ID3v2 tag at `offset` — the bytes `ID3`, a header of ten bytes whose
/// last four give the body size as a syncsafe number (seven bits each, most
/// significant first: `h6 * 2^21 + h7 * 2^14 + h8 * 2^7 + h9`), and a body of
/// that size, all inside the file — gives the metadata of those header and
/// body bytes; the read position and everything else stay as they were.
pub proof fn law_dsf_id3_tag_at_pointer(s: DsfView, offset: u64)
    requires
        s.file.len() <= max_offset(),
        offset + 10 <= s.file.len(),
        s.file[offset as int] == 0x49u8,
        s.file[offset + 1] == 0x44u8,
        s.file[offset + 2] == 0x33u8,
        s.file[offset + 6] < 128,
        s.file[offset + 7] < 128,
        s.file[offset + 8] < 128,
        s.file[offset + 9] < 128,
        offset + 10 + (s.file[offset + 6] * 0x20_0000 + s.file[offset + 7] * 0x4000
            + s.file[offset + 8] * 0x80 + s.file[offset + 9]) <= s.file.len(),
    ensures
        ({
            let size = s.file[offset + 6] * 0x20_0000 + s.file[offset + 7] * 0x4000 + s.file[offset
                + 8] * 0x80 + s.file[offset + 9];
            spec_read_id3_at(s, offset) == DsfView {
                metadata: Some(spec_from_id3(s.file.subrange(offset as int, offset + 10 + size))),
                ..s
            }
        }),
{
    let f = s.file;
    let o = offset as int;
    let s1 = s.at(offset);
    let header = s1.bytes(10);
    assert(header =~= f.subrange(o, o + 10));
    let t = header.take(3);
    assert(t.drop_last().drop_last().drop_last() =~= Seq::<u8>::empty());
    assert(t.drop_last().drop_last() =~= seq![f[o]]);
    assert(t.drop_last() =~= seq![f[o], f[o + 1]]);
    reveal_with_fuel(be_value, 4);
    assert(be_value(t) == ID_ID3);
    lemma_syncsafe(f[o + 6], f[o + 7], f[o + 8], f[o + 9]);
    assert(spec_id3_size(header) == f[o + 6] * 0x20_0000 + f[o + 7] * 0x4000 + f[o + 8] * 0x80
        + f[o + 9]);
    let size = spec_id3_size(header);
    let s2 = s1.adv(10);
    assert(header + s2.bytes(size as int) =~= f.subrange(o, o + 10 + size));
}

/// The reader stands at sample byte `l` of each channel in a run of whole
/// blocks that starts at file offset `start`: with nothing buffered, at the
/// block boundary that byte starts; otherwise holding the block that byte
/// lies in, read from the file, and just past it in the file.
pub open spec fn dsf_stream_at(s: DsfView, start: int, l: int) -> bool {
    let bs = s.blocksize as int;
    let bb = bs * s.ch;
    &&& l >= 0
    &&& if s.pos == s.filled {
        l % bs == 0 && s.fpos == start + (l / bs) * bb
    } else {
        &&& s.pos < s.filled
        &&& s.filled == bs
        &&& s.pos == l % bs
        &&& s.fpos == start + (l / bs + 1) * bb
        &&& s.buf.len() >= bb
        &&& forall|i: int| 0 <= i < bb ==> #[trigger] s.buf[i] == s.file[s.fpos - bb + i]
    }
}

/// How many bytes per channel one step of the read loop hands out.
pub open spec fn step_size(s: DsfView, want: int) -> int {
    let avail = s.filled - s.pos;
    if avail <= want {
        avail
    } else {
        want
    }
}

/// The rows after one step of the read loop.
pub open spec fn step_rows(s: DsfView, out: Seq<Seq<u8>>, rb: int, want: int) -> Seq<Seq<u8>> {
    spec_dsf_deal(out, s.buf, s.blocksize as int, s.ch as int, s.pos as int, rb, step_size(s, want))
}

/// One step of the read loop once the buffer holds the current block.
proof fn lemma_dsf_deal_step(s1: DsfView, out: Seq<Seq<u8>>, rb: int, want: int, start: int, l: int)
    requires
        dsf_stream_at(s1, start, l),
        s1.pos < s1.filled,
        s1.blocksize > 0,
        s1.ch > 0,
        0 <= rb,
        1 <= want,
        out.len() >= s1.ch,
    ensures
        ({
            let bs = s1.blocksize as int;
            let ch = s1.ch as int;
            let size = step_size(s1, want);
            let out2 = step_rows(s1, out, rb, want);
            let s2 = DsfView { pos: (s1.pos + size) as usize, ..s1 };
            &&& 1 <= size <= want
            &&& dsf_stream_at(s2, start, l + size)
            &&& s2.pos <= s2.filled
            &&& out2.len() == out.len()
            &&& forall|c: int| 0 <= c < out.len() ==> #[trigger] out2[c].len() == out[c].len()
            &&& forall|c: int, j: int|
                0 <= c < ch && 0 <= j < size && rb + j < out[c].len() ==> #[trigger] out2[c][rb + j]
                    == s1.file[start + block_offset(l + j, c, bs, ch)]
            &&& forall|c: int, j: int|
                0 <= c < out.len() && 0 <= j < out[c].len() && !(c < ch && rb <= j < rb + size)
                    ==> #[trigger] out2[c][j] == out[c][j]
        }),
{
    let bs = s1.blocksize as int;
    let ch = s1.ch as int;
    let bb = bs * ch;
    let size = step_size(s1, want);
    let out2 = step_rows(s1, out, rb, want);
    let q = l / bs;
    let r = l % bs;
    vstd::arithmetic::div_mod::lemma_fundamental_div_mod(l, bs);
    assert(l == q * bs + r) by (nonlinear_arith)
        requires
            l == bs * (l / bs) + l % bs,
            q == l / bs,
            r == l % bs,
    ;
    assert forall|c: int, j: int|
        0 <= c < ch && 0 <= j < size && rb + j < out[c].len() implies #[trigger] out2[c][rb + j]
            == s1.file[start + block_offset(l + j, c, bs, ch)] by {
        assert(out2[c][rb + j] == s1.buf[bs * c + s1.pos + (rb + j) - rb]);
        assert((l + j) / bs == q && (l + j) % bs == r + j) by {
            vstd::arithmetic::div_mod::lemma_fundamental_div_mod_converse(l + j, bs, q, r + j);
        }
        assert(0 <= bs * c + r + j < bb) by (nonlinear_arith)
            requires
                0 <= c < ch,
                0 <= r + j < bs,
                bb == bs * ch,
        ;
        assert(s1.fpos - bb + bs * c + r + j == start + block_offset(l + j, c, bs, ch)) by (
        nonlinear_arith)
            requires
                s1.fpos == start + (q + 1) * bb,
                bb == bs * ch,
                (l + j) / bs == q,
                (l + j) % bs == r + j,
                block_offset(l + j, c, bs, ch) == ((l + j) / bs) * (bs * ch) + c * bs + (l + j)
                    % bs,
        ;
    }
    let l2 = l + size;
    if r + size < bs {
        vstd::arithmetic::div_mod::lemma_fundamental_div_mod_converse(l2, bs, q, r + size);
    } else {
        assert(r + size == bs);
        assert(l2 == (q + 1) * bs + 0) by (nonlinear_arith)
            requires
                l == q * bs + r,
                l2 == l + size,
                r + size == bs,
        ;
        vstd::arithmetic::div_mod::lemma_fundamental_div_mod_converse(l2, bs, q + 1, 0);
        assert(start + (q + 1) * bb == start + (l2 / bs) * bb);
    }
}

/// A read loop from a reader standing at sample byte `l` of a run of whole
/// blocks that starts at `start` hands channel `c` byte `c * bs + (l + j) % bs`
/// of block `(l + j) / bs` as its byte `j`, and leaves the reader at `l + want`.
proof fn lemma_dsf_read_at(s: DsfView, out: Seq<Seq<u8>>, rb: int, want: int, start: int, l: int)
    requires
        dsf_stream_at(s, start, l),
        s.pos <= s.filled,
        s.file.len() <= max_offset(),
        s.blocksize > 0,
        s.ch > 0,
        s.blocksize * s.ch <= usize::MAX,
        0 <= rb,
        0 <= want,
        rb + want <= usize::MAX,
        out.len() >= s.ch,
        0 <= start,
        start + blocks_for(l + want, s.blocksize as int) * (s.blocksize * s.ch) <= s.file.len(),
    ensures
        ({
            let (s2, out2, r) = spec_dsf_read_loop(s, out, rb, want);
            let bs = s.blocksize as int;
            let ch = s.ch as int;
            &&& r == Ok::<usize, DsdError>((rb + want) as usize)
            &&& dsf_stream_at(s2, start, l + want)
            &&& s2.pos <= s2.filled
            &&& s2.file == s.file
            &&& s2.ch == s.ch
            &&& s2.blocksize == s.blocksize
            &&& out2.len() == out.len()
            &&& forall|c: int| 0 <= c < out.len() ==> #[trigger] out2[c].len() == out[c].len()
            &&& forall|c: int, j: int|
                0 <= c < ch && 0 <= j < want && rb + j < out[c].len() ==> #[trigger] out2[c][rb + j]
                    == s.file[start + block_offset(l + j, c, bs, ch)]
            &&& forall|c: int, j: int|
                0 <= c < out.len() && 0 <= j < out[c].len() && !(c < ch && rb <= j < rb + want)
                    ==> #[trigger] out2[c][j] == out[c][j]
        }),
    decreases want,
{
    let bs = s.blocksize as int;
    let ch = s.ch as int;
    let bb = bs * ch;
    if want == 0 {
        return;
    }
    assert(bb > 0) by (nonlinear_arith)
        requires
            bs > 0,
            ch > 0,
            bb == bs * ch,
    ;
    let s1 = if s.pos == s.filled {
        let b1 = resized(s.buf, bb);
        DsfView {
            buf: s.file.subrange(s.fpos as int, s.fpos + bb) + b1.skip(bb),
            fpos: (s.fpos + bb) as u64,
            filled: (bb / ch) as usize,
            pos: 0,
            ..s
        }
    } else {
        s
    };
    if s.pos == s.filled {
        // A whole block is fetched.
        let q = l / bs;
        vstd::arithmetic::div_mod::lemma_fundamental_div_mod(l, bs);
        assert(q + 1 <= blocks_for(l + want, bs)) by (nonlinear_arith)
            requires
                l == bs * q + 0,
                bs > 0,
                want >= 1,
                blocks_for(l + want, bs) == (l + want + bs - 1) / bs,
        {
            vstd::arithmetic::div_mod::lemma_div_plus_one(l + want - 1, bs);
            vstd::arithmetic::div_mod::lemma_div_is_ordered(l + bs, l + want - 1 + bs, bs);
            vstd::arithmetic::div_mod::lemma_fundamental_div_mod_converse(l + bs, bs, q + 1, 0);
        }
        assert((q + 1) * bb <= blocks_for(l + want, bs) * bb) by (nonlinear_arith)
            requires
                q + 1 <= blocks_for(l + want, bs),
                bb > 0,
        ;
        assert(s.fpos + bb == start + (q + 1) * bb) by (nonlinear_arith)
            requires
                s.fpos == start + q * bb,
        ;
        assert(read_count(s.file, s.fpos, bb) == bb);
        assert(bb / ch == bs) by (nonlinear_arith)
            requires
                bb == bs * ch,
                ch > 0,
        ;
        let b1 = resized(s.buf, bb);
        assert(b1.len() == bb);
        assert(s1.buf =~= s.file.subrange(s.fpos as int, s.fpos + bb));
        assert(l % bs == 0);
        assert(dsf_stream_at(s1, start, l));
    }
    lemma_dsf_deal_step(s1, out, rb, want, start, l);
    let size = step_size(s1, want);
    let out2 = step_rows(s1, out, rb, want);
    let s2 = DsfView { pos: (s1.pos + size) as usize, ..s1 };
    assert(spec_dsf_read_loop(s, out, rb, want) == spec_dsf_read_loop(s2, out2, rb + size, want
        - size));
    lemma_dsf_read_at(s2, out2, rb + size, want - size, start, l + size);
    let (s3, out3, r3) = spec_dsf_read_loop(s2, out2, rb + size, want - size);
    assert forall|c: int, j: int|
        0 <= c < ch && 0 <= j < size && rb + j < out[c].len() implies #[trigger] out3[c][rb + j]
            == s.file[start + block_offset(l + j, c, bs, ch)] by {
        assert(out2.len() == out.len());
        assert(out2[c].len() == out[c].len());
        assert(out2[c][rb + j] == s1.file[start + block_offset(l + j, c, bs, ch)]);
        assert(out3[c][rb + j] == out2[c][rb + j]);
    }
    assert forall|c: int, j: int|
        0 <= c < ch && size <= j < want && rb + j < out[c].len() implies #[trigger] out3[c][rb + j]
            == s.file[start + block_offset(l + j, c, bs, ch)] by {
        assert(out3[c][(rb + size) + (j - size)] == s.file[start + block_offset(
            (l + size) + (j - size),
            c,
            bs,
            ch,
        )]);
    }
}

/// Reads compose. From a reader with nothing buffered (as after `open` or a
/// seek), at file offset `start`, in a file that holds whole blocks for
/// `k1 + k2` bytes per channel, a read of `k1` bytes per channel followed by
/// a read of `k2` bytes hands each channel the same bytes as one read of
/// `k1 + k2`: byte `j` of channel `c`, counted from `start`, is byte `j % bs`
/// of channel `c`'s part of block `j / bs`, whichever read hands it out.
pub proof fn law_dsf_split_read(
    s: DsfView,
    o: Seq<Seq<u8>>,
    o1: Seq<Seq<u8>>,
    o2: Seq<Seq<u8>>,
    k1: usize,
    k2: usize,
)
    requires
        s.wf(),
        s.pos == s.filled,
        s.blocksize > 0,
        s.ch > 0,
        s.blocksize * s.ch <= usize::MAX,
        o.len() >= s.ch,
        o1.len() >= s.ch,
        o2.len() >= s.ch,
        k1 + k2 <= usize::MAX,
        s.fpos + blocks_for(k1 + k2, s.blocksize as int) * (s.blocksize * s.ch) <= s.file.len(),
    ensures
        ({
            let bs = s.blocksize as int;
            let ch = s.ch as int;
            let start = s.fpos as int;
            let (s1, first, r1) = spec_dsf_read(s, o1, k1);
            let (_, second, r2) = spec_dsf_read(s1, o2, k2);
            let (_, whole, r) = spec_dsf_read(s, o, (k1 + k2) as usize);
            &&& r1 == Ok::<usize, DsdError>(k1)
            &&& r2 == Ok::<usize, DsdError>(k2)
            &&& r == Ok::<usize, DsdError>((k1 + k2) as usize)
            &&& forall|c: int, j: int|
                0 <= c < ch && 0 <= j < k1 && j < o1[c].len() ==> #[trigger] first[c][j]
                    == s.file[start + (j / bs) * (bs * ch) + c * bs + j % bs]
            &&& forall|c: int, j: int|
                0 <= c < ch && 0 <= j < k2 && j < o2[c].len() ==> #[trigger] second[c][j]
                    == s.file[start + ((k1 + j) / bs) * (bs * ch) + c * bs + (k1 + j) % bs]
            &&& forall|c: int, j: int|
                0 <= c < ch && 0 <= j < k1 + k2 && j < o[c].len() ==> #[trigger] whole[c][j]
                    == s.file[start + (j / bs) * (bs * ch) + c * bs + j % bs]
        }),
{
    let bs = s.blocksize as int;
    let bb = bs * s.ch;
    let start = s.fpos as int;
    assert(dsf_stream_at(s, start, 0)) by {
        assert(0int / bs == 0 && 0int % bs == 0);
        assert(0 * bb == 0);
    }
    assert(blocks_for(k1 as int, bs) <= blocks_for(k1 + k2, bs)) by {
        vstd::arithmetic::div_mod::lemma_div_is_ordered(k1 + bs - 1, k1 + k2 + bs - 1, bs);
    }
    assert(blocks_for(k1 as int, bs) * bb <= blocks_for(k1 + k2, bs) * bb) by (nonlinear_arith)
        requires
            blocks_for(k1 as int, bs) <= blocks_for(k1 + k2, bs),
            bb >= 0,
    ;
    lemma_dsf_read_at(s, o1, 0, k1 as int, start, 0);
    let s1 = spec_dsf_read(s, o1, k1).0;
    lemma_dsf_read_at(s1, o2, 0, k2 as int, start, k1 as int);
    lemma_dsf_read_at(s, o, 0, (k1 + k2) as int, start, 0);
    let first = spec_dsf_read(s, o1, k1).1;
    let second = spec_dsf_read(s1, o2, k2).1;
    let whole = spec_dsf_read(s, o, (k1 + k2) as usize).1;
    assert forall|c: int, j: int|
        0 <= c < s.ch && 0 <= j < k1 && j < o1[c].len() implies #[trigger] first[c][j]
            == s.file[start + (j / bs) * (bs * s.ch) + c * bs + j % bs] by {
        assert(first[c][0 + j] == s.file[start + block_offset(0 + j, c, bs, s.ch as int)]);
    }
    assert forall|c: int, j: int|
        0 <= c < s.ch && 0 <= j < k2 && j < o2[c].len() implies #[trigger] second[c][j]
            == s.file[start + ((k1 + j) / bs) * (bs * s.ch) + c * bs + (k1 + j) % bs] by {
        assert(second[c][0 + j] == s1.file[start + block_offset(k1 + j, c, bs, s.ch as int)]);
    }
    assert forall|c: int, j: int|
        0 <= c < s.ch && 0 <= j < k1 + k2 && j < o[c].len() implies #[trigger] whole[c][j]
            == s.file[start + (j / bs) * (bs * s.ch) + c * bs + j % bs] by {
        assert(whole[c][0 + j] == s.file[start + block_offset(0 + j, c, bs, s.ch as int)]);
    }
}
} // verus!
