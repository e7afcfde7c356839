//! Reading DSDIFF (`.dff`) files: plain DSD or DST-compressed sound data,
//! with DSDIFF text chunks and ID3 metadata.
use vstd::prelude::*;

use crate::detect::{ID_DSD, ID_FRM8};
use crate::error::DsdError;
use crate::id3_tag::{spec_id3_tag, Id3Tag};
use crate::meta::{spec_update_from_id3, DSDMeta, DSDMetaView, MetaPicture, MetaPictureView};
use crate::stream::{
    be_value, can_read, lemma_be_bound, lemma_pow256_8, max_offset, pos_after_short_read,
    resize_zero, resized, seekable, ByteStream,
};
use crate::text::{decode_bytes, spec_decoded_text};
use crate::DSDFormat;

verus! {

/// How many frames a plain DSD read fetches from the file at once.
pub const BLOCK_FRAMES: usize = 4096;

// Chunk ids, read as big-endian numbers (`ID_DST` is `"DST "`, and so on).
pub const ID_DST: u32 = 0x4453_5420;
pub const ID_PROP: u32 = 0x5052_4f50;
pub const ID_SND: u32 = 0x534e_4420;
pub const ID_FS: u32 = 0x4653_2020;
pub const ID_CHNL: u32 = 0x4348_4e4c;
pub const ID_CMPR: u32 = 0x434d_5052;
pub const ID_DSTI: u32 = 0x4453_5449;
pub const ID_FRTE: u32 = 0x4652_5445;
pub const ID_DIIN: u32 = 0x4449_494e;
pub const ID_DITI: u32 = 0x4449_5449;
pub const ID_DIAR: u32 = 0x4449_4152;
pub const ID_ALCH: u32 = 0x414c_4348;
pub const ID_DIAL: u32 = 0x4449_414c;
pub const ID_DIGN: u32 = 0x4449_474e;
pub const ID_DICR: u32 = 0x4449_4352;
pub const ID_DIFC: u32 = 0x4449_4643;
pub const ID_ID3: u32 = 0x4944_3320;
pub const ID_DSTF: u32 = 0x4453_5446;
pub const ID_DSTC: u32 = 0x4453_5443;

/// Whether the sound data is plain DSD or DST-compressed.
#[derive(Copy, Clone, PartialEq, Eq, Debug, Structural)]
pub enum AudioKind {
    Dsd,
    Dst,
}

// ---------------------------------------------------------------------------
// DSDIFF text

/// The text of a DSDIFF text chunk: a big-endian 16-bit length followed by
/// that many bytes of text (cut at the end of the chunk); a chunk shorter than
/// two bytes is taken as text as a whole.
pub open spec fn spec_dsdiff_text(raw: Seq<u8>) -> Seq<char> {
    if raw.len() < 2 {
        spec_decoded_text(raw)
    } else {
        let text_len = be_value(raw.take(2));
        let end: int = if 2 + text_len <= raw.len() {
            2 + text_len as int
        } else {
            raw.len() as int
        };
        spec_decoded_text(raw.subrange(2, end))
    }
}

/// Decode the text of a DSDIFF text chunk (see `spec_dsdiff_text`).
pub fn decode_dsdiff_text(raw: &[u8]) -> (s: String)
    requires
        raw@.len() <= usize::MAX / 8,
    ensures
        s@ == spec_dsdiff_text(raw@),
{
    if raw.len() < 2 {
        return decode_bytes(raw);
    }
    let text_len: usize = (raw[0] as usize) * 256 + (raw[1] as usize);
    proof {
        let t = raw@.take(2);
        assert(t.drop_last().drop_last() =~= Seq::<u8>::empty());
        assert(t.drop_last() =~= seq![raw@[0]]);
        reveal_with_fuel(be_value, 3);
    }
    let end: usize = if text_len <= raw.len() - 2 {
        2 + text_len
    } else {
        raw.len()
    };
    decode_bytes(vstd::slice::slice_subrange(raw, 2, end))
}

// ---------------------------------------------------------------------------
// The reader and its view

/// A DSDIFF reader over the bytes of a whole file.
pub struct DFFReader {
    file: ByteStream,
    buf: Vec<u8>,
    ch: usize,
    filled_frames: usize,
    pos_frames: usize,
    total_frames: u64,
    read_frames: u64,
    data_start: u64,
    audio_kind: Option<AudioKind>,
    data_end: u64,
    dst_framerate: u16,
    dst_frame_count: u32,
    dst_channel_frame_size: usize,
    dsti_index: Vec<u64>,
    dsti_base: Option<i64>,
    dst_chunk_payload_start: u64,
    dst_frame_buf: Vec<u8>,
    metadata: DSDMeta,
}

/// The state of a `DFFReader`.
#[verifier::ext_equal]
pub struct DffView {
    /// The file's bytes.
    pub file: Seq<u8>,
    /// The read position in the file.
    pub pos: u64,
    /// Interleaved frames fetched from the file (or decoded from a DST frame).
    pub buf: Seq<u8>,
    pub ch: usize,
    /// Frames held in `buf`.
    pub filled_frames: usize,
    /// Frames of `buf` already handed out.
    pub pos_frames: usize,
    pub total_frames: u64,
    /// Frames handed out since the last seek (or the seek position).
    pub read_frames: u64,
    /// Where the sound data (DSD) or the first DST frame starts.
    pub data_start: u64,
    pub audio_kind: Option<AudioKind>,
    /// Where the sound data chunk ends.
    pub data_end: u64,
    pub dst_framerate: u16,
    pub dst_frame_count: u32,
    pub dst_channel_frame_size: usize,
    /// The raw offsets of the `DSTI` index.
    pub dsti_index: Seq<u64>,
    /// What is added to a `DSTI` entry to reach a `DSTF` header, once known.
    pub dsti_base: Option<i64>,
    /// Where the `DST ` chunk's payload (its `FRTE` chunk) starts.
    pub dst_chunk_payload_start: u64,
    pub dst_frame_buf: Seq<u8>,
    pub metadata: DSDMetaView,
}

impl View for DFFReader {
    type V = DffView;

    closed spec fn view(&self) -> DffView {
        DffView {
            file: self.file.data@,
            pos: self.file.pos,
            buf: self.buf@,
            ch: self.ch,
            filled_frames: self.filled_frames,
            pos_frames: self.pos_frames,
            total_frames: self.total_frames,
            read_frames: self.read_frames,
            data_start: self.data_start,
            audio_kind: self.audio_kind,
            data_end: self.data_end,
            dst_framerate: self.dst_framerate,
            dst_frame_count: self.dst_frame_count,
            dst_channel_frame_size: self.dst_channel_frame_size,
            dsti_index: self.dsti_index@,
            dsti_base: self.dsti_base,
            dst_chunk_payload_start: self.dst_chunk_payload_start,
            dst_frame_buf: self.dst_frame_buf@,
            metadata: self.metadata@,
        }
    }
}

/// `n` rounded up to an even number: chunks are padded to even length.
pub open spec fn padded(n: u64) -> int {
    n + n % 2
}


impl DffView {
    /// The reader's invariant: positions fit in a file offset and the frame
    /// buffer holds what its counters say.
    pub open spec fn wf(self) -> bool {
        &&& self.file.len() <= max_offset()
        &&& self.pos <= max_offset()
        &&& self.data_start <= max_offset()
        &&& self.dst_chunk_payload_start <= max_offset()
        &&& self.pos_frames <= self.filled_frames
        &&& self.filled_frames <= BLOCK_FRAMES
        &&& self.pos_frames < self.filled_frames ==> self.filled_frames * self.ch <= self.buf.len()
        &&& self.dst_channel_frame_size < 0x2000_0000
        &&& self.ch <= 0xffff
    }

    /// The reader moved to position `p`.
    pub open spec fn at(self, p: u64) -> DffView {
        DffView { pos: p, ..self }
    }

    /// Whether `n` bytes can be read at the position (in a file that a
    /// reader can hold).
    pub open spec fn fits(self, n: int) -> bool {
        can_read(self.file, self.pos, n) && self.file.len() <= max_offset()
    }

    /// The `n` bytes at the position.
    pub open spec fn bytes(self, n: int) -> Seq<u8> {
        self.file.subrange(self.pos as int, self.pos + n)
    }

    /// The big-endian number in the `n` bytes at the position.
    pub open spec fn num(self, n: int) -> nat {
        be_value(self.bytes(n))
    }

    /// Move on by `n` bytes.
    pub open spec fn adv(self, n: int) -> DffView {
        self.at((self.pos + n) as u64)
    }

    /// Where a read that ran out of bytes leaves the reader.
    pub open spec fn short(self) -> DffView {
        self.at(pos_after_short_read(self.file, self.pos))
    }
}

/// Seek to `target`.
pub open spec fn spec_seek(s: DffView, target: int) -> (DffView, Result<(), DsdError>) {
    if seekable(target) {
        (s.at(target as u64), Ok(()))
    } else {
        (s, Err(DsdError::InvalidSeek))
    }
}

/// Read a chunk payload of `len` bytes and step over its pad byte.
pub open spec fn spec_read_payload(s: DffView, len: u64) -> (DffView, Option<Seq<u8>>) {
    if !s.fits(len as int) {
        (s.short(), None)
    } else {
        let s1 = s.adv(len as int);
        if len % 2 == 1 {
            if seekable(s1.pos + 1) {
                (s1.adv(1), Some(s.bytes(len as int)))
            } else {
                (s1, None)
            }
        } else {
            (s1, Some(s.bytes(len as int)))
        }
    }
}

/// Store the text of a DSDIFF text chunk in the field its id names.
pub open spec fn spec_store_text(m: DSDMetaView, id: u32, raw: Seq<u8>) -> DSDMetaView {
    if raw.len() > usize::MAX / 8 {
        m
    } else {
        let text = spec_dsdiff_text(raw);
        if text.len() == 0 {
            m
        } else if id == ID_DITI {
            DSDMetaView { title: Some(text), ..m }
        } else if id == ID_DIAR {
            DSDMetaView { artist: Some(text), ..m }
        } else if id == ID_DIAL {
            DSDMetaView { album: Some(text), ..m }
        } else if id == ID_DIGN {
            DSDMetaView { genre: Some(text), ..m }
        } else if id == ID_DIFC {
            DSDMetaView { comment: Some(text), ..m }
        } else {
            m
        }
    }
}

/// Take the tag of an `ID3 ` chunk into the metadata.
pub open spec fn spec_store_id3(m: DSDMetaView, raw: Seq<u8>) -> DSDMetaView {
    let m1 = match spec_id3_tag(raw) {
        Some(t) => spec_update_from_id3(m, t),
        None => m,
    };
    DSDMetaView { id3_raw: Some(raw), ..m1 }
}

impl DFFReader {
    /// A reader over the bytes of a DSDIFF file, positioned at its start.
    pub fn new(data: Vec<u8>) -> (r: DFFReader)
        requires
            data@.len() <= max_offset(),
        ensures
            r@ == DffView::initial(data@),
            r@.wf(),
    {
        let r = DFFReader {
            file: ByteStream::new(data),
            buf: Vec::new(),
            ch: 0,
            filled_frames: 0,
            pos_frames: 0,
            total_frames: 0,
            read_frames: 0,
            data_start: 0,
            audio_kind: None,
            data_end: 0,
            dst_framerate: 0,
            dst_frame_count: 0,
            dst_channel_frame_size: 0,
            dsti_index: Vec::new(),
            dsti_base: None,
            dst_chunk_payload_start: 0,
            dst_frame_buf: Vec::new(),
            metadata: DSDMeta::default(),
        };
        assert(r@ =~= DffView::initial(data@));
        r
    }

    /// A reader over an empty file.
    pub fn empty() -> (r: DFFReader)
        ensures
            r@ == DffView::initial(Seq::empty()),
            r@.wf(),
    {
        DFFReader::new(Vec::new())
    }

    /// The number of channels found by `open`.
    pub fn channels(&self) -> (n: usize)
        ensures
            n == self@.ch,
    {
        self.ch
    }

    /// The metadata gathered by `open`.
    pub fn get_metadata(&self) -> (m: Option<&DSDMeta>)
        ensures
            m matches Some(x) && x@ == self@.metadata,
    {
        Some(&self.metadata)
    }

    /// Frames handed out, counted from the start of the sound data.
    pub fn get_position_frames(&self) -> (n: u64)
        ensures
            n == self@.read_frames,
    {
        self.read_frames
    }

    /// Frames of sound data in the file.
    pub fn total_frames(&self) -> (n: u64)
        ensures
            n == self@.total_frames,
    {
        self.total_frames
    }

    /// Whether every frame has been handed out.
    pub fn eof(&self) -> (b: bool)
        ensures
            b == (self@.read_frames >= self@.total_frames),
    {
        self.read_frames >= self.total_frames
    }

    /// Seek to `base` plus `size` rounded up to even.
    fn skip_padded(&mut self, base: u64, size: u64) -> (r: Result<(), DsdError>)
        ensures
            (final(self)@, r) == spec_seek(old(self)@, base + padded(size)),
    {
        let pad: u64 = size % 2;
        if size <= u64::MAX - pad && base <= u64::MAX - (size + pad) {
            match self.file.seek_to(base + size + pad) {
                Ok(_) => Ok(()),
                Err(e) => Err(e),
            }
        } else {
            Err(DsdError::InvalidSeek)
        }
    }

    /// Seek to an absolute position.
    fn seek_abs(&mut self, target: u64) -> (r: Result<(), DsdError>)
        ensures
            (final(self)@, r) == spec_seek(old(self)@, target as int),
    {
        match self.file.seek_to(target) {
            Ok(_) => Ok(()),
            Err(e) => Err(e),
        }
    }

    /// Read a chunk payload of `len` bytes and step over its pad byte.
    fn read_payload(&mut self, len: u64) -> (r: Result<Vec<u8>, DsdError>)
        requires
            old(self)@.wf(),
        ensures
            final(self)@.wf(),
            final(self)@ == spec_read_payload(old(self)@, len).0,
            match spec_read_payload(old(self)@, len).1 {
                Some(b) => r matches Ok(v) && v@ == b,
                None => r is Err,
            },
            !old(self)@.fits(len as int) ==> r == Err::<Vec<u8>, DsdError>(DsdError::UnexpectedEof),
            old(self)@.fits(len as int) && spec_read_payload(old(self)@, len).1 is None ==> r == Err::<
                Vec<u8>,
                DsdError,
            >(DsdError::InvalidSeek),
    {
        let buf = match self.file.read_vec(len) {
            Ok(b) => b,
            Err(e) => return Err(e),
        };
        if len % 2 == 1 {
            match self.file.seek_by(1) {
                Ok(_) => {},
                Err(e) => return Err(e),
            }
        }
        Ok(buf)
    }

    /// Store the text of a DSDIFF text chunk in the field its id names.
    fn store_text_tag(&mut self, chunk_id: u32, raw: &[u8])
        ensures
            final(self)@ == (DffView {
                metadata: spec_store_text(old(self)@.metadata, chunk_id, raw@),
                ..old(self)@
            }),
    {
        if raw.len() > usize::MAX / 8 {
            return;
        }
        let text = decode_dsdiff_text(raw);
        if !text.as_str().is_empty() {
            if chunk_id == ID_DITI {
                self.metadata.title = Some(text);
            } else if chunk_id == ID_DIAR {
                self.metadata.artist = Some(text);
            } else if chunk_id == ID_DIAL {
                self.metadata.album = Some(text);
            } else if chunk_id == ID_DIGN {
                self.metadata.genre = Some(text);
            } else if chunk_id == ID_DIFC {
                self.metadata.comment = Some(text);
            }
        }
    }
}

impl DffView {
    /// The state of a reader that has not been opened.
    pub open spec fn initial(file: Seq<u8>) -> DffView {
        DffView {
            file: file,
            pos: 0,
            buf: Seq::empty(),
            ch: 0,
            filled_frames: 0,
            pos_frames: 0,
            total_frames: 0,
            read_frames: 0,
            data_start: 0,
            audio_kind: None,
            data_end: 0,
            dst_framerate: 0,
            dst_frame_count: 0,
            dst_channel_frame_size: 0,
            dsti_index: Seq::empty(),
            dsti_base: None,
            dst_chunk_payload_start: 0,
            dst_frame_buf: Seq::empty(),
            metadata: DSDMetaView::empty(),
        }
    }
}


// ---------------------------------------------------------------------------
// Opening: the walk over the chunks

/// What `open` keeps track of while it walks the chunks.
#[derive(Copy, Clone)]
pub struct OpenLocals {
    pub audio_kind: Option<AudioKind>,
    pub audio_chunk_size: u64,
    pub sample_rate_hz: Option<u32>,
    pub channels: Option<u16>,
}

/// The state of a chunk walk: the reader, what `open` keeps track of, and
/// whether the walk failed.
pub type Walk = (DffView, OpenLocals, Result<(), DsdError>);

/// How far a walk still has to go.
pub open spec fn gap(end: u64, p: u64) -> nat {
    if p < end {
        (end - p) as nat
    } else {
        0
    }
}

/// The payload of one `SND ` property subchunk whose id is `id`.
pub open spec fn spec_snd_body(s: DffView, l: OpenLocals, id: u32, size: u64) -> Walk {
    let sp = s.pos;
    if id == ID_FS {
        if size >= 4 {
            if !s.fits(4) {
                (s.short(), l, Err(DsdError::UnexpectedEof))
            } else {
                (s.adv(4), OpenLocals { sample_rate_hz: Some(s.num(4) as u32), ..l }, Ok(()))
            }
        } else {
            let (s1, r) = spec_seek(s, sp + size);
            (s1, l, r)
        }
    } else if id == ID_CHNL {
        if size >= 2 {
            if !s.fits(2) {
                (s.short(), l, Err(DsdError::UnexpectedEof))
            } else {
                (s.adv(2), OpenLocals { channels: Some(s.num(2) as u16), ..l }, Ok(()))
            }
        } else {
            let (s1, r) = spec_seek(s, sp + size);
            (s1, l, r)
        }
    } else if id == ID_CMPR {
        if size >= 4 {
            if !s.fits(4) {
                (s.short(), l, Err(DsdError::UnexpectedEof))
            } else {
                let c = s.num(4);
                let s1 = s.adv(4);
                if c == ID_DSD {
                    (DffView { audio_kind: Some(AudioKind::Dsd), ..s1 }, l, Ok(()))
                } else if c == ID_DST {
                    (DffView { audio_kind: Some(AudioKind::Dst), ..s1 }, l, Ok(()))
                } else {
                    (s1, l, Err(DsdError::UnsupportedCmpr))
                }
            }
        } else {
            (s, l, Err(DsdError::InvalidCmpr))
        }
    } else {
        (s, l, Ok(()))
    }
}

/// One `SND ` property subchunk: its header, its payload, and the step to the next one.
pub open spec fn spec_snd_sub(s: DffView, l: OpenLocals) -> Walk {
    if !s.fits(4) {
        (s.short(), l, Err(DsdError::SndSubchunkIdEof))
    } else {
        let id = s.num(4) as u32;
        let s1 = s.adv(4);
        if !s1.fits(8) {
            (s1.short(), l, Err(DsdError::UnexpectedEof))
        } else {
            let size = s1.num(8) as u64;
            let s2 = s1.adv(8);
            let (s3, l3, r3) = spec_snd_body(s2, l, id, size);
            if r3 is Err {
                (s3, l3, r3)
            } else {
                let (s4, r4) = spec_seek(s3, s2.pos + padded(size));
                (s4, l3, r4)
            }
        }
    }
}

/// A `SND ` subchunk read without error moves the position forward.
pub proof fn lemma_snd_sub_advances(s: DffView, l: OpenLocals)
    ensures
        spec_snd_sub(s, l).2 is Ok ==> spec_snd_sub(s, l).0.pos > s.pos,
{
}

/// The `SND ` property subchunks up to `end`.
pub open spec fn spec_snd_walk(s: DffView, l: OpenLocals, end: u64) -> Walk
    decreases gap(end, s.pos),
{
    if s.pos >= end {
        (s, l, Ok(()))
    } else {
        let (s1, l1, r1) = spec_snd_sub(s, l);
        if r1 is Err {
            (s1, l1, r1)
        } else {
            proof {
                lemma_snd_sub_advances(s, l);
            }
            spec_snd_walk(s1, l1, end)
        }
    }
}

/// A `PROP` chunk whose payload starts at the position.
pub open spec fn spec_prop(s: DffView, l: OpenLocals, size: u64) -> Walk {
    let ps = s.pos;
    if !s.fits(4) {
        (s.short(), l, Err(DsdError::UnexpectedEof))
    } else {
        let s1 = s.adv(4);
        let (s2, l2, r2) = if s.num(4) == ID_SND {
            if ps + size > u64::MAX {
                (s1, l, Err(DsdError::SizeOverflow))
            } else {
                spec_snd_walk(s1, l, (ps + size) as u64)
            }
        } else {
            (s1, l, Ok(()))
        };
        if r2 is Err {
            (s2, l2, r2)
        } else {
            let (s3, r3) = spec_seek(s2, ps + padded(size));
            (s3, l2, r3)
        }
    }
}

/// The entries of a `DSTI` index: 8-byte offsets, each followed by a 4-byte length.
pub open spec fn spec_dsti_walk(s: DffView, remaining: u64) -> (DffView, Result<(), DsdError>)
    decreases remaining,
{
    if remaining < 12 {
        (s, Ok(()))
    } else if !s.fits(8) {
        (s.short(), Err(DsdError::UnexpectedEof))
    } else {
        let off = s.num(8) as u64;
        let s1 = s.adv(8);
        if !s1.fits(4) {
            (s1.short(), Err(DsdError::UnexpectedEof))
        } else {
            let s2 = DffView { dsti_index: s1.dsti_index.push(off), ..s1.adv(4) };
            spec_dsti_walk(s2, (remaining - 12) as u64)
        }
    }
}

/// A `DSTI` chunk whose payload starts at the position.
pub open spec fn spec_dsti(s: DffView, size: u64) -> (DffView, Result<(), DsdError>) {
    let ps = s.pos;
    let (s1, r1) = spec_dsti_walk(DffView { dsti_index: Seq::empty(), ..s }, size);
    if r1 is Err {
        (s1, r1)
    } else {
        spec_seek(s1, ps + padded(size))
    }
}

/// A `DSD ` sound data chunk whose payload starts at the position.
pub open spec fn spec_dsd_chunk(s: DffView, l: OpenLocals, size: u64) -> Walk {
    let ps = s.pos;
    if l.audio_kind is None {
        let l1 = OpenLocals { audio_kind: Some(AudioKind::Dsd), audio_chunk_size: size, ..l };
        let s1 = DffView { data_start: ps, ..s };
        if ps + size > u64::MAX {
            (s1, l1, Err(DsdError::SizeOverflow))
        } else {
            let (s2, r2) = spec_seek(DffView { data_end: (ps + size) as u64, ..s1 }, ps + padded(size));
            (s2, l1, r2)
        }
    } else {
        let (s2, r2) = spec_seek(s, ps + padded(size));
        (s2, l, r2)
    }
}

/// The `FRTE` chunk at the start of a `DST ` chunk, in a reader positioned at it.
pub open spec fn spec_frte(s: DffView) -> (DffView, Result<(), DsdError>) {
    if !s.fits(4) {
        (s.short(), Err(DsdError::UnexpectedEof))
    } else {
        let fid = s.num(4);
        let s1 = s.adv(4);
        if !s1.fits(8) {
            (s1.short(), Err(DsdError::UnexpectedEof))
        } else {
            let fsize = s1.num(8);
            let s2 = s1.adv(8);
            if fid != ID_FRTE || fsize != 6 {
                (s2, Err(DsdError::DstMissingFrte))
            } else if !s2.fits(4) {
                (s2.short(), Err(DsdError::UnexpectedEof))
            } else {
                let s3 = DffView { dst_frame_count: s2.num(4) as u32, ..s2.adv(4) };
                if !s3.fits(2) {
                    (s3.short(), Err(DsdError::UnexpectedEof))
                } else {
                    let s4 = DffView { dst_framerate: s3.num(2) as u16, ..s3.adv(2) };
                    (DffView { data_start: s4.pos, ..s4 }, Ok(()))
                }
            }
        }
    }
}

/// A `DST ` sound data chunk whose payload starts at the position.
pub open spec fn spec_dst_chunk(s: DffView, l: OpenLocals, size: u64) -> Walk {
    let ps = s.pos;
    if l.audio_kind is None {
        let l1 = OpenLocals { audio_kind: Some(AudioKind::Dst), audio_chunk_size: size, ..l };
        let s1 = DffView { dst_chunk_payload_start: ps, ..s };
        if ps + size > u64::MAX {
            (s1, l1, Err(DsdError::SizeOverflow))
        } else {
            let (s2, r2) = spec_frte(DffView { data_end: (ps + size) as u64, ..s1 });
            if r2 is Err {
                (s2, l1, r2)
            } else {
                let (s3, r3) = spec_seek(s2, ps + padded(size));
                (s3, l1, r3)
            }
        }
    } else {
        let (s2, r2) = spec_seek(s, ps + padded(size));
        (s2, l, r2)
    }
}

/// One subchunk of a `DIIN` chunk. `Ok(true)`: go on; `Ok(false)`: the walk
/// stops (the header could not be read).
pub open spec fn spec_diin_sub(s: DffView) -> (DffView, Result<bool, DsdError>) {
    if !s.fits(4) {
        (s.short(), Ok(false))
    } else {
        let id = s.num(4) as u32;
        let s1 = s.adv(4);
        if !s1.fits(8) {
            (s1.short(), Ok(false))
        } else {
            let size = s1.num(8) as u64;
            let s2 = s1.adv(8);
            let sp = s2.pos;
            if id == ID_DITI || id == ID_DIAR || id == ID_ALCH {
                let (s3, raw) = spec_read_payload(s2, size);
                match raw {
                    Some(b) => if id == ID_ALCH {
                        let pic = MetaPictureView {
                            description: Seq::empty(),
                            mime_type: Seq::empty(),
                            data: b,
                        };
                        (
                            DffView {
                                metadata: DSDMetaView {
                                    cover_art: s3.metadata.cover_art.push(pic),
                                    ..s3.metadata
                                },
                                ..s3
                            },
                            Ok(true),
                        )
                    } else {
                        (
                            DffView { metadata: spec_store_text(s3.metadata, id, b), ..s3 },
                            Ok(true),
                        )
                    },
                    None => {
                        let (s4, r4) = spec_seek(s3, sp + padded(size));
                        (s4, if r4 is Err { Err(DsdError::InvalidSeek) } else { Ok(true) })
                    },
                }
            } else {
                let (s4, r4) = spec_seek(s2, sp + padded(size));
                (s4, if r4 is Err { Err(DsdError::InvalidSeek) } else { Ok(true) })
            }
        }
    }
}

/// A `DIIN` subchunk that the walk goes on from moves the position forward.
pub proof fn lemma_diin_sub_advances(s: DffView)
    ensures
        spec_diin_sub(s).1 == Ok::<bool, DsdError>(true) ==> spec_diin_sub(s).0.pos > s.pos,
        s.file.len() <= max_offset() && spec_diin_sub(s).1 is Ok ==> spec_diin_sub(s).0.pos
            >= s.pos,
{
}

/// The subchunks of a `DIIN` chunk up to `end`.
pub open spec fn spec_diin_walk(s: DffView, end: u64) -> (DffView, Result<(), DsdError>)
    decreases gap(end, s.pos),
{
    if s.pos >= end {
        (s, Ok(()))
    } else {
        let (s1, r1) = spec_diin_sub(s);
        match r1 {
            Err(e) => (s1, Err(e)),
            Ok(false) => (s1, Ok(())),
            Ok(true) => {
                proof {
                    lemma_diin_sub_advances(s);
                }
                spec_diin_walk(s1, end)
            },
        }
    }
}

/// A `DIIN` chunk whose payload starts at the position.
pub open spec fn spec_diin(s: DffView, size: u64) -> (DffView, Result<(), DsdError>) {
    let ps = s.pos;
    if ps + size > u64::MAX {
        (s, Err(DsdError::SizeOverflow))
    } else {
        let end = (ps + size) as u64;
        let (s1, r1) = spec_diin_walk(s, end);
        if r1 is Err {
            (s1, r1)
        } else {
            let (s2, r2) = spec_seek(s1, end as int);
            if r2 is Err || end % 2 == 0 {
                (s2, r2)
            } else {
                spec_seek(s2, end + 1)
            }
        }
    }
}

/// A top-level text chunk (`DIAL`, `DIGN`, `DICR`, `DIFC`) whose payload starts at the position.
pub open spec fn spec_text_chunk(s: DffView, id: u32, size: u64) -> (DffView, Result<(), DsdError>) {
    let (s1, raw) = spec_read_payload(s, size);
    match raw {
        Some(b) => (DffView { metadata: spec_store_text(s1.metadata, id, b), ..s1 }, Ok(())),
        None => spec_seek(s1, s.pos + padded(size)),
    }
}

/// An `ID3 ` chunk whose payload starts at the position: the first non-empty
/// one is taken as the file's ID3 tag, later ones are skipped.
pub open spec fn spec_id3_chunk(s: DffView, size: u64) -> (DffView, Result<(), DsdError>) {
    if s.metadata.id3_raw is None {
        let (s1, raw) = spec_read_payload(s, size);
        match raw {
            Some(b) => if b.len() > 0 {
                (DffView { metadata: spec_store_id3(s1.metadata, b), ..s1 }, Ok(()))
            } else {
                spec_seek(s1, s.pos + padded(size))
            },
            None => spec_seek(s1, s.pos + padded(size)),
        }
    } else {
        spec_seek(s, s.pos + padded(size))
    }
}

/// One top-level chunk: its header, its payload, and the step to the next chunk.
pub open spec fn spec_chunk(s: DffView, l: OpenLocals) -> Walk {
    if !s.fits(4) {
        (s.short(), l, Err(DsdError::ChunkIdEof))
    } else {
        let id = s.num(4) as u32;
        let s1 = s.adv(4);
        if !s1.fits(8) {
            (s1.short(), l, Err(DsdError::UnexpectedEof))
        } else {
            let size = s1.num(8) as u64;
            let s2 = s1.adv(8);
            if id == ID_PROP {
                spec_prop(s2, l, size)
            } else if id == ID_DSD {
                spec_dsd_chunk(s2, l, size)
            } else if id == ID_DST {
                spec_dst_chunk(s2, l, size)
            } else {
                let (s3, r3) = if id == ID_DSTI {
                    spec_dsti(s2, size)
                } else if id == ID_DIIN {
                    spec_diin(s2, size)
                } else if id == ID_DIAL || id == ID_DIGN || id == ID_DICR || id == ID_DIFC {
                    spec_text_chunk(s2, id, size)
                } else if id == ID_ID3 {
                    spec_id3_chunk(s2, size)
                } else {
                    spec_seek(s2, s2.pos + padded(size))
                };
                (s3, l, r3)
            }
        }
    }
}

/// A top-level chunk read without error moves the position forward.
pub proof fn lemma_chunk_advances(s: DffView, l: OpenLocals)
    ensures
        spec_chunk(s, l).2 is Ok ==> spec_chunk(s, l).0.pos > s.pos,
{
}

/// The top-level chunks up to `end`.
pub open spec fn spec_top_walk(s: DffView, l: OpenLocals, end: u64) -> Walk
    decreases gap(end, s.pos),
{
    if s.pos >= end {
        (s, l, Ok(()))
    } else {
        let (s1, l1, r1) = spec_chunk(s, l);
        if r1 is Err {
            (s1, l1, r1)
        } else {
            proof {
                lemma_chunk_advances(s, l);
            }
            spec_top_walk(s1, l1, end)
        }
    }
}


impl DFFReader {
    /// Read a big-endian 64-bit number.
    fn read_u64(&mut self) -> (r: Result<u64, DsdError>)
        requires
            old(self)@.wf(),
        ensures
            final(self)@.wf(),
            old(self)@.fits(8) ==> r == Ok::<u64, DsdError>(old(self)@.num(8) as u64)
                && final(self)@ == old(self)@.adv(8) && old(self)@.num(8)
                < 0x1_0000_0000_0000_0000,
            !old(self)@.fits(8) ==> r == Err::<u64, DsdError>(DsdError::UnexpectedEof)
                && final(self)@ == old(self)@.short(),
    {
        proof {
            if old(self)@.fits(8) {
                lemma_be_bound(old(self)@.bytes(8));
                lemma_pow256_8();
            }
        }
        self.file.read_be(8)
    }

    /// Read a big-endian 32-bit number.
    fn read_u32(&mut self) -> (r: Result<u32, DsdError>)
        requires
            old(self)@.wf(),
        ensures
            final(self)@.wf(),
            old(self)@.fits(4) ==> r == Ok::<u32, DsdError>(old(self)@.num(4) as u32)
                && final(self)@ == old(self)@.adv(4) && old(self)@.num(4) < 0x1_0000_0000,
            !old(self)@.fits(4) ==> r == Err::<u32, DsdError>(DsdError::UnexpectedEof)
                && final(self)@ == old(self)@.short(),
    {
        proof {
            if old(self)@.fits(4) {
                lemma_be_bound(old(self)@.bytes(4));
                lemma_pow256_8();
            }
        }
        let v = match self.file.read_be(4) {
            Ok(v) => v,
            Err(e) => return Err(e),
        };
        Ok(v as u32)
    }

    /// Read a big-endian 16-bit number.
    fn read_u16(&mut self) -> (r: Result<u16, DsdError>)
        requires
            old(self)@.wf(),
        ensures
            final(self)@.wf(),
            old(self)@.fits(2) ==> r == Ok::<u16, DsdError>(old(self)@.num(2) as u16)
                && final(self)@ == old(self)@.adv(2),
            !old(self)@.fits(2) ==> r == Err::<u16, DsdError>(DsdError::UnexpectedEof)
                && final(self)@ == old(self)@.short(),
    {
        proof {
            if old(self)@.fits(2) {
                lemma_be_bound(old(self)@.bytes(2));
                lemma_pow256_8();
            }
        }
        let v = match self.file.read_be(2) {
            Ok(v) => v,
            Err(e) => return Err(e),
        };
        Ok(v as u16)
    }

    /// The payload of one `SND ` property subchunk.
    fn snd_body(&mut self, l: &mut OpenLocals, id: u32, size: u64) -> (r: Result<(), DsdError>)
        requires
            old(self)@.wf(),
        ensures
            final(self)@.wf(),
            (final(self)@, *final(l), r) == spec_snd_body(old(self)@, *old(l), id, size),
    {
        let sp = self.file.tell();
        if id == ID_FS {
            if size >= 4 {
                let sr = match self.read_u32() {
                    Ok(v) => v,
                    Err(e) => return Err(e),
                };
                l.sample_rate_hz = Some(sr);
                Ok(())
            } else {
                self.seek_abs(sp + size)
            }
        } else if id == ID_CHNL {
            if size >= 2 {
                let c = match self.read_u16() {
                    Ok(v) => v,
                    Err(e) => return Err(e),
                };
                l.channels = Some(c);
                Ok(())
            } else {
                self.seek_abs(sp + size)
            }
        } else if id == ID_CMPR {
            if size >= 4 {
                let c = match self.read_u32() {
                    Ok(v) => v,
                    Err(e) => return Err(e),
                };
                if c == ID_DSD {
                    self.audio_kind = Some(AudioKind::Dsd);
                    Ok(())
                } else if c == ID_DST {
                    self.audio_kind = Some(AudioKind::Dst);
                    Ok(())
                } else {
                    Err(DsdError::UnsupportedCmpr)
                }
            } else {
                Err(DsdError::InvalidCmpr)
            }
        } else {
            Ok(())
        }
    }

    /// One `SND ` property subchunk.
    fn snd_sub(&mut self, l: &mut OpenLocals) -> (r: Result<(), DsdError>)
        requires
            old(self)@.wf(),
        ensures
            final(self)@.wf(),
            (final(self)@, *final(l), r) == spec_snd_sub(old(self)@, *old(l)),
    {
        let id = match self.read_u32() {
            Ok(v) => v,
            Err(_) => return Err(DsdError::SndSubchunkIdEof),
        };
        let size = match self.read_u64() {
            Ok(v) => v,
            Err(e) => return Err(e),
        };
        let sp = self.file.tell();
        match self.snd_body(l, id, size) {
            Ok(_) => {},
            Err(e) => return Err(e),
        }
        self.skip_padded(sp, size)
    }

    /// The `SND ` property subchunks up to `end`.
    fn snd_walk(&mut self, l: &mut OpenLocals, end: u64) -> (r: Result<(), DsdError>)
        requires
            old(self)@.wf(),
        ensures
            final(self)@.wf(),
            (final(self)@, *final(l), r) == spec_snd_walk(old(self)@, *old(l), end),
    {
        let ghost s0 = self@;
        let ghost l0 = *l;
        while self.file.tell() < end
            invariant
                self@.wf(),
                spec_snd_walk(self@, *l, end) == spec_snd_walk(s0, l0, end),
                s0 == old(self)@,
                l0 == *old(l),
            decreases gap(end, self@.pos),
        {
            let ghost s = self@;
            let ghost ls = *l;
            proof {
                lemma_snd_sub_advances(s, ls);
            }
            match self.snd_sub(l) {
                Ok(_) => {},
                Err(e) => return Err(e),
            }
        }
        Ok(())
    }

    /// A `PROP` chunk.
    fn prop_chunk(&mut self, l: &mut OpenLocals, size: u64) -> (r: Result<(), DsdError>)
        requires
            old(self)@.wf(),
        ensures
            final(self)@.wf(),
            (final(self)@, *final(l), r) == spec_prop(old(self)@, *old(l), size),
    {
        let ps = self.file.tell();
        let prop_id = match self.read_u32() {
            Ok(v) => v,
            Err(e) => return Err(e),
        };
        if prop_id == ID_SND {
            if size > u64::MAX - ps {
                return Err(DsdError::SizeOverflow);
            }
            match self.snd_walk(l, ps + size) {
                Ok(_) => {},
                Err(e) => return Err(e),
            }
        }
        self.skip_padded(ps, size)
    }

    /// The entries of a `DSTI` index.
    fn dsti_walk(&mut self, size: u64) -> (r: Result<(), DsdError>)
        requires
            old(self)@.wf(),
        ensures
            final(self)@.wf(),
            (final(self)@, r) == spec_dsti_walk(old(self)@, size),
    {
        let ghost s0 = self@;
        let mut remaining = size;
        while remaining >= 12
            invariant
                self@.wf(),
                spec_dsti_walk(self@, remaining) == spec_dsti_walk(s0, size),
                s0 == old(self)@,
            decreases remaining,
        {
            let off = match self.read_u64() {
                Ok(v) => v,
                Err(e) => return Err(e),
            };
            let _len = match self.read_u32() {
                Ok(v) => v,
                Err(e) => return Err(e),
            };
            remaining = remaining - 12;
            self.dsti_index.push(off);
        }
        Ok(())
    }

    /// A `DSTI` chunk.
    fn dsti_chunk(&mut self, size: u64) -> (r: Result<(), DsdError>)
        requires
            old(self)@.wf(),
        ensures
            final(self)@.wf(),
            (final(self)@, r) == spec_dsti(old(self)@, size),
    {
        let ps = self.file.tell();
        self.dsti_index.clear();
        match self.dsti_walk(size) {
            Ok(_) => {},
            Err(e) => return Err(e),
        }
        self.skip_padded(ps, size)
    }

    /// A `DSD ` chunk.
    fn dsd_chunk(&mut self, l: &mut OpenLocals, size: u64) -> (r: Result<(), DsdError>)
        requires
            old(self)@.wf(),
        ensures
            final(self)@.wf(),
            (final(self)@, *final(l), r) == spec_dsd_chunk(old(self)@, *old(l), size),
    {
        let ps = self.file.tell();
        if l.audio_kind.is_none() {
            l.audio_kind = Some(AudioKind::Dsd);
            l.audio_chunk_size = size;
            self.data_start = ps;
            if size > u64::MAX - ps {
                return Err(DsdError::SizeOverflow);
            }
            self.data_end = ps + size;
        }
        self.skip_padded(ps, size)
    }

    /// The `FRTE` chunk at the start of a `DST ` chunk.
    fn frte(&mut self) -> (r: Result<(), DsdError>)
        requires
            old(self)@.wf(),
        ensures
            final(self)@.wf(),
            (final(self)@, r) == spec_frte(old(self)@),
    {
        let frte_id = match self.read_u32() {
            Ok(v) => v,
            Err(e) => return Err(e),
        };
        let frte_size = match self.read_u64() {
            Ok(v) => v,
            Err(e) => return Err(e),
        };
        if frte_id != ID_FRTE || frte_size != 6 {
            return Err(DsdError::DstMissingFrte);
        }
        self.dst_frame_count = match self.read_u32() {
            Ok(v) => v,
            Err(e) => return Err(e),
        };
        self.dst_framerate = match self.read_u16() {
            Ok(v) => v,
            Err(e) => return Err(e),
        };
        self.data_start = self.file.tell();
        Ok(())
    }

    /// A `DST ` chunk.
    fn dst_chunk(&mut self, l: &mut OpenLocals, size: u64) -> (r: Result<(), DsdError>)
        requires
            old(self)@.wf(),
        ensures
            final(self)@.wf(),
            (final(self)@, *final(l), r) == spec_dst_chunk(old(self)@, *old(l), size),
    {
        let ps = self.file.tell();
        if l.audio_kind.is_none() {
            l.audio_kind = Some(AudioKind::Dst);
            l.audio_chunk_size = size;
            self.dst_chunk_payload_start = ps;
            if size > u64::MAX - ps {
                return Err(DsdError::SizeOverflow);
            }
            self.data_end = ps + size;
            match self.frte() {
                Ok(_) => {},
                Err(e) => return Err(e),
            }
        }
        self.skip_padded(ps, size)
    }

    /// One subchunk of a `DIIN` chunk.
    fn diin_sub(&mut self) -> (r: Result<bool, DsdError>)
        requires
            old(self)@.wf(),
        ensures
            final(self)@.wf(),
            (final(self)@, r) == spec_diin_sub(old(self)@),
    {
        let sub_id = match self.read_u32() {
            Ok(v) => v,
            Err(_) => return Ok(false),
        };
        let sub_size = match self.read_u64() {
            Ok(v) => v,
            Err(_) => return Ok(false),
        };
        let sp = self.file.tell();
        if sub_id == ID_DITI || sub_id == ID_DIAR || sub_id == ID_ALCH {
            match self.read_payload(sub_size) {
                Ok(raw) => {
                    if sub_id == ID_ALCH {
                        let mut pic = MetaPicture::default();
                        pic.data = raw;
                        self.metadata.cover_art.push(pic);
                    } else {
                        self.store_text_tag(sub_id, raw.as_slice());
                    }
                    return Ok(true);
                },
                Err(_) => {},
            }
        }
        match self.skip_padded(sp, sub_size) {
            Ok(()) => Ok(true),
            Err(_) => Err(DsdError::InvalidSeek),
        }
    }

    /// A `DIIN` chunk.
    fn diin_chunk(&mut self, size: u64) -> (r: Result<(), DsdError>)
        requires
            old(self)@.wf(),
        ensures
            final(self)@.wf(),
            (final(self)@, r) == spec_diin(old(self)@, size),
    {
        let ps = self.file.tell();
        if size > u64::MAX - ps {
            return Err(DsdError::SizeOverflow);
        }
        let end = ps + size;
        let ghost s0 = self@;
        let mut go = true;
        while go && self.file.tell() < end
            invariant
                self@.wf(),
                go ==> spec_diin_walk(self@, end) == spec_diin_walk(s0, end),
                s0 == old(self)@,
                end == s0.pos + size,
                !go ==> spec_diin_walk(s0, end) == (self@, Ok::<(), DsdError>(())),
            decreases gap(end, self@.pos) + if go {
                1int
            } else {
                0int
            },
        {
            let ghost s = self@;
            proof {
                lemma_diin_sub_advances(s);
            }
            go = match self.diin_sub() {
                Ok(v) => v,
                Err(e) => return Err(e),
            };
        }
        match self.seek_abs(end) {
            Ok(_) => {},
            Err(e) => return Err(e),
        }
        if end % 2 == 1 {
            match self.file.seek_by(1) {
                Ok(_) => {},
                Err(e) => return Err(e),
            }
        }
        Ok(())
    }

    /// A top-level text chunk.
    fn text_chunk(&mut self, id: u32, size: u64) -> (r: Result<(), DsdError>)
        requires
            old(self)@.wf(),
        ensures
            final(self)@.wf(),
            (final(self)@, r) == spec_text_chunk(old(self)@, id, size),
    {
        let ps = self.file.tell();
        match self.read_payload(size) {
            Ok(raw) => {
                self.store_text_tag(id, raw.as_slice());
                Ok(())
            },
            Err(_) => self.skip_padded(ps, size),
        }
    }

    /// An `ID3 ` chunk.
    fn id3_chunk(&mut self, size: u64) -> (r: Result<(), DsdError>)
        requires
            old(self)@.wf(),
        ensures
            final(self)@.wf(),
            (final(self)@, r) == spec_id3_chunk(old(self)@, size),
    {
        let ps = self.file.tell();
        if self.metadata.id3_raw.is_none() {
            match self.read_payload(size) {
                Ok(raw) => {
                    if raw.len() > 0 {
                        match Id3Tag::from_bytes(raw.as_slice()) {
                            Some(tag) => self.metadata.update_from_id3(tag),
                            None => {},
                        }
                        self.metadata.id3_raw = Some(raw);
                        return Ok(());
                    }
                },
                Err(_) => {},
            }
        }
        self.skip_padded(ps, size)
    }

    /// One top-level chunk.
    fn chunk(&mut self, l: &mut OpenLocals) -> (r: Result<(), DsdError>)
        requires
            old(self)@.wf(),
        ensures
            final(self)@.wf(),
            (final(self)@, *final(l), r) == spec_chunk(old(self)@, *old(l)),
    {
        let chunk_id = match self.read_u32() {
            Ok(v) => v,
            Err(_) => return Err(DsdError::ChunkIdEof),
        };
        let chunk_size = match self.read_u64() {
            Ok(v) => v,
            Err(e) => return Err(e),
        };
        let ps = self.file.tell();
        if chunk_id == ID_PROP {
            self.prop_chunk(l, chunk_size)
        } else if chunk_id == ID_DSD {
            self.dsd_chunk(l, chunk_size)
        } else if chunk_id == ID_DST {
            self.dst_chunk(l, chunk_size)
        } else if chunk_id == ID_DSTI {
            self.dsti_chunk(chunk_size)
        } else if chunk_id == ID_DIIN {
            self.diin_chunk(chunk_size)
        } else if chunk_id == ID_DIAL || chunk_id == ID_DIGN || chunk_id == ID_DICR || chunk_id
            == ID_DIFC {
            self.text_chunk(chunk_id, chunk_size)
        } else if chunk_id == ID_ID3 {
            self.id3_chunk(chunk_size)
        } else {
            self.skip_padded(ps, chunk_size)
        }
    }

    /// The top-level chunks up to `end`.
    fn top_walk(&mut self, l: &mut OpenLocals, end: u64) -> (r: Result<(), DsdError>)
        requires
            old(self)@.wf(),
        ensures
            final(self)@.wf(),
            (final(self)@, *final(l), r) == spec_top_walk(old(self)@, *old(l), end),
    {
        let ghost s0 = self@;
        let ghost l0 = *l;
        while self.file.tell() < end
            invariant
                self@.wf(),
                spec_top_walk(self@, *l, end) == spec_top_walk(s0, l0, end),
                s0 == old(self)@,
                l0 == *old(l),
            decreases gap(end, self@.pos),
        {
            let ghost s = self@;
            let ghost ls = *l;
            proof {
                lemma_chunk_advances(s, ls);
            }
            match self.chunk(l) {
                Ok(_) => {},
                Err(e) => return Err(e),
            }
        }
        Ok(())
    }
}


// ---------------------------------------------------------------------------
// Seeking, and finding DST frames through the `DSTI` index

/// A 64-bit unsigned number reinterpreted as a signed one (what `as i64` does).
pub open spec fn as_i64(v: u64) -> int {
    if v <= 0x7fff_ffff_ffff_ffff {
        v as int
    } else {
        v - 0x1_0000_0000_0000_0000
    }
}

/// The candidates for what is added to a `DSTI` entry to reach a `DSTF`
/// header, in the order they are tried: the offset as the standard has it
/// (to the frame payload), the offset of the header itself, and both of those
/// taken relative to the `DST ` chunk payload and to the first frame.
pub open spec fn base_candidate(s: DffView, k: int) -> int {
    if k == 0 {
        -12
    } else if k == 1 {
        0
    } else if k == 2 {
        s.dst_chunk_payload_start as int
    } else if k == 3 {
        s.dst_chunk_payload_start - 12
    } else if k == 4 {
        s.data_start as int
    } else {
        s.data_start - 12
    }
}

/// Whether an offset lies in the range of a signed 64-bit number.
pub open spec fn in_i64(v: int) -> bool {
    -0x8000_0000_0000_0000 <= v <= 0x7fff_ffff_ffff_ffff
}

/// Try the candidates `k..6` for the `DSTI` base against the first entry
/// `raw0`: the first that lands on the id `DSTF` is taken.
pub open spec fn spec_probe(s: DffView, raw0: int, k: int) -> (
    DffView,
    Result<Option<i64>, DsdError>,
)
    decreases 6 - k,
{
    if k >= 6 || k < 0 {
        (s, Ok(None))
    } else {
        let base = base_candidate(s, k);
        let p = base + raw0;
        if !in_i64(p) {
            (s, Err(DsdError::SizeOverflow))
        } else if p < 0 {
            spec_probe(s, raw0, k + 1)
        } else {
            let s1 = s.at(p as u64);
            if s1.fits(4) && s1.num(4) == ID_DSTF {
                (s1.adv(4), Ok(Some(base as i64)))
            } else {
                spec_probe(
                    if s1.fits(4) {
                        s1.adv(4)
                    } else {
                        s1.short()
                    },
                    raw0,
                    k + 1,
                )
            }
        }
    }
}

/// Find the `DSTI` base once, and return to where the reader was.
pub open spec fn spec_resolve_base(s: DffView) -> (DffView, Result<(), DsdError>) {
    let (s1, r1) = spec_probe(s, as_i64(s.dsti_index[0]), 0);
    match r1 {
        Err(e) => (s1, Err(e)),
        Ok(found) => {
            let s2 = if found is Some {
                DffView { dsti_base: found, ..s1 }
            } else {
                s1
            };
            spec_seek(s2, s.pos as int)
        },
    }
}

/// The file offset of the `DSTF` header of DST frame `frame_nr` by the `DSTI`
/// index (frames past the last entry use the last entry), or `None` when there
/// is no index or no candidate base lands on a frame.
pub open spec fn spec_dsti_header_pos(s: DffView, frame_nr: usize) -> (
    DffView,
    Result<Option<u64>, DsdError>,
) {
    if s.dsti_index.len() == 0 {
        (s, Ok(None))
    } else {
        let (s1, r1) = if s.dsti_base is None {
            spec_resolve_base(s)
        } else {
            (s, Ok(()))
        };
        match r1 {
            Err(e) => (s1, Err(e)),
            Ok(_) => match s1.dsti_base {
                None => (s1, Ok(None)),
                Some(b) => {
                    let idx = if frame_nr < s1.dsti_index.len() - 1 {
                        frame_nr as int
                    } else {
                        s1.dsti_index.len() - 1
                    };
                    let p = b + as_i64(s1.dsti_index[idx]);
                    if !in_i64(p) {
                        (s1, Err(DsdError::SizeOverflow))
                    } else if p < 0 {
                        (s1, Ok(None))
                    } else {
                        (s1, Ok(Some(p as u64)))
                    }
                },
            },
        }
    }
}

/// Where a DST frame is guessed to start when the index cannot say: as far
/// into the sound data as the frame is into the frame count.
pub open spec fn spec_approx_offset(s: DffView, target_frame: int) -> Result<u64, DsdError> {
    if s.data_end < s.data_start {
        Err(DsdError::SizeOverflow)
    } else {
        let data_size = s.data_end - s.data_start;
        let prod = target_frame * data_size;
        let sat = if prod > u64::MAX {
            u64::MAX as int
        } else {
            prod
        };
        let count = if s.dst_frame_count == 0 {
            1
        } else {
            s.dst_frame_count as int
        };
        let approx = sat / count;
        Ok(
            (s.data_start + if approx < data_size {
                approx
            } else {
                data_size
            }) as u64,
        )
    }
}

/// Put the read position at sample frame `sample_index`. Plain DSD: at that
/// frame. DST: at the frame holding it (through the `DSTI` index, or by
/// estimate), the position then counting from that DST frame's first sample.
pub open spec fn spec_seek_samples(s: DffView, sample_index: u64) -> (
    DffView,
    Result<(), DsdError>,
) {
    match s.audio_kind {
        Some(AudioKind::Dsd) => {
            if sample_index * s.ch > u64::MAX {
                (s, Err(DsdError::SeekOverflow))
            } else {
                let (s1, r1) = spec_seek(s, s.data_start + sample_index * s.ch);
                if r1 is Err {
                    (s1, r1)
                } else {
                    (
                        DffView {
                            read_frames: sample_index,
                            pos_frames: 0,
                            filled_frames: 0,
                            ..s1
                        },
                        Ok(()),
                    )
                }
            }
        },
        Some(AudioKind::Dst) => {
            if sample_index == 0 {
                let (s1, r1) = spec_seek(s, s.data_start as int);
                if r1 is Err {
                    (s1, r1)
                } else {
                    (DffView { read_frames: 0, pos_frames: 0, filled_frames: 0, ..s1 }, Ok(()))
                }
            } else if s.dst_channel_frame_size == 0 {
                (s, Err(DsdError::DegenerateLayout))
            } else {
                let max_frame: int = if s.dst_frame_count == 0 {
                    0
                } else {
                    s.dst_frame_count - 1
                };
                let q = sample_index / (s.dst_channel_frame_size as u64);
                let target_frame: int = if q < max_frame {
                    q as int
                } else {
                    max_frame
                };
                let (s1, r1) = spec_dsti_header_pos(s, target_frame as usize);
                let off: Result<u64, DsdError> = match r1 {
                    Err(e) => Err(e),
                    Ok(Some(p)) => Ok(p),
                    Ok(None) => spec_approx_offset(s1, target_frame),
                };
                match off {
                    Err(e) => (s1, Err(e)),
                    Ok(p) => {
                        let (s2, r2) = spec_seek(s1, p as int);
                        if r2 is Err {
                            (s2, r2)
                        } else {
                            (
                                DffView {
                                    read_frames: (target_frame * s.dst_channel_frame_size) as u64,
                                    pos_frames: 0,
                                    filled_frames: 0,
                                    ..s2
                                },
                                Ok(()),
                            )
                        }
                    },
                }
            }
        },
        None => (s, Err(DsdError::ReaderNotOpened)),
    }
}

impl DFFReader {
    /// `v as i64`, as a wide number.
    fn wide_i64(v: u64) -> (r: i128)
        ensures
            r == as_i64(v),
    {
        if v <= 0x7fff_ffff_ffff_ffffu64 {
            v as i128
        } else {
            v as i128 - 0x1_0000_0000_0000_0000i128
        }
    }

    /// Candidate `k` for the `DSTI` base.
    fn base_candidate(&self, k: usize) -> (r: i128)
        requires
            k < 6,
        ensures
            r == base_candidate(self@, k as int),
    {
        if k == 0 {
            -12
        } else if k == 1 {
            0
        } else if k == 2 {
            self.dst_chunk_payload_start as i128
        } else if k == 3 {
            self.dst_chunk_payload_start as i128 - 12
        } else if k == 4 {
            self.data_start as i128
        } else {
            self.data_start as i128 - 12
        }
    }

    /// Find the `DSTI` base and return to where the reader was.
    fn resolve_base(&mut self) -> (r: Result<(), DsdError>)
        requires
            old(self)@.wf(),
            old(self)@.dsti_index.len() > 0,
        ensures
            final(self)@.wf(),
            (final(self)@, r) == spec_resolve_base(old(self)@),
            final(self)@ == (DffView {
                pos: final(self)@.pos,
                dsti_base: final(self)@.dsti_base,
                ..old(self)@
            }),
    {
        let ghost s0 = self@;
        let saved = self.file.tell();
        let raw0 = DFFReader::wide_i64(self.dsti_index[0]);
        let mut k: usize = 0;
        let mut found: Option<i64> = None;
        while k < 6 && found.is_none()
            invariant
                self@.wf(),
                s0 == old(self)@,
                raw0 == as_i64(s0.dsti_index[0]),
                self@.dsti_index == s0.dsti_index,
                self@.dsti_base == s0.dsti_base,
                self@.data_start == s0.data_start,
                self@.dst_chunk_payload_start == s0.dst_chunk_payload_start,
                self@.file == s0.file,
                self@ == (DffView { pos: self@.pos, ..s0 }),
                k <= 6,
                found is None ==> spec_probe(self@, raw0 as int, k as int) == spec_probe(
                    s0,
                    raw0 as int,
                    0,
                ),
                found is Some ==> spec_probe(s0, raw0 as int, 0) == (
                    self@,
                    Ok::<Option<i64>, DsdError>(found),
                ),
            decreases 6 - k,
        {
            let base = self.base_candidate(k);
            let p = base + raw0;
            if p < -0x8000_0000_0000_0000i128 || p > 0x7fff_ffff_ffff_ffffi128 {
                return Err(DsdError::SizeOverflow);
            }
            if p >= 0 {
                let _ = self.file.seek_to(p as u64);
                match self.read_u32() {
                    Ok(m) => {
                        if m == ID_DSTF {
                            found = Some(base as i64);
                        }
                    },
                    Err(_) => {},
                }
            }
            k = k + 1;
        }
        if found.is_some() {
            self.dsti_base = found;
        }
        self.seek_abs(saved)
    }
}



impl DFFReader {
    /// The file offset of the `DSTF` header of DST frame `frame_nr` by the `DSTI` index.
    fn dsti_header_pos(&mut self, frame_nr: usize) -> (r: Result<Option<u64>, DsdError>)
        requires
            old(self)@.wf(),
        ensures
            final(self)@.wf(),
            (final(self)@, r) == spec_dsti_header_pos(old(self)@, frame_nr),
            final(self)@ == (DffView {
                pos: final(self)@.pos,
                dsti_base: final(self)@.dsti_base,
                ..old(self)@
            }),
    {
        if self.dsti_index.len() == 0 {
            return Ok(None);
        }
        if self.dsti_base.is_none() {
            match self.resolve_base() {
                Ok(()) => {},
                Err(e) => return Err(e),
            }
        }
        match self.dsti_base {
            None => Ok(None),
            Some(b) => {
                let last = self.dsti_index.len() - 1;
                let idx = if frame_nr < last {
                    frame_nr
                } else {
                    last
                };
                let p = b as i128 + DFFReader::wide_i64(self.dsti_index[idx]);
                if p < -0x8000_0000_0000_0000i128 || p > 0x7fff_ffff_ffff_ffffi128 {
                    Err(DsdError::SizeOverflow)
                } else if p < 0 {
                    Ok(None)
                } else {
                    Ok(Some(p as u64))
                }
            },
        }
    }

    /// Where a DST frame is guessed to start when the index cannot say.
    fn approx_offset(&self, target_frame: usize) -> (r: Result<u64, DsdError>)
        ensures
            r == spec_approx_offset(self@, target_frame as int),
    {
        if self.data_end < self.data_start {
            return Err(DsdError::SizeOverflow);
        }
        let data_size = self.data_end - self.data_start;
        let tf = target_frame as u64;
        let sat: u64 = if tf == 0 {
            0
        } else if data_size <= u64::MAX / tf {
            proof {
                assert(tf * data_size <= u64::MAX) by (nonlinear_arith)
                    requires
                        tf > 0,
                        data_size <= u64::MAX / tf,
                ;
            }
            tf * data_size
        } else {
            proof {
                assert(tf * data_size > u64::MAX) by (nonlinear_arith)
                    requires
                        tf > 0,
                        data_size > u64::MAX / tf,
                ;
            }
            u64::MAX
        };
        let count: u64 = if self.dst_frame_count == 0 {
            1
        } else {
            self.dst_frame_count as u64
        };
        let approx = sat / count;
        let add = if approx < data_size {
            approx
        } else {
            data_size
        };
        Ok(self.data_start + add)
    }

    /// Put the read position at sample frame `sample_index` (see `spec_seek_samples`).
    pub fn seek_samples(&mut self, sample_index: u64) -> (r: Result<(), DsdError>)
        requires
            old(self)@.wf(),
        ensures
            final(self)@.wf(),
            (final(self)@, r) == spec_seek_samples(old(self)@, sample_index),
    {
        match self.audio_kind {
            Some(AudioKind::Dsd) => {
                let ch = self.ch as u64;
                if ch != 0 && sample_index > u64::MAX / ch {
                    proof {
                        assert(sample_index * ch > u64::MAX) by (nonlinear_arith)
                            requires
                                ch > 0,
                                sample_index > u64::MAX / ch,
                        ;
                    }
                    return Err(DsdError::SeekOverflow);
                }
                proof {
                    if ch != 0 {
                        assert(sample_index * ch <= u64::MAX) by (nonlinear_arith)
                            requires
                                ch > 0,
                                sample_index <= u64::MAX / ch,
                        ;
                    } else {
                        assert(sample_index * ch == 0) by (nonlinear_arith)
                            requires
                                ch == 0,
                        ;
                    }
                }
                let byte_offset = sample_index * ch;
                if byte_offset > u64::MAX - self.data_start {
                    return Err(DsdError::InvalidSeek);
                }
                match self.seek_abs(self.data_start + byte_offset) {
                    Ok(()) => {},
                    Err(e) => return Err(e),
                }
                self.read_frames = sample_index;
                self.pos_frames = 0;
                self.filled_frames = 0;
                proof {
                    assert(0 * self.ch == 0) by (nonlinear_arith);
                    let s = old(self)@;
                    assert(!(sample_index * s.ch > u64::MAX));
                    let (s1, r1) = spec_seek(s, s.data_start + sample_index * s.ch);
                    assert(self@ =~= DffView { read_frames: sample_index, pos_frames: 0, filled_frames: 0, ..s1 });
                }
                Ok(())
            },
            Some(AudioKind::Dst) => {
                if sample_index == 0 {
                    match self.seek_abs(self.data_start) {
                        Ok(()) => {},
                        Err(e) => return Err(e),
                    }
                    self.read_frames = 0;
                    self.pos_frames = 0;
                    self.filled_frames = 0;
                    proof {
                        assert(0 * self.ch == 0) by (nonlinear_arith);
                    }
                    return Ok(());
                }
                if self.dst_channel_frame_size == 0 {
                    return Err(DsdError::DegenerateLayout);
                }
                let max_frame: usize = if self.dst_frame_count == 0 {
                    0
                } else {
                    (self.dst_frame_count - 1) as usize
                };
                let q = sample_index / (self.dst_channel_frame_size as u64);
                let target_frame: usize = if q < max_frame as u64 {
                    q as usize
                } else {
                    max_frame
                };
                let ghost s_pre = self@;
                let frame_offset = match self.dsti_header_pos(target_frame) {
                    Err(e) => return Err(e),
                    Ok(Some(p)) => p,
                    Ok(None) => match self.approx_offset(target_frame) {
                        Ok(p) => p,
                        Err(e) => return Err(e),
                    },
                };
                let ghost s_mid = self@;
                match self.seek_abs(frame_offset) {
                    Ok(()) => {},
                    Err(e) => return Err(e),
                }
                let ghost s_sought = self@;
                proof {
                    assert(target_frame * self.dst_channel_frame_size <= 0x1_0000_0000 * 0x2000_0000)
                        by (nonlinear_arith)
                        requires
                            target_frame < 0x1_0000_0000,
                            self.dst_channel_frame_size < 0x2000_0000,
                    ;
                }
                self.read_frames = (target_frame as u64) * (self.dst_channel_frame_size as u64);
                self.pos_frames = 0;
                self.filled_frames = 0;
                proof {
                    assert(0 * self.ch == 0) by (nonlinear_arith);
                    let s = old(self)@;
                    assert(s_pre == s);
                    let mf: int = if s.dst_frame_count == 0 { 0 } else { s.dst_frame_count - 1 };
                    assert(mf == max_frame);
                    let qq = sample_index / (s.dst_channel_frame_size as u64);
                    assert(qq == q);
                    let tf: int = if qq < mf { qq as int } else { mf };
                    assert(tf == target_frame);
                    let (s1, r1) = spec_dsti_header_pos(s, tf as usize);
                    assert(r1 is Ok);
                    assert(s1 == s_mid);
                    let off: Result<u64, DsdError> = match r1 {
                        Err(e) => Err(e),
                        Ok(Some(p)) => Ok(p),
                        Ok(None) => spec_approx_offset(s1, tf),
                    };
                    assert(off == Ok::<u64, DsdError>(frame_offset));
                    let (s2, r2) = spec_seek(s1, frame_offset as int);
                    assert(s2 == s_sought);
                    assert(self@.read_frames == (tf * s.dst_channel_frame_size) as u64);
                }
                Ok(())
            },
            None => Err(DsdError::ReaderNotOpened),
        }
    }

    /// Go back to the first sample frame.
    pub fn reset(&mut self) -> (r: Result<(), DsdError>)
        requires
            old(self)@.wf(),
        ensures
            final(self)@.wf(),
            (final(self)@, r) == spec_seek_samples(old(self)@, 0),
    {
        self.seek_samples(0)
    }
}


/// The end of `open`: the sound parameters it found, and the buffers and
/// counters for reading (frames buffered before are dropped).
pub open spec fn spec_finish(s: DffView, l: OpenLocals, f: DSDFormat) -> (
    DffView,
    DSDFormat,
    Result<(), DsdError>,
) {
    if l.audio_kind is None {
        (s, f, Err(DsdError::AudioChunkNotFound))
    } else if l.channels is None {
        (s, f, Err(DsdError::ChnlMissing))
    } else if l.sample_rate_hz is None {
        (s, f, Err(DsdError::FsMissing))
    } else {
        let ch = l.channels.unwrap();
        let fs = l.sample_rate_hz.unwrap();
        let f1 = DSDFormat { num_channels: ch as u32, sampling_rate: fs, ..f };
        let s1 = DffView {
            ch: ch as usize,
            audio_kind: l.audio_kind,
            filled_frames: 0,
            pos_frames: 0,
            ..s
        };
        if l.audio_kind == Some(AudioKind::Dsd) {
            if ch == 0 {
                (s1, f1, Err(DsdError::DegenerateLayout))
            } else {
                let tf = l.audio_chunk_size / (ch as u64);
                let f2 = DSDFormat { total_samples: tf, ..f1 };
                let s2 = DffView {
                    total_frames: tf,
                    buf: resized(s1.buf, BLOCK_FRAMES * ch),
                    ..s1
                };
                let (s3, r3) = spec_seek_samples(s2, 0);
                (s3, f2, r3)
            }
        } else if s1.dst_framerate == 0 {
            (s1, f1, Err(DsdError::InvalidDstFramerate))
        } else {
            let cfs = (fs / 8) / (s1.dst_framerate as u32);
            let prod = s1.dst_frame_count * cfs;
            let tf = if prod > u64::MAX {
                u64::MAX
            } else {
                prod as u64
            };
            let f2 = DSDFormat { total_samples: tf, ..f1 };
            let s2 = DffView { dst_channel_frame_size: cfs as usize, total_frames: tf, ..s1 };
            if cfs * ch > usize::MAX {
                (s2, f2, Err(DsdError::SizeOverflow))
            } else {
                let s3 = DffView {
                    buf: resized(s2.buf, cfs * ch),
                    filled_frames: 0,
                    pos_frames: 0,
                    ..s2
                };
                let (s4, r4) = spec_seek_samples(s3, 0);
                (s4, f2, r4)
            }
        }
    }
}

/// Opening a DSDIFF file: the `FRM8` header with form type `DSD `, the walk
/// over the chunks up to the end of the form, then the sound parameters.
pub open spec fn spec_open(s: DffView, f: DSDFormat) -> (DffView, DSDFormat, Result<(), DsdError>) {
    if !s.fits(4) {
        (s.short(), f, Err(DsdError::UnexpectedEof))
    } else if s.num(4) != ID_FRM8 {
        (s.adv(4), f, Err(DsdError::NotFrm8))
    } else {
        let s1 = s.adv(4);
        if !s1.fits(8) {
            (s1.short(), f, Err(DsdError::UnexpectedEof))
        } else {
            let frm8_size = s1.num(8);
            let s2 = s1.adv(8);
            if 12 + frm8_size > u64::MAX {
                (s2, f, Err(DsdError::Frm8SizeOverflow))
            } else if !s2.fits(4) {
                (s2.short(), f, Err(DsdError::UnexpectedEof))
            } else if s2.num(4) != ID_DSD {
                (s2.adv(4), f, Err(DsdError::NotDsdContainer))
            } else {
                let s3 = s2.adv(4);
                let f1 = DSDFormat { is_lsb_first: false, ..f };
                let l0 = OpenLocals {
                    audio_kind: None,
                    audio_chunk_size: 0,
                    sample_rate_hz: None,
                    channels: None,
                };
                let (s4, l4, r4) = spec_top_walk(s3, l0, (12 + frm8_size) as u64);
                if r4 is Err {
                    (s4, f1, Err(r4->Err_0))
                } else {
                    spec_finish(s4, l4, f1)
                }
            }
        }
    }
}

impl DFFReader {
    /// The end of `open` (see `spec_finish`).
    fn finish_open(&mut self, l: OpenLocals, format: &mut DSDFormat) -> (r: Result<(), DsdError>)
        requires
            old(self)@.wf(),
        ensures
            (final(self)@, *final(format), r) == spec_finish(old(self)@, l, *old(format)),
            final(self)@.wf(),
    {
        let kind = match l.audio_kind {
            None => return Err(DsdError::AudioChunkNotFound),
            Some(k) => k,
        };
        let channels = match l.channels {
            None => return Err(DsdError::ChnlMissing),
            Some(c) => c,
        };
        let fs = match l.sample_rate_hz {
            None => return Err(DsdError::FsMissing),
            Some(v) => v,
        };
        format.num_channels = channels as u32;
        self.ch = channels as usize;
        self.filled_frames = 0;
        self.pos_frames = 0;
        format.sampling_rate = fs;
        self.audio_kind = Some(kind);
        match kind {
            AudioKind::Dsd => {
                if self.ch == 0 {
                    return Err(DsdError::DegenerateLayout);
                }
                let tf = l.audio_chunk_size / (self.ch as u64);
                format.total_samples = tf;
                self.total_frames = tf;
                resize_zero(&mut self.buf, BLOCK_FRAMES * self.ch);
                proof {
                    assert(self.filled_frames * self.ch <= BLOCK_FRAMES * self.ch) by (nonlinear_arith)
                        requires
                            self.filled_frames <= BLOCK_FRAMES,
                    ;
                }
            },
            AudioKind::Dst => {
                if self.dst_framerate == 0 {
                    return Err(DsdError::InvalidDstFramerate);
                }
                let cfs: u32 = (fs / 8) / (self.dst_framerate as u32);
                self.dst_channel_frame_size = cfs as usize;
                let count = self.dst_frame_count as u64;
                let tf: u64 = if cfs == 0 || count <= u64::MAX / (cfs as u64) {
                    proof {
                        if cfs > 0 {
                            assert(count * cfs <= u64::MAX) by (nonlinear_arith)
                                requires
                                    cfs > 0,
                                    count <= u64::MAX / (cfs as u64),
                            ;
                        } else {
                            assert(count * cfs == 0) by (nonlinear_arith)
                                requires
                                    cfs == 0,
                            ;
                        }
                    }
                    count * (cfs as u64)
                } else {
                    proof {
                        assert(count * cfs > u64::MAX) by (nonlinear_arith)
                            requires
                                cfs > 0,
                                count > u64::MAX / (cfs as u64),
                        ;
                    }
                    u64::MAX
                };
                format.total_samples = tf;
                self.total_frames = tf;
                let n = match (cfs as usize).checked_mul(self.ch) {
                    Some(n) => n,
                    None => return Err(DsdError::SizeOverflow),
                };
                resize_zero(&mut self.buf, n);
                self.filled_frames = 0;
                self.pos_frames = 0;
                proof {
                    assert(0 * self.ch == 0) by (nonlinear_arith);
                }
            },
        }
        self.seek_samples(0)
    }

    /// Open the file: read the `FRM8`/`DSD ` header, walk the chunks, and
    /// set up reading (see `spec_open`). `format` receives the channel count,
    /// the sampling rate, the sample frame count and the bit order. Once the
    /// walk is done, frames buffered by earlier reads are dropped, so that
    /// a reader opened again never hands out frames laid out for other
    /// sound parameters.
    pub fn open(&mut self, format: &mut DSDFormat) -> (r: Result<(), DsdError>)
        requires
            old(self)@.wf(),
        ensures
            (final(self)@, *final(format), r) == spec_open(old(self)@, *old(format)),
            final(self)@.wf(),
    {
        let id = self.read_u32()?;
        if id != ID_FRM8 {
            return Err(DsdError::NotFrm8);
        }
        let frm8_size = self.read_u64()?;
        if frm8_size > u64::MAX - 12 {
            return Err(DsdError::Frm8SizeOverflow);
        }
        let frm8_end = 12 + frm8_size;
        let fmt_id = self.read_u32()?;
        if fmt_id != ID_DSD {
            return Err(DsdError::NotDsdContainer);
        }
        let mut l = OpenLocals {
            audio_kind: None,
            audio_chunk_size: 0,
            sample_rate_hz: None,
            channels: None,
        };
        format.is_lsb_first = false;
        match self.top_walk(&mut l, frm8_end) {
            Ok(()) => {},
            Err(e) => return Err(e),
        }
        self.finish_open(l, format)
    }
}


// ---------------------------------------------------------------------------
// Reading

/// The views of the per-channel output buffers.
pub open spec fn rows(d: Seq<Vec<u8>>) -> Seq<Seq<u8>> {
    d.map_values(|v: Vec<u8>| v@)
}

/// How many bytes a read of `want` bytes at `pos` gets.
pub open spec fn read_count(file: Seq<u8>, pos: u64, want: int) -> int {
    if pos >= file.len() {
        0
    } else if want <= file.len() - pos {
        want
    } else {
        file.len() - pos
    }
}

/// Row `row` after receiving byte `c` of `take` frames of the interleaved
/// buffer `buf` (frames of `ch` bytes), starting at frame `pf`, at byte `w` on.
pub open spec fn deal_row(row: Seq<u8>, buf: Seq<u8>, ch: int, c: int, pf: int, w: int, take: int) -> Seq<u8> {
    Seq::new(
        row.len(),
        |k: int|
            if w <= k < w + take {
                buf[(pf + k - w) * ch + c]
            } else {
                row[k]
            },
    )
}

/// Hand out `take` frames of the interleaved buffer `buf`, starting at frame
/// `pf`, to the per-channel rows of `out`, starting at byte `w` of each row:
/// row `c` receives byte `c` of each frame.
pub open spec fn spec_deal(out: Seq<Seq<u8>>, buf: Seq<u8>, ch: int, pf: int, w: int, take: int) -> Seq<
    Seq<u8>,
> {
    Seq::new(
        out.len(),
        |c: int|
            if c < ch {
                deal_row(out[c], buf, ch, c, pf, w, take)
            } else {
                out[c]
            },
    )
}

/// Hand out as many buffered frames as are wanted.
pub open spec fn spec_copy(s: DffView, out: Seq<Seq<u8>>, written: int, bpc: int) -> (
    DffView,
    Seq<Seq<u8>>,
    int,
) {
    let avail = s.filled_frames - s.pos_frames;
    let take = if avail <= bpc - written {
        avail
    } else {
        bpc - written
    };
    let rf = s.read_frames + take;
    (
        DffView {
            pos_frames: (s.pos_frames + take) as usize,
            read_frames: if rf > u64::MAX {
                u64::MAX
            } else {
                rf as u64
            },
            ..s
        },
        spec_deal(out, s.buf, s.ch as int, s.pos_frames as int, written, take),
        written + take,
    )
}

/// Fetch the next block of plain DSD frames from the file into the buffer.
/// `false`: the file had no byte left.
pub open spec fn spec_fill_dsd(s: DffView, need: int) -> (DffView, bool) {
    let frames = if need <= BLOCK_FRAMES {
        need
    } else {
        BLOCK_FRAMES as int
    };
    let nbytes = frames * s.ch;
    let b1 = resized(s.buf, nbytes);
    let n = read_count(s.file, s.pos, nbytes);
    if n == 0 {
        (DffView { buf: b1, ..s }, false)
    } else {
        (
            DffView {
                buf: s.file.subrange(s.pos as int, s.pos + n) + b1.skip(n),
                pos: (s.pos + n) as u64,
                filled_frames: (n / (s.ch as int)) as usize,
                pos_frames: 0,
                ..s
            },
            true,
        )
    }
}

/// Scan forward from the position, inside the sound data, for the next `DSTF`
/// frame chunk, stepping over `DSTC` checksum chunks and moving on one byte at
/// a time over anything else. `Ok(true)`: a frame was read into the frame
/// buffer; `Ok(false)`: no whole frame is left before the end of the data.
pub open spec fn spec_dst_scan(s: DffView) -> (DffView, Result<bool, DsdError>)
    decreases gap(s.data_end, s.pos),
{
    let cs = s.pos;
    if cs + 12 > s.data_end {
        (s, Ok(false))
    } else if !s.fits(4) {
        (s.short(), Err(DsdError::UnexpectedEof))
    } else {
        let id = s.num(4);
        let s1 = s.adv(4);
        if !s1.fits(8) {
            (s1.short(), Err(DsdError::UnexpectedEof))
        } else {
            let size = s1.num(8);
            let s2 = s1.adv(8);
            if id == ID_DSTF {
                if cs + 12 + size > s.data_end {
                    (s2, Ok(false))
                } else if !s2.fits(size as int) {
                    (s2.short(), Err(DsdError::UnexpectedEof))
                } else {
                    let s3 = DffView { dst_frame_buf: s2.bytes(size as int), ..s2.adv(size as int) };
                    if size % 2 == 1 {
                        if seekable(s3.pos + 1) {
                            (s3.adv(1), Ok(true))
                        } else {
                            (s3, Err(DsdError::InvalidSeek))
                        }
                    } else {
                        (s3, Ok(true))
                    }
                }
            } else if id == ID_DSTC && size == 4 {
                if seekable(s2.pos + 4) {
                    spec_dst_scan(s2.adv(4))
                } else {
                    (s2, Err(DsdError::InvalidSeek))
                }
            } else if seekable(cs + 1) {
                spec_dst_scan(s.at((cs + 1) as u64))
            } else {
                (s2, Err(DsdError::InvalidSeek))
            }
        }
    }
}

/// Hand out up to `bpc` frames per channel, fetching (DSD) or scanning for
/// (DST) more as the buffer runs dry, from byte `written` of each row on.
pub open spec fn spec_read_loop(s: DffView, out: Seq<Seq<u8>>, written: int, bpc: int) -> (
    DffView,
    Seq<Seq<u8>>,
    Result<usize, DsdError>,
)
    decreases bpc - written, if s.pos < s.file.len() {
        s.file.len() - s.pos
    } else {
        0
    },
    when s.pos_frames <= s.filled_frames && s.ch > 0 && written <= bpc && s.file.len()
        <= max_offset()
{
    if written >= bpc {
        (s, out, Ok(written as usize))
    } else if s.pos_frames == s.filled_frames {
        match s.audio_kind {
            Some(AudioKind::Dsd) => {
                let (s1, got) = spec_fill_dsd(s, bpc - written);
                if !got {
                    (s1, out, Ok(written as usize))
                } else {
                    let (s2, out2, w2) = spec_copy(s1, out, written, bpc);
                    spec_read_loop(s2, out2, w2, bpc)
                }
            },
            Some(AudioKind::Dst) => {
                let (s1, r1) = spec_dst_scan(s);
                match r1 {
                    Err(e) => (s1, out, Err(e)),
                    Ok(false) => (s1, out, Ok(written as usize)),
                    Ok(true) => (s1, out, Err(DsdError::DstDecoderNotInitialized)),
                }
            },
            None => (s, out, Err(DsdError::ReaderNotOpened)),
        }
    } else {
        let (s2, out2, w2) = spec_copy(s, out, written, bpc);
        spec_read_loop(s2, out2, w2, bpc)
    }
}

/// A read of up to `bpc` frames into the per-channel rows `out`.
pub open spec fn spec_read(s: DffView, out: Seq<Seq<u8>>, bpc: usize) -> (
    DffView,
    Seq<Seq<u8>>,
    Result<usize, DsdError>,
) {
    if s.ch == 0 {
        (s, out, Ok(0))
    } else if out.len() < s.ch {
        (s, out, Err(DsdError::NotEnoughChannelBuffers))
    } else {
        spec_read_loop(s, out, 0, bpc as int)
    }
}


proof fn lemma_frame_index(pf: int, j: int, ch: int, c: int, filled: int)
    requires
        0 <= pf,
        0 <= j,
        pf + j < filled,
        0 <= c < ch,
    ensures
        0 <= (pf + j) * ch + c < filled * ch,
        (pf + j) * ch + c + ch == (pf + j + 1) * ch + c,
{
    assert((pf + j) * ch + c < filled * ch) by (nonlinear_arith)
        requires
            0 <= pf + j,
            pf + j < filled,
            0 <= c < ch,
    ;
    assert(0 <= (pf + j) * ch) by (nonlinear_arith)
        requires
            0 <= pf + j,
            0 <= c < ch,
    ;
    assert((pf + j) * ch + c + ch == (pf + j + 1) * ch + c) by (nonlinear_arith);
}

impl DFFReader {
    /// Hand out `take` buffered frames to the per-channel rows, at byte `written` on.
    fn deal(&self, data: &mut Vec<Vec<u8>>, written: usize, take: usize)
        requires
            self@.wf(),
            self.ch > 0,
            old(data)@.len() >= self.ch,
            forall|c: int| 0 <= c < self.ch ==> old(data)@[c]@.len() >= written + take,
            self.pos_frames + take <= self.filled_frames,
        ensures
            rows(final(data)@) == spec_deal(
                rows(old(data)@),
                self.buf@,
                self.ch as int,
                self.pos_frames as int,
                written as int,
                take as int,
            ),
            final(data)@.len() == old(data)@.len(),
            forall|c: int| 0 <= c < old(data)@.len() ==> #[trigger] final(data)@[c]@.len() == old(data)@[c]@.len(),
    {
        let ch = self.ch;
        let pf = self.pos_frames;
        let blen = self.buf.len();
        let ghost d0 = rows(data@);
        let ghost target = spec_deal(d0, self.buf@, ch as int, pf as int, written as int, take as int);
        let mut c: usize = 0;
        while c < ch
            invariant
                self@.wf(),
                ch == self.ch,
                pf == self.pos_frames,
                ch > 0,
                pf + take <= self.filled_frames,
                blen == self.buf@.len(),
                d0 == rows(old(data)@),
                target == spec_deal(d0, self.buf@, ch as int, pf as int, written as int, take as int),
                data@.len() == d0.len(),
                d0.len() >= ch,
                forall|x: int| 0 <= x < ch ==> d0[x].len() >= written + take,
                c <= ch,
                forall|x: int| 0 <= x < c ==> #[trigger] data@[x]@ == target[x],
                forall|x: int| c <= x < d0.len() ==> #[trigger] data@[x]@ == d0[x],
            decreases ch - c,
        {
            let mut row: Vec<u8> = Vec::new();
            std::mem::swap(&mut row, &mut data[c]);
            let ghost row0 = row@;
            assert(row0 == d0[c as int]);
            let row_len = row.len();
            let mut j: usize = 0;
            while j < take
                invariant
                    self@.wf(),
                    ch == self.ch,
                    pf == self.pos_frames,
                    ch > 0,
                    c < ch,
                    pf + take <= self.filled_frames,
                    row@.len() == row0.len(),
                    row0.len() >= written + take,
                    j <= take,
                    row_len == row0.len(),
                    blen == self.buf@.len(),
                    forall|k: int|
                        0 <= k < row0.len() ==> #[trigger] row@[k] == if written <= k < written + j {
                            self.buf@[(pf + k - written) * ch + c]
                        } else {
                            row0[k]
                        },
                decreases take - j,
            {
                proof {
                    lemma_frame_index(pf as int, j as int, ch as int, c as int, self.filled_frames as int);
                    assert(self.filled_frames * self.ch <= self.buf@.len());
                }
                let src: usize = (pf + j) * ch + c;
                row.set(written + j, self.buf[src]);
                j = j + 1;
            }
            assert(row@ =~= deal_row(row0, self.buf@, ch as int, c as int, pf as int, written as int, take as int));
            std::mem::swap(&mut row, &mut data[c]);
            c = c + 1;
        }
        assert(rows(data@) =~= target);
    }
}


impl DFFReader {
    /// Fetch the next block of plain DSD frames (see `spec_fill_dsd`).
    fn fill_dsd(&mut self, need: usize) -> (got: bool)
        requires
            old(self)@.wf(),
            old(self)@.ch > 0,
            old(self)@.pos_frames == old(self)@.filled_frames,
        ensures
            final(self)@.wf(),
            (final(self)@, got) == spec_fill_dsd(old(self)@, need as int),
    {
        let frames: usize = if need <= BLOCK_FRAMES {
            need
        } else {
            BLOCK_FRAMES
        };
        proof {
            assert(frames * self.ch <= BLOCK_FRAMES * 0xffff) by (nonlinear_arith)
                requires
                    frames <= BLOCK_FRAMES,
                    self.ch <= 0xffff,
            ;
        }
        let nbytes = frames * self.ch;
        resize_zero(&mut self.buf, nbytes);
        let ghost b1 = self.buf@;
        let n = self.file.read_into(&mut self.buf);
        if n == 0 {
            proof {
                assert(self.buf@ =~= self.buf@.skip(0));
                assert(b1 =~= b1.skip(0));
            }
            return false;
        }
        proof {
            assert(self.buf@ =~= self.buf@.take(n as int) + self.buf@.skip(n as int));
            assert(n / self.ch * self.ch <= n) by (nonlinear_arith)
                requires
                    self.ch > 0,
            ;
            assert(n / self.ch <= frames) by (nonlinear_arith)
                requires
                    self.ch > 0,
                    n <= frames * self.ch,
            ;
        }
        self.filled_frames = n / self.ch;
        self.pos_frames = 0;
        true
    }

    /// Scan for the next DST frame (see `spec_dst_scan`).
    fn dst_scan(&mut self) -> (r: Result<bool, DsdError>)
        requires
            old(self)@.wf(),
        ensures
            final(self)@.wf(),
            (final(self)@, r) == spec_dst_scan(old(self)@),
    {
        let ghost s0 = self@;
        loop
            invariant
                self@.wf(),
                s0 == old(self)@,
                spec_dst_scan(self@) == spec_dst_scan(s0),
            decreases gap(self@.data_end, self@.pos),
        {
            let cs = self.file.tell();
            if cs > self.data_end || self.data_end - cs < 12 {
                return Ok(false);
            }
            let id = match self.read_u32() {
                Ok(v) => v,
                Err(e) => return Err(e),
            };
            let size = match self.read_u64() {
                Ok(v) => v,
                Err(e) => return Err(e),
            };
            if id == ID_DSTF {
                if size > self.data_end - cs - 12 {
                    return Ok(false);
                }
                let frame = match self.file.read_vec(size) {
                    Ok(v) => v,
                    Err(e) => return Err(e),
                };
                self.dst_frame_buf = frame;
                if size % 2 == 1 {
                    match self.file.seek_by(1) {
                        Ok(_) => {},
                        Err(e) => return Err(e),
                    }
                }
                return Ok(true);
            } else if id == ID_DSTC && size == 4 {
                match self.file.seek_by(4) {
                    Ok(_) => {},
                    Err(e) => return Err(e),
                }
            } else {
                match self.seek_abs(cs + 1) {
                    Ok(()) => {},
                    Err(e) => return Err(e),
                }
            }
        }
    }

    /// Hand out up to `bytes_per_channel` sample bytes to each channel's row
    /// and return how many (see `spec_read`). Row `c` receives byte `c` of
    /// each frame, from byte 0 on. A DST frame cannot be decoded: no DST
    /// decoder is attached to the reader.
    pub fn read(&mut self, data: &mut Vec<Vec<u8>>, bytes_per_channel: usize) -> (r: Result<
        usize,
        DsdError,
    >)
        requires
            old(self)@.wf(),
            old(data)@.len() >= old(self)@.ch ==> forall|c: int|
                0 <= c < old(self)@.ch ==> #[trigger] old(data)@[c]@.len() >= bytes_per_channel,
        ensures
            final(self)@.wf(),
            (final(self)@, rows(final(data)@), r) == spec_read(
                old(self)@,
                rows(old(data)@),
                bytes_per_channel,
            ),
    {
        if self.ch == 0 {
            return Ok(0);
        }
        if data.len() < self.ch {
            return Err(DsdError::NotEnoughChannelBuffers);
        }
        let ghost s0 = self@;
        let ghost d0 = rows(data@);
        let mut written: usize = 0;
        while written < bytes_per_channel
            invariant
                self@.wf(),
                self.ch > 0,
                self.ch == s0.ch,
                self@.file == s0.file,
                s0 == old(self)@,
                d0 == rows(old(data)@),
                data@.len() == d0.len(),
                d0.len() >= self.ch,
                forall|c: int| 0 <= c < self.ch ==> #[trigger] data@[c]@.len() >= bytes_per_channel,
                written <= bytes_per_channel,
                spec_read_loop(self@, rows(data@), written as int, bytes_per_channel as int)
                    == spec_read_loop(s0, d0, 0, bytes_per_channel as int),
            decreases bytes_per_channel - written, if self@.pos < self@.file.len() {
                self@.file.len() - self@.pos
            } else {
                0
            },
        {
            if self.pos_frames == self.filled_frames {
                match self.audio_kind {
                    Some(AudioKind::Dsd) => {
                        if !self.fill_dsd(bytes_per_channel - written) {
                            return Ok(written);
                        }
                    },
                    Some(AudioKind::Dst) => {
                        match self.dst_scan() {
                            Err(e) => return Err(e),
                            Ok(false) => return Ok(written),
                            // A frame was found; decoding it needs a DST decoder,
                            // and none is attached.
                            Ok(true) => return Err(DsdError::DstDecoderNotInitialized),
                        }
                    },
                    None => return Err(DsdError::ReaderNotOpened),
                }
            }
            let avail = self.filled_frames - self.pos_frames;
            let need = bytes_per_channel - written;
            let take = if avail <= need {
                avail
            } else {
                need
            };
            self.deal(data, written, take);
            self.pos_frames = self.pos_frames + take;
            written = written + take;
            self.read_frames = self.read_frames.saturating_add(take as u64);
        }
        Ok(written)
    }
}


// ---------------------------------------------------------------------------
// What a plain DSD read gives back

/// Whole frames of `ch` bytes left in the file from the position.
pub open spec fn frames_left(s: DffView) -> int {
    if s.pos < s.file.len() {
        (s.file.len() - s.pos) / (s.ch as int)
    } else {
        0
    }
}

/// The smaller of two numbers.
pub open spec fn min_int(a: int, b: int) -> int {
    if a <= b {
        a
    } else {
        b
    }
}

/// `a + b`, saturated at `u64::MAX`.
pub open spec fn sat_add(a: int, b: int) -> u64 {
    if a + b > u64::MAX {
        u64::MAX
    } else {
        (a + b) as u64
    }
}

proof fn lemma_div_sub(a: int, f: int, ch: int)
    requires
        ch > 0,
        f >= 0,
        a >= f * ch,
    ensures
        (a - f * ch) / ch == a / ch - f,
        f <= a / ch,
{
    vstd::arithmetic::div_mod::lemma_fundamental_div_mod(a, ch);
    assert((a - f * ch) == ch * (a / ch - f) + a % ch) by (nonlinear_arith)
        requires
            a == ch * (a / ch) + a % ch,
    ;
    vstd::arithmetic::div_mod::lemma_fundamental_div_mod_converse(
        a - f * ch,
        ch,
        a / ch - f,
        a % ch,
    );
    assert(f <= a / ch) by (nonlinear_arith)
        requires
            ch > 0,
            a >= f * ch,
            a == ch * (a / ch) + a % ch,
            a % ch < ch,
    ;
}

/// One round of a plain DSD read loop that starts with an empty buffer and
/// gets bytes from the file: a block is fetched and all of it handed out.
proof fn lemma_dsd_step(s: DffView, out: Seq<Seq<u8>>, w: int, bpc: int)
    requires
        s.audio_kind == Some(AudioKind::Dsd),
        s.ch > 0,
        s.pos_frames == s.filled_frames,
        s.file.len() <= max_offset(),
        0 <= w < bpc <= usize::MAX,
        out.len() >= s.ch,
        spec_fill_dsd(s, bpc - w).1,
    ensures
        ({
            let (s2, out2, w2) = spec_copy(spec_fill_dsd(s, bpc - w).0, out, w, bpc);
            let ch = s.ch as int;
            let k = w2 - w;
            &&& 0 <= k <= bpc - w
            &&& s2.ch == s.ch
            &&& s2.audio_kind == s.audio_kind
            &&& s2.file == s.file
            &&& s2.pos_frames == s2.filled_frames
            &&& s2.read_frames == sat_add(s.read_frames as int, k)
            &&& s2.file.len() <= max_offset()
            &&& s2.pos > s.pos
            &&& ((s2.pos == s.pos + k * ch && frames_left(s2) == frames_left(s) - k) || (
            frames_left(s2) == 0 && k == frames_left(s)))
            &&& out2.len() == out.len()
            &&& forall|c: int| 0 <= c < out.len() ==> #[trigger] out2[c].len() == out[c].len()
            &&& forall|c: int, j: int|
                0 <= c < ch && w <= j < w2 && j < out[c].len() ==> #[trigger] out2[c][j]
                    == s.file[s.pos + (j - w) * ch + c]
            &&& forall|c: int, j: int|
                0 <= c < out.len() && 0 <= j < out[c].len() && !(c < ch && w <= j < w2)
                    ==> #[trigger] out2[c][j] == out[c][j]
        }),
{
    let ch = s.ch as int;
    let need = bpc - w;
    let f = if need <= BLOCK_FRAMES {
        need
    } else {
        BLOCK_FRAMES as int
    };
    let nbytes = f * ch;
    let n = read_count(s.file, s.pos, nbytes);
    let (s1, got1) = spec_fill_dsd(s, need);
    assert(n > 0);
    assert(n / ch <= f && (n / ch) * ch <= n) by (nonlinear_arith)
        requires
            ch > 0,
            0 < n <= f * ch,
    ;
    let (s2, out2, w2) = spec_copy(s1, out, w, bpc);
    assert(w2 == w + n / ch);
    let fl = frames_left(s);
    if n == nbytes {
        assert(n / ch == f) by (nonlinear_arith)
            requires
                ch > 0,
                n == f * ch,
        ;
        lemma_div_sub(s.file.len() - s.pos, f, ch);
    } else {
        assert(s2.pos == s.file.len());
    }
    assert forall|c: int, j: int|
        0 <= c < ch && w <= j < w2 && j < out[c].len() implies #[trigger] out2[c][j]
            == s.file[s.pos + (j - w) * ch + c] by {
        assert(out2[c][j] == s1.buf[(j - w) * ch + c]);
        assert(0 <= (j - w) * ch + c < n) by (nonlinear_arith)
            requires
                0 <= j - w < n / ch,
                0 <= c < ch,
                (n / ch) * ch <= n,
        ;
    }
}

/// A plain DSD read loop that starts with an empty buffer hands out the next
/// whole frames of the file, de-interleaved, as many as are wanted and left.
proof fn lemma_dsd_loop(s: DffView, out: Seq<Seq<u8>>, w: int, bpc: int)
    requires
        s.audio_kind == Some(AudioKind::Dsd),
        s.ch > 0,
        s.pos_frames == s.filled_frames,
        s.file.len() <= max_offset(),
        0 <= w <= bpc <= usize::MAX,
        out.len() >= s.ch,
    ensures
        ({
            let (s2, out2, r) = spec_read_loop(s, out, w, bpc);
            let got = min_int(bpc - w, frames_left(s));
            &&& got >= 0
            &&& r == Ok::<usize, DsdError>((w + got) as usize)
            &&& s2.read_frames == sat_add(s.read_frames as int, got)
            &&& out2.len() == out.len()
            &&& forall|c: int| 0 <= c < out.len() ==> #[trigger] out2[c].len() == out[c].len()
            &&& forall|c: int, j: int|
                0 <= c < s.ch && w <= j < w + got && j < out[c].len() ==> #[trigger] out2[c][j]
                    == s.file[s.pos + (j - w) * s.ch + c]
            &&& forall|c: int, j: int|
                0 <= c < out.len() && 0 <= j < out[c].len() && !(c < s.ch && w <= j < w + got)
                    ==> #[trigger] out2[c][j] == out[c][j]
            &&& s2.pos_frames == s2.filled_frames
            &&& s2.ch == s.ch
            &&& s2.audio_kind == s.audio_kind
            &&& s2.file == s.file
            &&& frames_left(s2) == frames_left(s) - got
            &&& frames_left(s2) > 0 ==> s2.pos == s.pos + got * s.ch
        }),
    decreases bpc - w, if s.pos < s.file.len() {
        s.file.len() - s.pos
    } else {
        0
    },
{
    let ch = s.ch as int;
    if w >= bpc {
        assert(frames_left(s) >= 0) by (nonlinear_arith)
            requires
                ch > 0,
                frames_left(s) == (if s.pos < s.file.len() {
                    (s.file.len() - s.pos) / ch
                } else {
                    0
                }),
        ;
        assert(0 * ch == 0);
        return;
    }
    let need = bpc - w;
    let (s1, got1) = spec_fill_dsd(s, need);
    if !got1 {
        let f = if need <= BLOCK_FRAMES {
            need
        } else {
            BLOCK_FRAMES as int
        };
        assert(f * ch >= 1) by (nonlinear_arith)
            requires
                f >= 1,
                ch > 0,
        ;
        assert(s.pos >= s.file.len());
        return;
    }
    lemma_dsd_step(s, out, w, bpc);
    let (s2, out2, w2) = spec_copy(s1, out, w, bpc);
    lemma_dsd_loop(s2, out2, w2, bpc);
    let (s3, out3, r3) = spec_read_loop(s2, out2, w2, bpc);
    assert(spec_read_loop(s, out, w, bpc) == (s3, out3, r3));
    let fl = frames_left(s);
    let got = min_int(bpc - w, fl);
    assert(w2 + min_int(bpc - w2, frames_left(s2)) == w + got);
    if frames_left(s3) > 0 {
        let g2 = min_int(bpc - w2, frames_left(s2));
        assert(s3.pos == s.pos + (w2 - w) * ch + g2 * ch);
        assert((w2 - w) * ch + g2 * ch == (w2 - w + g2) * ch) by (nonlinear_arith);
    }
    assert forall|c: int, j: int|
        0 <= c < s.ch && w <= j < w + got && j < out[c].len() implies #[trigger] out3[c][j]
            == s.file[s.pos + (j - w) * s.ch + c] by {
        if j >= w2 {
            assert(s2.pos == s.pos + (w2 - w) * ch);
            assert(s2.pos + (j - w2) * ch + c == s.pos + (j - w) * ch + c) by (nonlinear_arith)
                requires
                    s2.pos == s.pos + (w2 - w) * ch,
            ;
        }
    }
}


/// After a plain DSD reader seeks to sample frame `k`, a read of up to `bpc`
/// frames per channel hands channel `c` byte `c` of frames `k`, `k + 1`, ...
/// of the sound data (as many as are wanted and whole in the file), leaves
/// the rest of the rows as they were, and moves the position on by as many
/// frames as it handed out.
pub proof fn law_dsd_seek_then_read(s: DffView, k: u64, out: Seq<Seq<u8>>, bpc: usize)
    requires
        s.wf(),
        s.audio_kind == Some(AudioKind::Dsd),
        s.ch > 0,
        spec_seek_samples(s, k).1 is Ok,
        out.len() >= s.ch,
    ensures
        ({
            let s1 = spec_seek_samples(s, k).0;
            let (s2, out2, r) = spec_read(s1, out, bpc);
            let start = s.data_start + k * s.ch;
            let got = min_int(bpc as int, frames_left(s1));
            &&& s1.read_frames == k
            &&& s1.pos == start
            &&& 0 <= got <= bpc
            &&& r == Ok::<usize, DsdError>(got as usize)
            &&& s2.read_frames == sat_add(k as int, got)
            &&& forall|c: int, j: int|
                0 <= c < s.ch && 0 <= j < got && j < out[c].len() ==> #[trigger] out2[c][j]
                    == s.file[start + j * s.ch + c]
            &&& forall|c: int, j: int|
                0 <= c < out.len() && 0 <= j < out[c].len() && !(c < s.ch && j < got)
                    ==> #[trigger] out2[c][j] == out[c][j]
        }),
{
    let s1 = spec_seek_samples(s, k).0;
    lemma_dsd_loop(s1, out, 0, bpc as int);
}


/// A DSDIFF file opens as most-significant-bit first, and what `open`
/// reports in the format agrees with the reader: the channel count and the
/// sample frame count; the reader is then at the first frame.
pub proof fn law_open_reports_reader(s: DffView, f: DSDFormat)
    requires
        spec_open(s, f).2 is Ok,
    ensures
        ({
            let (s1, f1, _) = spec_open(s, f);
            &&& !f1.is_lsb_first
            &&& f1.num_channels == s1.ch
            &&& f1.total_samples == s1.total_frames
            &&& s1.read_frames == 0
            &&& s1.audio_kind is Some
        }),
{
}

/// Once the file's ID3 tag is taken, later `ID3 ` chunks leave the
/// metadata as it is.
pub proof fn law_first_id3_chunk_wins(s: DffView, size: u64)
    requires
        s.metadata.id3_raw is Some,
    ensures
        spec_id3_chunk(s, size).0.metadata == s.metadata,
{
}

/// Without a DST decoder a DST reader hands out no sample byte: the rows are
/// left as they were, and a read ends with no byte or with an error.
pub proof fn law_dst_read_hands_out_nothing(s: DffView, out: Seq<Seq<u8>>, bpc: usize)
    requires
        s.wf(),
        s.audio_kind == Some(AudioKind::Dst),
        s.pos_frames == s.filled_frames,
    ensures
        ({
            let (s2, out2, r) = spec_read(s, out, bpc);
            &&& out2 == out
            &&& (r is Ok ==> r == Ok::<usize, DsdError>(0))
        }),
{
}

/// A read loop that has written `w` frames to each row ends with at most
/// `bpc` written, and counts what it adds to the position.
proof fn lemma_read_loop_count(s: DffView, out: Seq<Seq<u8>>, w: int, bpc: int)
    requires
        s.pos_frames <= s.filled_frames,
        s.ch > 0,
        s.file.len() <= max_offset(),
        0 <= w <= bpc <= usize::MAX,
    ensures
        ({
            let (s2, out2, r) = spec_read_loop(s, out, w, bpc);
            &&& r matches Ok(n) ==> w <= n <= bpc && s2.read_frames == sat_add(
                s.read_frames as int,
                n - w,
            )
            &&& keeps_stream(s, s2)
        }),
    decreases bpc - w, if s.pos < s.file.len() {
        s.file.len() - s.pos
    } else {
        0
    },
{
    if w >= bpc {
        return;
    }
    if s.pos_frames == s.filled_frames {
        if s.audio_kind == Some(AudioKind::Dst) {
            lemma_dst_scan_keeps_counters(s);
        }
        if s.audio_kind == Some(AudioKind::Dsd) {
            let ch = s.ch as int;
            let (s1, got) = spec_fill_dsd(s, bpc - w);
            if got {
                let f = if bpc - w <= BLOCK_FRAMES {
                    bpc - w
                } else {
                    BLOCK_FRAMES as int
                };
                let n = read_count(s.file, s.pos, f * ch);
                assert(n / ch <= f) by (nonlinear_arith)
                    requires
                        ch > 0,
                        0 < n <= f * ch,
                ;
                let (s2, out2, w2) = spec_copy(s1, out, w, bpc);
                lemma_read_loop_count(s2, out2, w2, bpc);
                let (s3, out3, r3) = spec_read_loop(s2, out2, w2, bpc);
                if let Ok(n) = r3 {
                    lemma_sat_add_twice(s.read_frames as int, w2 - w, n - w2);
                }
            }
        }
    } else {
        let (s2, out2, w2) = spec_copy(s, out, w, bpc);
        lemma_read_loop_count(s2, out2, w2, bpc);
        let (s3, out3, r3) = spec_read_loop(s2, out2, w2, bpc);
        if let Ok(n) = r3 {
            lemma_sat_add_twice(s.read_frames as int, w2 - w, n - w2);
        }
    }
}

/// Scanning for a DST frame moves only the file position and the frame buffer.
proof fn lemma_dst_scan_keeps_counters(s: DffView)
    ensures
        spec_dst_scan(s).0.read_frames == s.read_frames,
        keeps_stream(s, spec_dst_scan(s).0),
    decreases gap(s.data_end, s.pos),
{
    let cs = s.pos;
    if cs + 12 <= s.data_end && s.fits(4) {
        let s1 = s.adv(4);
        if s1.fits(8) {
            let size = s1.num(8);
            let s2 = s1.adv(8);
            if s.num(4) == ID_DSTF {
            } else if s.num(4) == ID_DSTC && size == 4 {
                if seekable(s2.pos + 4) {
                    lemma_dst_scan_keeps_counters(s2.adv(4));
                }
            } else if seekable(cs + 1) {
                lemma_dst_scan_keeps_counters(s.at((cs + 1) as u64));
            }
        }
    }
}

/// Two saturating additions of non-negative amounts make one.
proof fn lemma_sat_add_twice(a: int, x: int, y: int)
    requires
        0 <= a <= u64::MAX,
        0 <= x,
        0 <= y,
    ensures
        sat_add(sat_add(a, x) as int, y) == sat_add(a, x + y),
{
}

/// A read never reports more frames than were asked for, and the position
/// moves on by exactly the number it reports (saturating at `u64::MAX`).
pub proof fn law_read_count(s: DffView, out: Seq<Seq<u8>>, bpc: usize)
    requires
        s.wf(),
    ensures
        ({
            let (s2, out2, r) = spec_read(s, out, bpc);
            r matches Ok(n) ==> n <= bpc && s2.read_frames == sat_add(s.read_frames as int, n as int)
        }),
{
    if s.ch > 0 && out.len() >= s.ch {
        lemma_read_loop_count(s, out, 0, bpc as int);
    }
}

/// Whether `b` reads the same stream as `a`: the file, the sound parameters,
/// where the sound data lies, and the metadata.
pub open spec fn keeps_stream(a: DffView, b: DffView) -> bool {
    &&& b.file == a.file
    &&& b.ch == a.ch
    &&& b.total_frames == a.total_frames
    &&& b.audio_kind == a.audio_kind
    &&& b.data_start == a.data_start
    &&& b.data_end == a.data_end
    &&& b.dst_frame_count == a.dst_frame_count
    &&& b.dst_channel_frame_size == a.dst_channel_frame_size
    &&& b.metadata == a.metadata
}

/// Probing the candidate `DSTI` bases moves only the file position.
proof fn lemma_probe_keeps_stream(s: DffView, raw0: int, k: int)
    ensures
        keeps_stream(s, spec_probe(s, raw0, k).0),
    decreases 6 - k,
{
    if 0 <= k < 6 {
        let p = base_candidate(s, k) + raw0;
        if in_i64(p) {
            if p < 0 {
                lemma_probe_keeps_stream(s, raw0, k + 1);
            } else {
                let s1 = s.at(p as u64);
                if !(s1.fits(4) && s1.num(4) == ID_DSTF) {
                    let s2 = if s1.fits(4) {
                        s1.adv(4)
                    } else {
                        s1.short()
                    };
                    lemma_probe_keeps_stream(s2, raw0, k + 1);
                }
            }
        }
    }
}

/// Seeking and reading keep the stream: the file, the channel count, the
/// frame count, the kind and place of the sound data, and the metadata are
/// what they were.
pub proof fn law_seek_and_read_keep_stream(s: DffView, k: u64, out: Seq<Seq<u8>>, bpc: usize)
    requires
        s.wf(),
    ensures
        keeps_stream(s, spec_seek_samples(s, k).0),
        keeps_stream(s, spec_read(s, out, bpc).0),
{
    if s.dsti_index.len() > 0 && s.dsti_base is None {
        lemma_probe_keeps_stream(s, as_i64(s.dsti_index[0]), 0);
    }
    if s.ch > 0 && out.len() >= s.ch {
        lemma_read_loop_count(s, out, 0, bpc as int);
    }
}

/// What a DST frame scan finds depends only on the file, the position and
/// where the sound data ends.
proof fn lemma_dst_scan_same(a: DffView, b: DffView)
    requires
        a.file == b.file,
        a.pos == b.pos,
        a.data_end == b.data_end,
        a.file.len() <= max_offset(),
    ensures
        spec_dst_scan(a).1 == spec_dst_scan(b).1,
    decreases gap(a.data_end, a.pos),
{
    let cs = a.pos;
    if cs + 12 <= a.data_end && a.fits(4) {
        assert(a.num(4) == b.num(4));
        let a1 = a.adv(4);
        let b1 = b.adv(4);
        if a1.fits(8) {
            assert(a1.num(8) == b1.num(8));
            let size = a1.num(8);
            let a2 = a1.adv(8);
            let b2 = b1.adv(8);
            if a.num(4) == ID_DSTF {
            } else if a.num(4) == ID_DSTC && size == 4 {
                if seekable(a2.pos + 4) {
                    lemma_dst_scan_same(a2.adv(4), b2.adv(4));
                }
            } else if seekable(cs + 1) {
                lemma_dst_scan_same(a.at((cs + 1) as u64), b.at((cs + 1) as u64));
            }
        }
    }
}

/// Two readers of the same stream, at the same position with nothing
/// buffered, hand out the same bytes and report the same result.
proof fn lemma_read_same(a: DffView, b: DffView, out: Seq<Seq<u8>>, bpc: usize)
    requires
        a.file.len() <= max_offset(),
        keeps_stream(a, b),
        a.pos == b.pos,
        a.pos_frames == a.filled_frames,
        b.pos_frames == b.filled_frames,
    ensures
        spec_read(a, out, bpc).1 == spec_read(b, out, bpc).1,
        spec_read(a, out, bpc).2 == spec_read(b, out, bpc).2,
{
    if a.ch > 0 && out.len() >= a.ch && bpc > 0 {
        if a.audio_kind == Some(AudioKind::Dsd) {
            lemma_dsd_loop(a, out, 0, bpc as int);
            lemma_dsd_loop(b, out, 0, bpc as int);
            let oa = spec_read(a, out, bpc).1;
            let ob = spec_read(b, out, bpc).1;
            assert(frames_left(a) == frames_left(b));
            assert forall|c: int| 0 <= c < oa.len() implies #[trigger] oa[c] =~= ob[c] by {
                assert forall|j: int| 0 <= j < oa[c].len() implies oa[c][j] == ob[c][j] by {
                    let got = min_int(bpc as int, frames_left(a));
                    if c < a.ch && 0 <= j < got {
                        assert(oa[c][j] == a.file[a.pos + (j - 0) * a.ch + c]);
                        assert(ob[c][j] == b.file[b.pos + (j - 0) * b.ch + c]);
                    } else {
                        assert(oa[c][j] == out[c][j]);
                        assert(ob[c][j] == out[c][j]);
                    }
                }
            }
            assert(oa =~= ob);
        } else if a.audio_kind == Some(AudioKind::Dst) {
            lemma_dst_scan_same(a, b);
        }
    }
}

/// `reset` brings a reader back to the start of the sound data: whatever was
/// read or sought since `open`, the next read hands out the same bytes and
/// reports the same result as the first read after `open`.
pub proof fn law_reset_repeats_first_read(
    s: DffView,
    f: DSDFormat,
    t: DffView,
    out: Seq<Seq<u8>>,
    bpc: usize,
)
    requires
        s.wf(),
        spec_open(s, f).2 is Ok,
        t.wf(),
        keeps_stream(spec_open(s, f).0, t),
    ensures
        spec_seek_samples(t, 0).1 is Ok,
        spec_read(spec_seek_samples(t, 0).0, out, bpc).1 == spec_read(spec_open(s, f).0, out, bpc).1,
        spec_read(spec_seek_samples(t, 0).0, out, bpc).2 == spec_read(spec_open(s, f).0, out, bpc).2,
{
    let s1 = spec_open(s, f).0;
    let t1 = spec_seek_samples(t, 0).0;
    assert(0 * t.ch == 0);
    assert(s1.pos == s1.data_start && s1.pos_frames == 0 && s1.filled_frames == 0) by {
        assert(0 * s1.ch == 0);
    }
    lemma_read_same(s1, t1, out, bpc);
}

/// A plain DSD read does not depend on how a request is split into calls:
/// from a reader with nothing buffered (as after `open`, a seek or any read:
/// see `law_dsd_nothing_buffered`),
/// a read of `k1` frames that gets them all, followed by a read of `k2`
/// frames that gets them all, hands out the same bytes per channel as one
/// read of `k1 + k2` frames, which also gets them all.
pub proof fn law_split_read(
    s: DffView,
    o: Seq<Seq<u8>>,
    o1: Seq<Seq<u8>>,
    o2: Seq<Seq<u8>>,
    k1: usize,
    k2: usize,
)
    requires
        s.wf(),
        s.audio_kind == Some(AudioKind::Dsd),
        s.ch > 0,
        s.pos_frames == s.filled_frames,
        o.len() >= s.ch,
        o1.len() >= s.ch,
        o2.len() >= s.ch,
        k1 + k2 <= usize::MAX,
        spec_read(s, o1, k1).2 == Ok::<usize, DsdError>(k1),
        spec_read(spec_read(s, o1, k1).0, o2, k2).2 == Ok::<usize, DsdError>(k2),
    ensures
        ({
            let first = spec_read(s, o1, k1).1;
            let second = spec_read(spec_read(s, o1, k1).0, o2, k2).1;
            let (_, whole, r) = spec_read(s, o, (k1 + k2) as usize);
            &&& r == Ok::<usize, DsdError>((k1 + k2) as usize)
            &&& forall|c: int, j: int|
                0 <= c < s.ch && 0 <= j < k1 && j < o[c].len() && j < o1[c].len() ==> #[trigger] whole[c][j]
                    == #[trigger] first[c][j]
            &&& forall|c: int, j: int|
                0 <= c < s.ch && 0 <= j < k2 && k1 + j < o[c].len() && j < o2[c].len() ==> #[trigger] whole[c][k1 + j]
                    == #[trigger] second[c][j]
        }),
{
    let ch = s.ch as int;
    lemma_dsd_loop(s, o1, 0, k1 as int);
    let s1 = spec_read(s, o1, k1).0;
    lemma_dsd_loop(s1, o2, 0, k2 as int);
    lemma_dsd_loop(s, o, 0, (k1 + k2) as int);
    let first = spec_read(s, o1, k1).1;
    let second = spec_read(s1, o2, k2).1;
    let whole = spec_read(s, o, (k1 + k2) as usize).1;
    assert forall|c: int, j: int|
        0 <= c < s.ch && 0 <= j < k2 && k1 + j < o[c].len() && j < o2[c].len() implies #[trigger] whole[c][k1 + j]
            == #[trigger] second[c][j] by {
        assert(frames_left(s1) > 0);
        assert(s1.pos == s.pos + k1 * ch);
        assert(second[c][j] == s1.file[s1.pos + (j - 0) * ch + c]);
        assert(whole[c][k1 + j] == s.file[s.pos + (k1 + j - 0) * ch + c]);
        assert(s.pos + k1 * ch + j * ch == s.pos + (k1 + j) * ch) by (nonlinear_arith);
    }
    assert forall|c: int, j: int|
        0 <= c < s.ch && 0 <= j < k1 && j < o[c].len() && j < o1[c].len() implies #[trigger] whole[c][j]
            == #[trigger] first[c][j] by {
        assert(first[c][j] == s.file[s.pos + (j - 0) * ch + c]);
        assert(whole[c][j] == s.file[s.pos + (j - 0) * ch + c]);
    }
}

/// The top-level chunk ids that `open` reads.
pub open spec fn known_chunk(id: nat) -> bool {
    id == ID_PROP || id == ID_DSD || id == ID_DST || id == ID_DSTI || id == ID_DIIN || id == ID_DIAL
        || id == ID_DIGN || id == ID_DICR || id == ID_DIFC || id == ID_ID3
}

/// A top-level chunk of any other id is stepped over by its size rounded up
/// to even (its pad byte), and changes nothing but the position: not the
/// sound parameters found so far, not the metadata.
pub proof fn law_unknown_chunk_skipped(s: DffView, l: OpenLocals)
    requires
        s.fits(12),
        !known_chunk(s.num(4)),
        seekable(s.pos + 12 + padded(s.adv(4).num(8) as u64)),
    ensures
        spec_chunk(s, l) == (
            DffView { pos: (s.pos + 12 + padded(s.adv(4).num(8) as u64)) as u64, ..s },
            l,
            Ok::<(), DsdError>(()),
        ),
{
    lemma_be_bound(s.bytes(4));
    lemma_be_bound(s.adv(4).bytes(8));
    lemma_pow256_8();
    assert(s.adv(4).fits(8));
}

/// A plain DSD reader never holds part of a block between calls: `open`
/// leaves nothing buffered, a seek leaves nothing buffered, and a read that
/// starts with nothing buffered hands out all it fetched. So `law_split_read`
/// covers every state such a reader reaches.
pub proof fn law_dsd_nothing_buffered(
    s: DffView,
    f: DSDFormat,
    t: DffView,
    k: u64,
    out: Seq<Seq<u8>>,
    bpc: usize,
)
    requires
        s.wf(),
        t.wf(),
        t.audio_kind == Some(AudioKind::Dsd),
    ensures
        spec_open(s, f).2 is Ok ==> spec_open(s, f).0.pos_frames == spec_open(s, f).0.filled_frames,
        spec_seek_samples(t, k).1 is Ok ==> spec_seek_samples(t, k).0.pos_frames
            == spec_seek_samples(t, k).0.filled_frames,
        t.pos_frames == t.filled_frames ==> spec_read(t, out, bpc).0.pos_frames == spec_read(
            t,
            out,
            bpc,
        ).0.filled_frames,
{
    if t.pos_frames == t.filled_frames && t.ch > 0 && out.len() >= t.ch {
        lemma_dsd_loop(t, out, 0, bpc as int);
    }
}

// ---------------------------------------------------------------------------
// A chunk placed before the others

/// Reader `b` reads a file that holds the bytes of `a`'s file from offset 16
/// on, moved `d` bytes further, and stands `d` bytes further; everything else
/// but the three offsets into the sound data is the same.
pub open spec fn shifted(a: DffView, b: DffView, d: int) -> bool {
    &&& d >= 0
    &&& d % 2 == 0
    &&& b.file.len() == a.file.len() + d
    &&& b.file.len() <= max_offset()
    &&& forall|p: int| 16 <= p < a.file.len() ==> #[trigger] a.file[p] == b.file[p + d]
    &&& a.pos >= 16
    &&& b.pos == a.pos + d
    &&& b.buf == a.buf
    &&& b.ch == a.ch
    &&& b.filled_frames == a.filled_frames
    &&& b.pos_frames == a.pos_frames
    &&& b.total_frames == a.total_frames
    &&& b.read_frames == a.read_frames
    &&& b.audio_kind == a.audio_kind
    &&& b.dst_framerate == a.dst_framerate
    &&& b.dst_frame_count == a.dst_frame_count
    &&& b.dst_channel_frame_size == a.dst_channel_frame_size
    &&& b.dsti_index == a.dsti_index
    &&& b.dsti_base == a.dsti_base
    &&& b.dst_frame_buf == a.dst_frame_buf
    &&& b.metadata == a.metadata
}

/// The offsets into the sound data agree with the kind of sound chunk found:
/// none found, they are the same; found, they lie `d` bytes further in `b`
/// (the `DST ` chunk start only for DST sound).
pub open spec fn shifted_offsets(a: DffView, b: DffView, d: int, l: OpenLocals) -> bool {
    match l.audio_kind {
        None => b.data_start == a.data_start && b.data_end == a.data_end
            && b.dst_chunk_payload_start == a.dst_chunk_payload_start,
        Some(AudioKind::Dsd) => a.data_start >= 16 && b.data_start == a.data_start + d
            && b.data_end == a.data_end + d && b.dst_chunk_payload_start
            == a.dst_chunk_payload_start,
        Some(AudioKind::Dst) => a.data_start >= 16 && b.data_start == a.data_start + d
            && b.data_end == a.data_end + d && b.dst_chunk_payload_start
            == a.dst_chunk_payload_start + d,
    }
}

/// The three offsets into the sound data are the same in `x` and `y`.
pub open spec fn same_offsets(x: DffView, y: DffView) -> bool {
    x.data_start == y.data_start && x.data_end == y.data_end && x.dst_chunk_payload_start
        == y.dst_chunk_payload_start
}

proof fn lemma_shifted_read(a: DffView, b: DffView, d: int, n: int)
    requires
        shifted(a, b, d),
        0 <= n,
    ensures
        a.fits(n) == b.fits(n),
        a.fits(n) ==> a.bytes(n) == b.bytes(n) && a.num(n) == b.num(n) && shifted(
            a.adv(n),
            b.adv(n),
            d,
        ) && same_offsets(a, a.adv(n)) && same_offsets(b, b.adv(n)),
        shifted(a.short(), b.short(), d),
        same_offsets(a, a.short()),
        same_offsets(b, b.short()),
{
    if a.fits(n) {
        assert(a.bytes(n) =~= b.bytes(n)) by {
            assert forall|k: int| 0 <= k < n implies a.bytes(n)[k] == b.bytes(n)[k] by {
                assert(a.file[a.pos + k] == b.file[a.pos + k + d]);
            }
        }
    }
}

proof fn lemma_shifted_seek(a: DffView, b: DffView, d: int, t: int)
    requires
        shifted(a, b, d),
        t >= 16,
    ensures
        spec_seek(b, t + d).1 is Ok ==> spec_seek(a, t).1 is Ok && shifted(
            spec_seek(a, t).0,
            spec_seek(b, t + d).0,
            d,
        ),
        same_offsets(a, spec_seek(a, t).0),
        same_offsets(b, spec_seek(b, t + d).0),
{
}

proof fn lemma_shifted_payload(a: DffView, b: DffView, d: int, len: u64)
    requires
        shifted(a, b, d),
    ensures
        ({
            let (a1, ra) = spec_read_payload(a, len);
            let (b1, rb) = spec_read_payload(b, len);
            &&& same_offsets(a, a1)
            &&& same_offsets(b, b1)
            &&& rb is Some ==> ra == rb && shifted(a1, b1, d)
            &&& rb is None ==> (ra is None && shifted(a1, b1, d)) || !seekable(b.pos + padded(len))
        }),
{
    lemma_shifted_read(a, b, d, len as int);
    if a.fits(len as int) {
        lemma_shifted_read(a.adv(len as int), b.adv(len as int), d, 1);
    }
}

proof fn lemma_shifted_snd_body(a: DffView, b: DffView, d: int, l: OpenLocals, id: u32, size: u64)
    requires
        shifted(a, b, d),
    ensures
        ({
            let (a1, la, ra) = spec_snd_body(a, l, id, size);
            let (b1, lb, rb) = spec_snd_body(b, l, id, size);
            rb is Ok ==> ra == rb && la == lb && shifted(a1, b1, d) && same_offsets(a, a1)
                && same_offsets(b, b1) && la.audio_kind == l.audio_kind
        }),
{
    lemma_shifted_read(a, b, d, 4);
    lemma_shifted_read(a, b, d, 2);
    lemma_shifted_seek(a, b, d, a.pos + size);
}

proof fn lemma_shifted_snd_sub(a: DffView, b: DffView, d: int, l: OpenLocals)
    requires
        shifted(a, b, d),
    ensures
        ({
            let (a1, la, ra) = spec_snd_sub(a, l);
            let (b1, lb, rb) = spec_snd_sub(b, l);
            rb is Ok ==> ra == rb && la == lb && shifted(a1, b1, d) && same_offsets(a, a1)
                && same_offsets(b, b1) && la.audio_kind == l.audio_kind
        }),
{
    lemma_shifted_read(a, b, d, 4);
    if a.fits(4) {
        let a1 = a.adv(4);
        let b1 = b.adv(4);
        lemma_shifted_read(a1, b1, d, 8);
        if a1.fits(8) {
            let size = a1.num(8) as u64;
            let a2 = a1.adv(8);
            let b2 = b1.adv(8);
            lemma_shifted_snd_body(a2, b2, d, l, a.num(4) as u32, size);
            let (a3, la3, ra3) = spec_snd_body(a2, l, a.num(4) as u32, size);
            let (b3, lb3, rb3) = spec_snd_body(b2, l, a.num(4) as u32, size);
            if rb3 is Ok {
                lemma_shifted_seek(a3, b3, d, a2.pos + padded(size));
            }
        }
    }
}

proof fn lemma_shifted_snd_walk(a: DffView, b: DffView, d: int, l: OpenLocals, ea: u64, eb: u64)
    requires
        shifted(a, b, d),
        eb == ea + d,
    ensures
        ({
            let (a1, la, ra) = spec_snd_walk(a, l, ea);
            let (b1, lb, rb) = spec_snd_walk(b, l, eb);
            rb is Ok ==> ra == rb && la == lb && shifted(a1, b1, d) && same_offsets(a, a1)
                && same_offsets(b, b1) && la.audio_kind == l.audio_kind
        }),
    decreases gap(ea, a.pos),
{
    if a.pos < ea {
        lemma_shifted_snd_sub(a, b, d, l);
        let (a1, la1, ra1) = spec_snd_sub(a, l);
        let (b1, lb1, rb1) = spec_snd_sub(b, l);
        lemma_snd_sub_advances(a, l);
        lemma_snd_sub_advances(b, l);
        if rb1 is Ok {
            lemma_shifted_snd_walk(a1, b1, d, la1, ea, eb);
        }
    }
}

proof fn lemma_shifted_prop(a: DffView, b: DffView, d: int, l: OpenLocals, size: u64)
    requires
        shifted(a, b, d),
    ensures
        ({
            let (a1, la, ra) = spec_prop(a, l, size);
            let (b1, lb, rb) = spec_prop(b, l, size);
            rb is Ok ==> ra == rb && la == lb && shifted(a1, b1, d) && same_offsets(a, a1)
                && same_offsets(b, b1) && la.audio_kind == l.audio_kind
        }),
{
    lemma_shifted_read(a, b, d, 4);
    if a.fits(4) {
        let a1 = a.adv(4);
        let b1 = b.adv(4);
        if a.num(4) == ID_SND && b.pos + size <= u64::MAX {
            lemma_shifted_snd_walk(a1, b1, d, l, (a.pos + size) as u64, (b.pos + size) as u64);
            let (a2, la2, ra2) = spec_snd_walk(a1, l, (a.pos + size) as u64);
            let (b2, lb2, rb2) = spec_snd_walk(b1, l, (b.pos + size) as u64);
            if rb2 is Ok {
                lemma_shifted_seek(a2, b2, d, a.pos + padded(size));
            }
        } else {
            lemma_shifted_seek(a1, b1, d, a.pos + padded(size));
        }
    }
}

proof fn lemma_shifted_dsti_walk(a: DffView, b: DffView, d: int, remaining: u64)
    requires
        shifted(a, b, d),
    ensures
        ({
            let (a1, ra) = spec_dsti_walk(a, remaining);
            let (b1, rb) = spec_dsti_walk(b, remaining);
            rb is Ok ==> ra == rb && shifted(a1, b1, d) && same_offsets(a, a1) && same_offsets(b, b1)
        }),
    decreases remaining,
{
    if remaining >= 12 {
        lemma_shifted_read(a, b, d, 8);
        if a.fits(8) {
            let a1 = a.adv(8);
            let b1 = b.adv(8);
            lemma_shifted_read(a1, b1, d, 4);
            if a1.fits(4) {
                let off = a.num(8) as u64;
                let a2 = DffView { dsti_index: a1.dsti_index.push(off), ..a1.adv(4) };
                let b2 = DffView { dsti_index: b1.dsti_index.push(off), ..b1.adv(4) };
                lemma_shifted_dsti_walk(a2, b2, d, (remaining - 12) as u64);
            }
        }
    }
}

proof fn lemma_shifted_dsti(a: DffView, b: DffView, d: int, size: u64)
    requires
        shifted(a, b, d),
    ensures
        ({
            let (a1, ra) = spec_dsti(a, size);
            let (b1, rb) = spec_dsti(b, size);
            rb is Ok ==> ra == rb && shifted(a1, b1, d) && same_offsets(a, a1) && same_offsets(b, b1)
        }),
{
    let a0 = DffView { dsti_index: Seq::empty(), ..a };
    let b0 = DffView { dsti_index: Seq::empty(), ..b };
    lemma_shifted_dsti_walk(a0, b0, d, size);
    let (a1, ra1) = spec_dsti_walk(a0, size);
    let (b1, rb1) = spec_dsti_walk(b0, size);
    if rb1 is Ok {
        lemma_shifted_seek(a1, b1, d, a.pos + padded(size));
    }
}

proof fn lemma_shifted_frte(a: DffView, b: DffView, d: int)
    requires
        shifted(a, b, d),
    ensures
        ({
            let (a1, ra) = spec_frte(a);
            let (b1, rb) = spec_frte(b);
            rb is Ok ==> ra == rb && shifted(a1, b1, d) && b1.data_start == a1.data_start + d
                && a1.data_end == a.data_end && b1.data_end == b.data_end
                && a1.dst_chunk_payload_start == a.dst_chunk_payload_start
                && b1.dst_chunk_payload_start == b.dst_chunk_payload_start
        }),
{
    lemma_shifted_read(a, b, d, 4);
    if a.fits(4) {
        let a1 = a.adv(4);
        let b1 = b.adv(4);
        lemma_shifted_read(a1, b1, d, 8);
        if a1.fits(8) {
            let a2 = a1.adv(8);
            let b2 = b1.adv(8);
            lemma_shifted_read(a2, b2, d, 4);
            if a2.fits(4) {
                let a3 = DffView { dst_frame_count: a2.num(4) as u32, ..a2.adv(4) };
                let b3 = DffView { dst_frame_count: b2.num(4) as u32, ..b2.adv(4) };
                lemma_shifted_read(a3, b3, d, 2);
            }
        }
    }
}

proof fn lemma_shifted_dsd_chunk(a: DffView, b: DffView, d: int, l: OpenLocals, size: u64)
    requires
        shifted(a, b, d),
        shifted_offsets(a, b, d, l),
    ensures
        ({
            let (a1, la, ra) = spec_dsd_chunk(a, l, size);
            let (b1, lb, rb) = spec_dsd_chunk(b, l, size);
            rb is Ok ==> ra == rb && la == lb && shifted(a1, b1, d) && shifted_offsets(a1, b1, d, la)
        }),
{
    if l.audio_kind is None {
        let l1 = OpenLocals { audio_kind: Some(AudioKind::Dsd), audio_chunk_size: size, ..l };
        if b.pos + size <= u64::MAX {
            let a1 = DffView { data_start: a.pos, data_end: (a.pos + size) as u64, ..a };
            let b1 = DffView { data_start: b.pos, data_end: (b.pos + size) as u64, ..b };
            lemma_shifted_seek(a1, b1, d, a.pos + padded(size));
        }
    } else {
        lemma_shifted_seek(a, b, d, a.pos + padded(size));
    }
}

proof fn lemma_shifted_dst_chunk(a: DffView, b: DffView, d: int, l: OpenLocals, size: u64)
    requires
        shifted(a, b, d),
        shifted_offsets(a, b, d, l),
    ensures
        ({
            let (a1, la, ra) = spec_dst_chunk(a, l, size);
            let (b1, lb, rb) = spec_dst_chunk(b, l, size);
            rb is Ok ==> ra == rb && la == lb && shifted(a1, b1, d) && shifted_offsets(a1, b1, d, la)
        }),
{
    if l.audio_kind is None {
        if b.pos + size <= u64::MAX {
            let a1 = DffView {
                data_end: (a.pos + size) as u64,
                dst_chunk_payload_start: a.pos,
                ..a
            };
            let b1 = DffView {
                data_end: (b.pos + size) as u64,
                dst_chunk_payload_start: b.pos,
                ..b
            };
            lemma_shifted_frte(a1, b1, d);
            let (a2, ra2) = spec_frte(a1);
            let (b2, rb2) = spec_frte(b1);
            if rb2 is Ok {
                lemma_shifted_seek(a2, b2, d, a.pos + padded(size));
            }
        }
    } else {
        lemma_shifted_seek(a, b, d, a.pos + padded(size));
    }
}

proof fn lemma_shifted_diin_sub(a: DffView, b: DffView, d: int)
    requires
        shifted(a, b, d),
    ensures
        ({
            let (a1, ra) = spec_diin_sub(a);
            let (b1, rb) = spec_diin_sub(b);
            rb is Ok ==> ra == rb && shifted(a1, b1, d) && same_offsets(a, a1) && same_offsets(b, b1)
        }),
{
    lemma_shifted_read(a, b, d, 4);
    if a.fits(4) {
        let a1 = a.adv(4);
        let b1 = b.adv(4);
        lemma_shifted_read(a1, b1, d, 8);
        if a1.fits(8) {
            let size = a1.num(8) as u64;
            let a2 = a1.adv(8);
            let b2 = b1.adv(8);
            lemma_shifted_payload(a2, b2, d, size);
            let (a3, ra3) = spec_read_payload(a2, size);
            let (b3, rb3) = spec_read_payload(b2, size);
            if rb3 is None {
                if ra3 is None {
                    lemma_shifted_seek(a3, b3, d, a2.pos + padded(size));
                }
            }
            lemma_shifted_seek(a2, b2, d, a2.pos + padded(size));
        }
    }
}

proof fn lemma_shifted_diin_walk(a: DffView, b: DffView, d: int, ea: u64, eb: u64)
    requires
        shifted(a, b, d),
        eb == ea + d,
    ensures
        ({
            let (a1, ra) = spec_diin_walk(a, ea);
            let (b1, rb) = spec_diin_walk(b, eb);
            rb is Ok ==> ra == rb && shifted(a1, b1, d) && same_offsets(a, a1) && same_offsets(b, b1)
        }),
    decreases gap(ea, a.pos),
{
    if a.pos < ea {
        lemma_shifted_diin_sub(a, b, d);
        lemma_diin_sub_advances(a);
        let (a1, ra1) = spec_diin_sub(a);
        let (b1, rb1) = spec_diin_sub(b);
        if rb1 == Ok::<bool, DsdError>(true) {
            lemma_shifted_diin_walk(a1, b1, d, ea, eb);
        }
    }
}

proof fn lemma_shifted_diin(a: DffView, b: DffView, d: int, size: u64)
    requires
        shifted(a, b, d),
    ensures
        ({
            let (a1, ra) = spec_diin(a, size);
            let (b1, rb) = spec_diin(b, size);
            rb is Ok ==> ra == rb && shifted(a1, b1, d) && same_offsets(a, a1) && same_offsets(b, b1)
        }),
{
    if b.pos + size <= u64::MAX {
        let ea = (a.pos + size) as u64;
        let eb = (b.pos + size) as u64;
        lemma_shifted_diin_walk(a, b, d, ea, eb);
        let (a1, ra1) = spec_diin_walk(a, ea);
        let (b1, rb1) = spec_diin_walk(b, eb);
        if rb1 is Ok {
            lemma_shifted_seek(a1, b1, d, ea as int);
            let (a2, ra2) = spec_seek(a1, ea as int);
            let (b2, rb2) = spec_seek(b1, eb as int);
            if rb2 is Ok {
                lemma_shifted_seek(a2, b2, d, ea + 1);
            }
        }
    }
}

proof fn lemma_shifted_text_chunk(a: DffView, b: DffView, d: int, id: u32, size: u64)
    requires
        shifted(a, b, d),
    ensures
        ({
            let (a1, ra) = spec_text_chunk(a, id, size);
            let (b1, rb) = spec_text_chunk(b, id, size);
            rb is Ok ==> ra == rb && shifted(a1, b1, d) && same_offsets(a, a1) && same_offsets(b, b1)
        }),
{
    lemma_shifted_payload(a, b, d, size);
    let (a1, ra1) = spec_read_payload(a, size);
    let (b1, rb1) = spec_read_payload(b, size);
    if rb1 is None && ra1 is None {
        lemma_shifted_seek(a1, b1, d, a.pos + padded(size));
    }
}

proof fn lemma_shifted_id3_chunk(a: DffView, b: DffView, d: int, size: u64)
    requires
        shifted(a, b, d),
    ensures
        ({
            let (a1, ra) = spec_id3_chunk(a, size);
            let (b1, rb) = spec_id3_chunk(b, size);
            rb is Ok ==> ra == rb && shifted(a1, b1, d) && same_offsets(a, a1) && same_offsets(b, b1)
        }),
{
    if a.metadata.id3_raw is None {
        lemma_shifted_payload(a, b, d, size);
        let (a1, ra1) = spec_read_payload(a, size);
        let (b1, rb1) = spec_read_payload(b, size);
        if rb1 is None && ra1 is None {
            lemma_shifted_seek(a1, b1, d, a.pos + padded(size));
        } else if rb1 is Some {
            lemma_shifted_seek(a1, b1, d, a.pos + padded(size));
        }
    } else {
        lemma_shifted_seek(a, b, d, a.pos + padded(size));
    }
}

proof fn lemma_shifted_chunk(a: DffView, b: DffView, d: int, l: OpenLocals)
    requires
        shifted(a, b, d),
        shifted_offsets(a, b, d, l),
    ensures
        ({
            let (a1, la, ra) = spec_chunk(a, l);
            let (b1, lb, rb) = spec_chunk(b, l);
            rb is Ok ==> ra == rb && la == lb && shifted(a1, b1, d) && shifted_offsets(a1, b1, d, la)
        }),
{
    lemma_shifted_read(a, b, d, 4);
    if a.fits(4) {
        let id = a.num(4) as u32;
        let a1 = a.adv(4);
        let b1 = b.adv(4);
        lemma_shifted_read(a1, b1, d, 8);
        if a1.fits(8) {
            let size = a1.num(8) as u64;
            let a2 = a1.adv(8);
            let b2 = b1.adv(8);
            if id == ID_PROP {
                lemma_shifted_prop(a2, b2, d, l, size);
            } else if id == ID_DSD {
                lemma_shifted_dsd_chunk(a2, b2, d, l, size);
            } else if id == ID_DST {
                lemma_shifted_dst_chunk(a2, b2, d, l, size);
            } else if id == ID_DSTI {
                lemma_shifted_dsti(a2, b2, d, size);
            } else if id == ID_DIIN {
                lemma_shifted_diin(a2, b2, d, size);
            } else if id == ID_DIAL || id == ID_DIGN || id == ID_DICR || id == ID_DIFC {
                lemma_shifted_text_chunk(a2, b2, d, id, size);
            } else if id == ID_ID3 {
                lemma_shifted_id3_chunk(a2, b2, d, size);
            } else {
                lemma_shifted_seek(a2, b2, d, a2.pos + padded(size));
            }
        }
    }
}

proof fn lemma_shifted_top_walk(a: DffView, b: DffView, d: int, l: OpenLocals, ea: u64, eb: u64)
    requires
        shifted(a, b, d),
        shifted_offsets(a, b, d, l),
        eb == ea + d,
    ensures
        ({
            let (a1, la, ra) = spec_top_walk(a, l, ea);
            let (b1, lb, rb) = spec_top_walk(b, l, eb);
            rb is Ok ==> ra == rb && la == lb && shifted(a1, b1, d) && shifted_offsets(a1, b1, d, la)
        }),
    decreases gap(ea, a.pos),
{
    if a.pos < ea {
        lemma_shifted_chunk(a, b, d, l);
        lemma_chunk_advances(a, l);
        let (a1, la1, ra1) = spec_chunk(a, l);
        let (b1, lb1, rb1) = spec_chunk(b, l);
        if rb1 is Ok {
            lemma_shifted_top_walk(a1, b1, d, la1, ea, eb);
        }
    }
}

proof fn lemma_shifted_finish(a: DffView, b: DffView, d: int, l: OpenLocals, f: DSDFormat)
    requires
        shifted(a, b, d),
        shifted_offsets(a, b, d, l),
    ensures
        ({
            let (a1, fa, ra) = spec_finish(a, l, f);
            let (b1, fb, rb) = spec_finish(b, l, f);
            rb is Ok ==> ra == rb && fa == fb && shifted(a1, b1, d) && b1.data_start
                == a1.data_start + d && a1.data_start >= 16 && a1.pos_frames == a1.filled_frames
        }),
{
    if l.audio_kind is Some && l.channels is Some && l.sample_rate_hz is Some {
        let ch = l.channels.unwrap();
        let a1 = DffView {
            ch: ch as usize,
            audio_kind: l.audio_kind,
            filled_frames: 0,
            pos_frames: 0,
            ..a
        };
        let b1 = DffView {
            ch: ch as usize,
            audio_kind: l.audio_kind,
            filled_frames: 0,
            pos_frames: 0,
            ..b
        };
        if l.audio_kind == Some(AudioKind::Dsd) {
            if ch != 0 {
                let tf = l.audio_chunk_size / (ch as u64);
                let a2 = DffView { total_frames: tf, buf: resized(a1.buf, BLOCK_FRAMES * ch), ..a1 };
                let b2 = DffView { total_frames: tf, buf: resized(b1.buf, BLOCK_FRAMES * ch), ..b1 };
                assert(0 * ch == 0);
                lemma_shifted_seek(a2, b2, d, a2.data_start as int);
            }
        } else if a1.dst_framerate != 0 {
            let fs = l.sample_rate_hz.unwrap();
            let cfs = (fs / 8) / (a1.dst_framerate as u32);
            let prod = a1.dst_frame_count * cfs;
            let tf = if prod > u64::MAX {
                u64::MAX
            } else {
                prod as u64
            };
            if cfs * ch <= usize::MAX {
                let a3 = DffView {
                    dst_channel_frame_size: cfs as usize,
                    total_frames: tf,
                    buf: resized(a1.buf, cfs * ch),
                    filled_frames: 0,
                    pos_frames: 0,
                    ..a1
                };
                let b3 = DffView {
                    dst_channel_frame_size: cfs as usize,
                    total_frames: tf,
                    buf: resized(b1.buf, cfs * ch),
                    filled_frames: 0,
                    pos_frames: 0,
                    ..b1
                };
                lemma_shifted_seek(a3, b3, d, a3.data_start as int);
            }
        }
    }
}

/// The bytes of a DSDIFF file whose form holds one more chunk in front, of
/// an id that `open` does not read: `b` is `a` with the form size raised by
/// `d` and `d` bytes (a chunk header and its payload, padded to even length)
/// placed right after the form type.
pub open spec fn with_chunk_in_front(a: Seq<u8>, b: Seq<u8>, d: int) -> bool {
    &&& a.len() >= 16
    &&& b.len() == a.len() + d
    &&& b.len() >= 16 + d
    &&& b.take(4) == a.take(4)
    &&& be_value(b.subrange(4, 12)) == be_value(a.subrange(4, 12)) + d
    &&& b.subrange(12, 16) == a.subrange(12, 16)
    &&& !known_chunk(be_value(b.subrange(16, 20)))
    &&& d == 12 + padded(be_value(b.subrange(20, 28)) as u64)
    &&& b.skip(16 + d) == a.skip(16)
}

/// The walk that `open` makes over a DSDIFF file with a well-formed header.
pub open spec fn open_walk(s: DffView, f: DSDFormat) -> (DffView, DSDFormat, Result<(), DsdError>) {
    let l0 = OpenLocals { audio_kind: None, audio_chunk_size: 0, sample_rate_hz: None, channels: None };
    let f1 = DSDFormat { is_lsb_first: false, ..f };
    let (s4, l4, r4) = spec_top_walk(s.at(16), l0, (12 + s.adv(4).num(8)) as u64);
    if r4 is Err {
        (s4, f1, Err(r4->Err_0))
    } else {
        spec_finish(s4, l4, f1)
    }
}

proof fn lemma_open_header(s: DffView, f: DSDFormat)
    requires
        s.pos == 0,
        s.fits(16),
        s.bytes(4) == s.file.take(4),
        be_value(s.file.take(4)) == ID_FRM8,
        be_value(s.file.subrange(12, 16)) == ID_DSD,
        12 + be_value(s.file.subrange(4, 12)) <= u64::MAX,
    ensures
        spec_open(s, f) == open_walk(s, f),
        s.adv(4).num(8) == be_value(s.file.subrange(4, 12)),
{
    assert(s.bytes(4) =~= s.file.take(4));
    assert(s.adv(4).bytes(8) =~= s.file.subrange(4, 12));
    assert(s.adv(12).bytes(4) =~= s.file.subrange(12, 16));
    lemma_be_bound(s.file.subrange(4, 12));
    lemma_pow256_8();
}

/// Two readers of files that agree `d` bytes apart from offset 16 on, at
/// matching positions with nothing buffered, hand out the same plain DSD bytes.
proof fn lemma_shifted_dsd_read(a: DffView, b: DffView, d: int, out: Seq<Seq<u8>>, bpc: usize)
    requires
        shifted(a, b, d),
        a.audio_kind == Some(AudioKind::Dsd),
        a.pos_frames == a.filled_frames,
    ensures
        spec_read(a, out, bpc).1 == spec_read(b, out, bpc).1,
        spec_read(a, out, bpc).2 == spec_read(b, out, bpc).2,
{
    if a.ch > 0 && out.len() >= a.ch {
        lemma_dsd_loop(a, out, 0, bpc as int);
        lemma_dsd_loop(b, out, 0, bpc as int);
        let oa = spec_read(a, out, bpc).1;
        let ob = spec_read(b, out, bpc).1;
        assert(frames_left(a) == frames_left(b));
        assert forall|c: int| 0 <= c < oa.len() implies #[trigger] oa[c] =~= ob[c] by {
            assert forall|j: int| 0 <= j < oa[c].len() implies oa[c][j] == ob[c][j] by {
                let got = min_int(bpc as int, frames_left(a));
                if c < a.ch && 0 <= j < got {
                    let ch = a.ch as int;
                    let fl = (a.file.len() - a.pos) / ch;
                    assert(a.pos < a.file.len());
                    assert(0 <= j * ch + c < a.file.len() - a.pos) by (nonlinear_arith)
                        requires
                            0 <= j < fl,
                            0 <= c < ch,
                            fl == (a.file.len() - a.pos) / ch,
                            a.pos < a.file.len(),
                    ;
                    let i = a.pos + j * ch + c;
                    assert(a.file[i] == b.file[i + d]);
                    assert(oa[c][j] == a.file[a.pos + (j - 0) * a.ch + c]);
                    assert(ob[c][j] == b.file[b.pos + (j - 0) * b.ch + c]);
                }
            }
        }
        assert(oa =~= ob);
    }
}

proof fn lemma_front_open(a: Seq<u8>, b: Seq<u8>, d: int, f: DSDFormat)
    requires
        with_chunk_in_front(a, b, d),
        b.len() <= max_offset(),
        spec_open(DffView::initial(b), f).2 is Ok,
    ensures
        ({
            let (sa, fa, ra) = spec_open(DffView::initial(a), f);
            let (sb, fb, rb) = spec_open(DffView::initial(b), f);
            &&& ra is Ok
            &&& fa == fb
            &&& shifted(sa, sb, d)
            &&& sa.pos_frames == sa.filled_frames
        }),
{
    let ia = DffView::initial(a);
    let ib = DffView::initial(b);
    assert(ib.fits(4) && ib.num(4) == ID_FRM8);
    assert(ib.adv(4).fits(8));
    assert(ib.adv(12).fits(4) && ib.adv(12).num(4) == ID_DSD);
    assert(ib.bytes(4) =~= b.take(4));
    assert(ib.adv(4).bytes(8) =~= b.subrange(4, 12));
    assert(ib.adv(12).bytes(4) =~= b.subrange(12, 16));
    assert(12 + ib.adv(4).num(8) <= u64::MAX);
    assert(ia.bytes(4) =~= a.take(4));
    lemma_open_header(ia, f);
    lemma_open_header(ib, f);
    let l0 = OpenLocals { audio_kind: None, audio_chunk_size: 0, sample_rate_hz: None, channels: None };
    let f1 = DSDFormat { is_lsb_first: false, ..f };
    let ea = (12 + be_value(a.subrange(4, 12))) as u64;
    let eb = (12 + be_value(b.subrange(4, 12))) as u64;
    let a3 = ia.at(16);
    let b3 = ib.at(16);
    assert(b3.bytes(4) =~= b.subrange(16, 20));
    assert(b3.adv(4).bytes(8) =~= b.subrange(20, 28));
    law_unknown_chunk_skipped(b3, l0);
    let b4 = ib.at((16 + d) as u64);
    assert(spec_chunk(b3, l0) == (b4, l0, Ok::<(), DsdError>(())));
    if eb <= 16 {
        assert(spec_top_walk(b3, l0, eb) == (b3, l0, Ok::<(), DsdError>(())));
        assert(false);
    }
    assert(spec_top_walk(b3, l0, eb) == spec_top_walk(b4, l0, eb));
    assert forall|p: int| 16 <= p < a.len() implies #[trigger] a[p] == b[p + d] by {
        assert(a.skip(16)[p - 16] == b.skip(16 + d)[p - 16]);
    }
    assert(shifted(a3, b4, d));
    lemma_shifted_top_walk(a3, b4, d, l0, ea, eb);
    let (a5, la5, ra5) = spec_top_walk(a3, l0, ea);
    let (b5, lb5, rb5) = spec_top_walk(b4, l0, eb);
    lemma_shifted_finish(a5, b5, d, la5, f1);
}

/// A chunk of an id that `open` does not read, placed in front of the other
/// chunks of a DSDIFF file (the form size raised to hold it), changes
/// nothing that matters: if the file with it opens, the file without it
/// opens too, with the same format and the same metadata, and a plain DSD
/// read right after `open` hands out the same bytes and result from both.
pub proof fn law_chunk_in_front_changes_nothing(
    a: Seq<u8>,
    b: Seq<u8>,
    d: int,
    f: DSDFormat,
    out: Seq<Seq<u8>>,
    bpc: usize,
)
    requires
        with_chunk_in_front(a, b, d),
        b.len() <= max_offset(),
        spec_open(DffView::initial(b), f).2 is Ok,
    ensures
        ({
            let (sa, fa, ra) = spec_open(DffView::initial(a), f);
            let (sb, fb, rb) = spec_open(DffView::initial(b), f);
            &&& ra is Ok
            &&& fa == fb
            &&& sa.metadata == sb.metadata
            &&& sa.audio_kind == sb.audio_kind
            &&& sa.audio_kind == Some(AudioKind::Dsd) ==> spec_read(sa, out, bpc).1 == spec_read(
                sb,
                out,
                bpc,
            ).1 && spec_read(sa, out, bpc).2 == spec_read(sb, out, bpc).2
        }),
{
    let ia = DffView::initial(a);
    let ib = DffView::initial(b);
    lemma_front_open(a, b, d, f);
    let (sa, fa, ra) = spec_open(ia, f);
    let (sb, fb, rb) = spec_open(ib, f);
    if sa.audio_kind == Some(AudioKind::Dsd) {
        assert(0 * sa.ch == 0);
        lemma_shifted_dsd_read(sa, sb, d, out, bpc);
    }
}

/// A DSDIFF text chunk of at least two bytes holds the big-endian 16-bit
/// length `raw[0] * 256 + raw[1]` and then the text: what is decoded is
/// exactly that many bytes after the length, or all that follows where the
/// chunk is shorter.
pub proof fn law_dsdiff_text_length(raw: Seq<u8>)
    requires
        raw.len() >= 2,
    ensures
        ({
            let n = raw[0] as int * 256 + raw[1] as int;
            &&& 2 + n <= raw.len() ==> spec_dsdiff_text(raw) == spec_decoded_text(raw.subrange(2, 2 + n))
            &&& 2 + n > raw.len() ==> spec_dsdiff_text(raw) == spec_decoded_text(raw.subrange(2, raw.len() as int))
        }),
{
    let t = raw.take(2);
    assert(t.drop_last().drop_last() =~= Seq::<u8>::empty());
    assert(t.drop_last() =~= seq![raw[0]]);
    reveal_with_fuel(be_value, 3);
}

/// The estimate of where a DST frame starts lies inside the sound data: at
/// the frame's share of the data (`target_frame / frame count` of it, counted
/// from where the data starts), and never past its end.
pub proof fn law_dst_estimate_inside_data(s: DffView, target_frame: int)
    requires
        0 <= target_frame,
        s.data_start <= s.data_end,
    ensures
        ({
            let size = s.data_end - s.data_start;
            let count = if s.dst_frame_count == 0 { 1 } else { s.dst_frame_count as int };
            let share = target_frame * size / count;
            &&& spec_approx_offset(s, target_frame) is Ok
            &&& s.data_start <= spec_approx_offset(s, target_frame)->Ok_0 <= s.data_end
            &&& target_frame * size <= u64::MAX ==> spec_approx_offset(s, target_frame)->Ok_0
                == s.data_start + if share < size { share } else { size }
        }),
{
    let size = s.data_end - s.data_start;
    assert(target_frame * size >= 0) by (nonlinear_arith)
        requires
            target_frame >= 0,
            size >= 0,
    ;
}

/// A DST seek to a sample past the first, in a file without a `DSTI` index,
/// leaves the read position inside the sound data.
pub proof fn law_dst_seek_without_index_stays_in_data(s: DffView, sample_index: u64)
    requires
        s.audio_kind == Some(AudioKind::Dst),
        s.dsti_index.len() == 0,
        sample_index > 0,
        spec_seek_samples(s, sample_index).1 is Ok,
    ensures
        s.data_start <= spec_seek_samples(s, sample_index).0.pos <= s.data_end,
{
    let max_frame: int = if s.dst_frame_count == 0 { 0 } else { s.dst_frame_count - 1 };
    let q = sample_index / (s.dst_channel_frame_size as u64);
    let tf: int = if q < max_frame { q as int } else { max_frame };
    law_dst_estimate_inside_data(s, tf);
}
} // verus!
