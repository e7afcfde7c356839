use ndsd_read::dff_reader::{decode_dsdiff_text, DFFReader};
use ndsd_read::{DSDFormat, DsdError};

fn chunk(id: &[u8; 4], payload: &[u8]) -> Vec<u8> {
    let mut v = id.to_vec();
    v.extend_from_slice(&(payload.len() as u64).to_be_bytes());
    v.extend_from_slice(payload);
    if payload.len() % 2 == 1 {
        v.push(0);
    }
    v
}

fn form(chunks: &[Vec<u8>]) -> Vec<u8> {
    let mut body = b"DSD ".to_vec();
    for c in chunks {
        body.extend_from_slice(c);
    }
    let mut v = b"FRM8".to_vec();
    v.extend_from_slice(&(body.len() as u64).to_be_bytes());
    v.extend_from_slice(&body);
    v
}

fn prop(fs: u32, channels: u16, cmpr: &[u8; 4]) -> Vec<u8> {
    let mut snd = b"SND ".to_vec();
    snd.extend_from_slice(&chunk(b"FS  ", &fs.to_be_bytes()));
    let mut chnl = channels.to_be_bytes().to_vec();
    for _ in 0..channels {
        chnl.extend_from_slice(b"SLFT");
    }
    snd.extend_from_slice(&chunk(b"CHNL", &chnl));
    let mut c = cmpr.to_vec();
    c.push(0);
    snd.extend_from_slice(&chunk(b"CMPR", &c));
    chunk(b"PROP", &snd)
}

fn text(s: &str) -> Vec<u8> {
    let mut v = (s.len() as u16).to_be_bytes().to_vec();
    v.extend_from_slice(s.as_bytes());
    v
}

fn stereo_samples(frames: usize) -> Vec<u8> {
    (0..frames * 2).map(|i| (i % 251) as u8).collect()
}

fn dsd_file(frames: usize) -> Vec<u8> {
    let mut diin = chunk(b"DITI", &text("Title"));
    diin.extend_from_slice(&chunk(b"DIAR", &text("Artist")));
    form(&[
        prop(2822400, 2, b"DSD "),
        chunk(b"DSD ", &stereo_samples(frames)),
        chunk(b"DIIN", &diin),
        chunk(b"DIAL", &text("Album")),
    ])
}

fn opened(bytes: Vec<u8>) -> (DFFReader, DSDFormat) {
    let mut r = DFFReader::new(bytes);
    let mut f = DSDFormat::default();
    r.open(&mut f).unwrap();
    (r, f)
}

#[test]
fn dff_open_reports_format() {
    let (_, f) = opened(dsd_file(10));
    assert_eq!(
        f,
        DSDFormat { sampling_rate: 2822400, num_channels: 2, total_samples: 10, is_lsb_first: false }
    );
}

#[test]
fn dff_open_reads_text_chunks() {
    let (r, _) = opened(dsd_file(10));
    let m = r.get_metadata().unwrap();
    assert_eq!(m.title.as_deref(), Some("Title"));
    assert_eq!(m.artist.as_deref(), Some("Artist"));
    assert_eq!(m.album.as_deref(), Some("Album"));
    assert_eq!(m.genre, None);
    assert_eq!(m.id3_raw, None);
}

#[test]
fn dff_read_deinterleaves() {
    let (mut r, _) = opened(dsd_file(10));
    let mut bufs = vec![vec![0u8; 4]; 2];
    assert_eq!(r.read(&mut bufs, 4), Ok(4));
    assert_eq!(bufs[0], vec![0, 2, 4, 6]);
    assert_eq!(bufs[1], vec![1, 3, 5, 7]);
    assert_eq!(r.get_position_frames(), 4);
    assert!(!r.eof());
}

#[test]
fn dff_read_runs_past_sound_data_into_following_chunks() {
    // The plain DSD read does not stop at the end of the sound data chunk:
    // the frames that follow it are taken from the next chunks' bytes.
    let (mut r, _) = opened(dsd_file(2));
    let mut bufs = vec![vec![0u8; 3]; 2];
    assert_eq!(r.read(&mut bufs, 3), Ok(3));
    assert_eq!(bufs[0], vec![0, 2, b'D']);
    assert_eq!(bufs[1], vec![1, 3, b'I']);
    assert!(r.eof());
}

#[test]
fn dff_read_stops_at_end_of_file() {
    let bytes = form(&[prop(2822400, 2, b"DSD "), chunk(b"DSD ", &stereo_samples(3))]);
    let (mut r, _) = opened(bytes);
    let mut bufs = vec![vec![9u8; 8]; 2];
    assert_eq!(r.read(&mut bufs, 8), Ok(3));
    assert_eq!(bufs[0], vec![0, 2, 4, 9, 9, 9, 9, 9]);
    assert_eq!(r.read(&mut bufs, 8), Ok(0));
}

#[test]
fn dff_seek_then_read() {
    let (mut r, _) = opened(dsd_file(10));
    r.seek_samples(5).unwrap();
    assert_eq!(r.get_position_frames(), 5);
    let mut bufs = vec![vec![0u8; 2]; 2];
    assert_eq!(r.read(&mut bufs, 2), Ok(2));
    assert_eq!(bufs[0], vec![10, 12]);
    assert_eq!(bufs[1], vec![11, 13]);
    r.reset().unwrap();
    assert_eq!(r.get_position_frames(), 0);
    assert_eq!(r.read(&mut bufs, 2), Ok(2));
    assert_eq!(bufs[0], vec![0, 2]);
}

#[test]
fn dff_seek_overflow() {
    let (mut r, _) = opened(dsd_file(10));
    assert_eq!(r.seek_samples(u64::MAX), Err(DsdError::SeekOverflow));
}

#[test]
fn dff_read_needs_a_buffer_per_channel() {
    let (mut r, _) = opened(dsd_file(10));
    let mut bufs = vec![vec![0u8; 4]; 1];
    assert_eq!(r.read(&mut bufs, 4), Err(DsdError::NotEnoughChannelBuffers));
}

#[test]
fn dff_unopened_reader() {
    let mut r = DFFReader::new(dsd_file(4));
    assert_eq!(r.seek_samples(1), Err(DsdError::ReaderNotOpened));
    let mut bufs: Vec<Vec<u8>> = vec![];
    assert_eq!(r.read(&mut bufs, 4), Ok(0));
    let e = DFFReader::empty();
    assert_eq!(e.get_position_frames(), 0);
    assert!(e.eof());
}

fn open_err(bytes: Vec<u8>) -> DsdError {
    let mut r = DFFReader::new(bytes);
    let mut f = DSDFormat::default();
    r.open(&mut f).unwrap_err()
}

#[test]
fn dff_header_errors() {
    assert_eq!(open_err(b"FRM".to_vec()), DsdError::UnexpectedEof);
    assert_eq!(open_err(b"RIFF\0\0\0\0\0\0\0\0".to_vec()), DsdError::NotFrm8);
    let mut v = b"FRM8".to_vec();
    v.extend_from_slice(&u64::MAX.to_be_bytes());
    v.extend_from_slice(b"DSD ");
    assert_eq!(open_err(v), DsdError::Frm8SizeOverflow);
    let mut v = b"FRM8".to_vec();
    v.extend_from_slice(&4u64.to_be_bytes());
    v.extend_from_slice(b"WAVE");
    assert_eq!(open_err(v), DsdError::NotDsdContainer);
}

#[test]
fn dff_chunk_errors() {
    // The form claims more bytes than the file has.
    let mut v = form(&[prop(2822400, 2, b"DSD ")]);
    v[11] += 4;
    assert_eq!(open_err(v), DsdError::ChunkIdEof);
    assert_eq!(open_err(form(&[prop(2822400, 2, b"DSD ")])), DsdError::AudioChunkNotFound);
    assert_eq!(open_err(form(&[prop(2822400, 2, b"DXD ")])), DsdError::UnsupportedCmpr);
    let snd = {
        let mut s = b"SND ".to_vec();
        s.extend_from_slice(&chunk(b"FS  ", &2822400u32.to_be_bytes()));
        s.extend_from_slice(&chunk(b"CMPR", b"DS"));
        chunk(b"PROP", &s)
    };
    assert_eq!(open_err(form(&[snd])), DsdError::InvalidCmpr);
    let no_chnl = {
        let mut s = b"SND ".to_vec();
        s.extend_from_slice(&chunk(b"FS  ", &2822400u32.to_be_bytes()));
        chunk(b"PROP", &s)
    };
    assert_eq!(open_err(form(&[no_chnl, chunk(b"DSD ", &[0; 4])])), DsdError::ChnlMissing);
    let no_fs = {
        let mut s = b"SND ".to_vec();
        s.extend_from_slice(&chunk(b"CHNL", &2u16.to_be_bytes()));
        chunk(b"PROP", &s)
    };
    assert_eq!(open_err(form(&[no_fs, chunk(b"DSD ", &[0; 4])])), DsdError::FsMissing);
    assert_eq!(
        open_err(form(&[prop(2822400, 0, b"DSD "), chunk(b"DSD ", &[0; 4])])),
        DsdError::DegenerateLayout
    );
}

#[test]
fn dff_snd_subchunk_eof() {
    // A PROP chunk whose SND subchunks run past the end of the file.
    let mut s = b"SND ".to_vec();
    s.extend_from_slice(b"FS");
    let mut p = b"PROP".to_vec();
    p.extend_from_slice(&20u64.to_be_bytes());
    p.extend_from_slice(&s);
    let mut body = b"DSD ".to_vec();
    body.extend_from_slice(&p);
    let mut v = b"FRM8".to_vec();
    v.extend_from_slice(&100u64.to_be_bytes());
    v.extend_from_slice(&body);
    assert_eq!(open_err(v), DsdError::SndSubchunkIdEof);
}

#[test]
fn dff_chunk_size_overflow() {
    let mut v = form(&[prop(2822400, 2, b"DSD ")]);
    v.extend_from_slice(b"DIIN");
    v.extend_from_slice(&u64::MAX.to_be_bytes());
    let len = (v.len() - 12) as u64;
    v[4..12].copy_from_slice(&len.to_be_bytes());
    assert_eq!(open_err(v), DsdError::SizeOverflow);
}

#[test]
fn dff_chunk_skip_past_largest_offset() {
    let mut v = form(&[prop(2822400, 2, b"DSD ")]);
    v.extend_from_slice(b"JUNK");
    v.extend_from_slice(&(u64::MAX - 100).to_be_bytes());
    let len = (v.len() - 12) as u64;
    v[4..12].copy_from_slice(&len.to_be_bytes());
    assert_eq!(open_err(v), DsdError::InvalidSeek);
}

fn dst_file(frames: &[&[u8]], index: Option<Vec<u64>>, framerate: u16) -> Vec<u8> {
    let mut dst = b"FRTE".to_vec();
    dst.extend_from_slice(&6u64.to_be_bytes());
    dst.extend_from_slice(&(frames.len() as u32).to_be_bytes());
    dst.extend_from_slice(&framerate.to_be_bytes());
    for f in frames {
        dst.extend_from_slice(&chunk(b"DSTF", f));
        dst.extend_from_slice(&chunk(b"DSTC", &[1, 2, 3, 4]));
    }
    let mut chunks = vec![prop(2822400, 2, b"DST "), chunk(b"DST ", &dst)];
    if let Some(idx) = index {
        let mut p = Vec::new();
        for o in idx {
            p.extend_from_slice(&o.to_be_bytes());
            p.extend_from_slice(&4u32.to_be_bytes());
        }
        chunks.push(chunk(b"DSTI", &p));
    }
    form(&chunks)
}

#[test]
fn dst_open_reports_frames() {
    let (_, f) = opened(dst_file(&[&[1, 2, 3], &[4, 5]], None, 75));
    // 2822400 / 8 / 75 = 4704 sample bytes per channel and frame.
    assert_eq!(f.total_samples, 2 * 4704);
    assert_eq!(f.num_channels, 2);
    assert!(!f.is_lsb_first);
}

#[test]
fn dst_read_has_no_decoder() {
    let (mut r, _) = opened(dst_file(&[&[1, 2, 3], &[4, 5]], None, 75));
    let mut bufs = vec![vec![7u8; 16]; 2];
    assert_eq!(r.read(&mut bufs, 16), Err(DsdError::DstDecoderNotInitialized));
    assert_eq!(bufs[0], vec![7u8; 16]);
}

#[test]
fn dst_framerate_must_not_be_zero() {
    let mut r = DFFReader::new(dst_file(&[&[1]], None, 0));
    let mut f = DSDFormat::default();
    assert_eq!(r.open(&mut f), Err(DsdError::InvalidDstFramerate));
}

#[test]
fn dst_missing_frte() {
    let v = form(&[prop(2822400, 2, b"DST "), chunk(b"DST ", &chunk(b"DSTF", &[1, 2]))]);
    assert_eq!(open_err(v), DsdError::DstMissingFrte);
}

#[test]
fn dst_seek_uses_index() {
    // Index entries as absolute offsets of the DSTF headers.
    let plain = dst_file(&[&[1, 2, 3], &[4, 5], &[6]], None, 75);
    let first = plain.windows(4).position(|w| w == b"DSTF").unwrap() as u64;
    // Frame headers: 12 + 3 (+1 pad) for the first frame, then a DSTC chunk of 16 bytes.
    let second = first + 16 + 16;
    let third = second + 14 + 16;
    let (mut r, _) = opened(dst_file(&[&[1, 2, 3], &[4, 5], &[6]], Some(vec![first, second, third]), 75));
    r.seek_samples(4704 + 10).unwrap();
    assert_eq!(r.get_position_frames(), 4704);
    // Past the last frame: the last index entry is used.
    r.seek_samples(100 * 4704).unwrap();
    assert_eq!(r.get_position_frames(), 2 * 4704);
    r.seek_samples(0).unwrap();
    assert_eq!(r.get_position_frames(), 0);
}

#[test]
fn dst_seek_without_index_estimates() {
    let (mut r, _) = opened(dst_file(&[&[1, 2, 3], &[4, 5], &[6]], None, 75));
    r.seek_samples(2 * 4704).unwrap();
    assert_eq!(r.get_position_frames(), 2 * 4704);
}

#[test]
fn dsdiff_text_uses_length_prefix() {
    assert_eq!(decode_dsdiff_text(&[0, 3, b'a', b'b', b'c', b'd']), "abc");
    assert_eq!(decode_dsdiff_text(&[0, 9, b'a', b'b']), "ab");
    assert_eq!(decode_dsdiff_text(&[b'x']), "x");
    assert_eq!(decode_dsdiff_text(&[]), "");
}

#[test]
fn dsdiff_text_detects_encoding() {
    // "Café" in windows-1252: the 0xE9 byte is not UTF-8.
    let raw = [0u8, 4, b'C', b'a', b'f', 0xE9];
    assert_eq!(decode_dsdiff_text(&raw), "Café");
    let utf8 = "Ünïcödé";
    let mut raw = (utf8.len() as u16).to_be_bytes().to_vec();
    raw.extend_from_slice(utf8.as_bytes());
    assert_eq!(decode_dsdiff_text(&raw), utf8);
}

fn id3_tag(title: &str) -> Vec<u8> {
    let mut tag = id3::Tag::new();
    id3::TagLike::set_title(&mut tag, title);
    let mut out = Vec::new();
    tag.write_to(&mut out, id3::Version::Id3v24).unwrap();
    out
}

#[test]
fn dff_first_id3_chunk_wins() {
    let first = id3_tag("First");
    let second = id3_tag("Second");
    let v = form(&[
        prop(2822400, 2, b"DSD "),
        chunk(b"DSD ", &stereo_samples(4)),
        chunk(b"ID3 ", &first),
        chunk(b"ID3 ", &second),
    ]);
    let (r, _) = opened(v);
    let m = r.get_metadata().unwrap();
    assert_eq!(m.title.as_deref(), Some("First"));
    assert_eq!(m.id3_raw.as_deref(), Some(&first[..]));
}

#[test]
fn dff_id3_chunk_overrides_text_chunk() {
    let v = form(&[
        prop(2822400, 2, b"DSD "),
        chunk(b"DSD ", &stereo_samples(4)),
        chunk(b"DIIN", &chunk(b"DITI", &text("Native"))),
        chunk(b"ID3 ", &id3_tag("Tagged")),
    ]);
    let (r, _) = opened(v);
    assert_eq!(r.get_metadata().unwrap().title.as_deref(), Some("Tagged"));
}

#[test]
fn dff_unreadable_id3_chunk_is_kept_raw() {
    let v = form(&[
        prop(2822400, 2, b"DSD "),
        chunk(b"DSD ", &stereo_samples(4)),
        chunk(b"ID3 ", &[1, 2, 3]),
    ]);
    let (r, _) = opened(v);
    let m = r.get_metadata().unwrap();
    assert_eq!(m.title, None);
    assert_eq!(m.id3_raw.as_deref(), Some(&[1u8, 2, 3][..]));
}

#[test]
fn dff_diin_artwork_and_unknown_subchunks() {
    let mut diin = chunk(b"ALCH", &[9, 8, 7]);
    diin.extend_from_slice(&chunk(b"MARK", &[0; 5]));
    diin.extend_from_slice(&chunk(b"DIAR", &text("Band")));
    let v = form(&[
        prop(2822400, 2, b"DSD "),
        chunk(b"DSD ", &stereo_samples(4)),
        chunk(b"DIIN", &diin),
        chunk(b"DIGN", &text("Jazz")),
        chunk(b"DIFC", &text("Nice")),
    ]);
    let (r, _) = opened(v);
    let m = r.get_metadata().unwrap();
    assert_eq!(m.cover_art.len(), 1);
    assert_eq!(m.cover_art[0].data, vec![9, 8, 7]);
    assert_eq!(m.cover_art[0].mime_type, "");
    assert_eq!(m.cover_art[0].description, "");
    assert_eq!(m.artist.as_deref(), Some("Band"));
    assert_eq!(m.genre.as_deref(), Some("Jazz"));
    assert_eq!(m.comment.as_deref(), Some("Nice"));
}

#[test]
fn dff_empty_text_chunk_is_ignored() {
    let v = form(&[
        prop(2822400, 2, b"DSD "),
        chunk(b"DSD ", &stereo_samples(4)),
        chunk(b"DIAL", &text("")),
    ]);
    let (r, _) = opened(v);
    assert_eq!(r.get_metadata().unwrap().album, None);
}

#[test]
fn dff_seek_and_read_keep_stream() {
    let (mut r, _) = opened(dsd_file(10));
    let meta = r.get_metadata().unwrap().clone();
    let mut bufs = vec![vec![0u8; 3]; 2];
    r.seek_samples(5).unwrap();
    assert_eq!(r.read(&mut bufs, 3), Ok(3));
    assert_eq!(r.get_position_frames(), 8);
    assert_eq!(r.read(&mut bufs, 0), Ok(0));
    assert_eq!(r.get_position_frames(), 8);
    assert_eq!(r.total_frames(), 10);
    assert_eq!(r.channels(), 2);
    assert_eq!(r.get_metadata().unwrap(), &meta);
}

#[test]
fn dff_reset_repeats_first_read() {
    let (mut r, _) = opened(dsd_file(10));
    let mut first = vec![vec![0u8; 6]; 2];
    assert_eq!(r.read(&mut first, 6), Ok(6));
    r.seek_samples(7).unwrap();
    let mut other = vec![vec![0u8; 2]; 2];
    r.read(&mut other, 2).unwrap();
    r.reset().unwrap();
    assert_eq!(r.get_position_frames(), 0);
    let mut again = vec![vec![0u8; 6]; 2];
    assert_eq!(r.read(&mut again, 6), Ok(6));
    assert_eq!(again, first);
}

#[test]
fn dff_split_read_matches_whole_read() {
    let (mut a, _) = opened(dsd_file(10));
    let (mut b, _) = opened(dsd_file(10));
    let mut first = vec![vec![0u8; 3]; 2];
    let mut second = vec![vec![0u8; 4]; 2];
    assert_eq!(a.read(&mut first, 3), Ok(3));
    assert_eq!(a.read(&mut second, 4), Ok(4));
    let mut whole = vec![vec![0u8; 7]; 2];
    assert_eq!(b.read(&mut whole, 7), Ok(7));
    for c in 0..2 {
        assert_eq!(&whole[c][..3], &first[c][..]);
        assert_eq!(&whole[c][3..], &second[c][..]);
    }
}

#[test]
fn dff_odd_unknown_chunk_changes_nothing() {
    let plain = form(&[prop(2822400, 2, b"DSD "), chunk(b"DSD ", &stereo_samples(6))]);
    let padded = form(&[
        prop(2822400, 2, b"DSD "),
        chunk(b"ABCD", &[7, 8, 9]),
        chunk(b"DSD ", &stereo_samples(6)),
    ]);
    assert_eq!(padded.len(), plain.len() + 16);
    let (mut a, fa) = opened(plain);
    let (mut b, fb) = opened(padded);
    assert_eq!(fa, fb);
    let mut ra = vec![vec![0u8; 6]; 2];
    let mut rb = vec![vec![0u8; 6]; 2];
    assert_eq!(a.read(&mut ra, 6), b.read(&mut rb, 6));
    assert_eq!(ra, rb);
}

#[test]
fn dff_unknown_chunk_in_front_changes_nothing() {
    let plain = form(&[prop(2822400, 2, b"DSD "), chunk(b"DSD ", &stereo_samples(6)), chunk(b"DIAL", &text("Al"))]);
    let front = form(&[
        chunk(b"ABCD", &[7, 8, 9]),
        prop(2822400, 2, b"DSD "),
        chunk(b"DSD ", &stereo_samples(6)),
        chunk(b"DIAL", &text("Al")),
    ]);
    let (mut a, fa) = opened(plain);
    let (mut b, fb) = opened(front);
    assert_eq!(fa, fb);
    assert_eq!(a.get_metadata(), b.get_metadata());
    let mut ra = vec![vec![0u8; 8]; 2];
    let mut rb = vec![vec![0u8; 8]; 2];
    // The read runs on past the sound data into the `DIAL` chunk, in both.
    assert_eq!(a.read(&mut ra, 8), Ok(8));
    assert_eq!(b.read(&mut rb, 8), Ok(8));
    assert_eq!(ra, rb);
}
