use id3::TagLike;
use ndsd_read::dsf_reader::DSFReader;
use ndsd_read::{DSDFormat, DsdError};

fn sample(block: usize, c: usize, j: usize) -> u8 {
    (block * 37 + c * 11 + j) as u8
}

fn dsf_file(ch: u32, blocksize: u32, blocks: usize, tag: Option<Vec<u8>>) -> Vec<u8> {
    let mut data = Vec::new();
    for b in 0..blocks {
        for c in 0..ch as usize {
            for j in 0..blocksize as usize {
                data.push(sample(b, c, j));
            }
        }
    }
    let tag = tag.unwrap_or_default();
    let data_end = 28 + 52 + 12 + data.len();
    let total = data_end + tag.len();
    let meta_ptr = if tag.is_empty() { 0 } else { data_end as u64 };
    let mut v = b"DSD ".to_vec();
    v.extend_from_slice(&28u64.to_le_bytes());
    v.extend_from_slice(&(total as u64).to_le_bytes());
    v.extend_from_slice(&meta_ptr.to_le_bytes());
    v.extend_from_slice(b"fmt ");
    v.extend_from_slice(&52u64.to_le_bytes());
    v.extend_from_slice(&1u32.to_le_bytes());
    v.extend_from_slice(&0u32.to_le_bytes());
    v.extend_from_slice(&2u32.to_le_bytes());
    v.extend_from_slice(&ch.to_le_bytes());
    v.extend_from_slice(&2822400u32.to_le_bytes());
    v.extend_from_slice(&1u32.to_le_bytes());
    v.extend_from_slice(&((blocks as u64) * (blocksize as u64) * 8).to_le_bytes());
    v.extend_from_slice(&blocksize.to_le_bytes());
    v.extend_from_slice(&0u32.to_le_bytes());
    v.extend_from_slice(b"data");
    v.extend_from_slice(&((12 + data.len()) as u64).to_le_bytes());
    v.extend_from_slice(&data);
    v.extend_from_slice(&tag);
    v
}

fn opened(bytes: Vec<u8>) -> (DSFReader, DSDFormat) {
    let mut r = DSFReader::new(bytes);
    let mut f = DSDFormat::default();
    r.open(&mut f).unwrap();
    (r, f)
}

fn tag_bytes() -> Vec<u8> {
    let mut tag = id3::Tag::new();
    tag.set_title("Song");
    tag.set_artist("Singer");
    tag.set_album("Record");
    tag.set_year(1999);
    tag.add_frame(id3::frame::Comment {
        lang: "eng".to_string(),
        description: "note".to_string(),
        text: "hello".to_string(),
    });
    tag.add_frame(id3::frame::Lyrics {
        lang: "eng".to_string(),
        description: "".to_string(),
        text: "la la".to_string(),
    });
    tag.add_frame(id3::frame::Picture {
        mime_type: "image/png".to_string(),
        picture_type: id3::frame::PictureType::CoverFront,
        description: "front".to_string(),
        data: vec![1, 2, 3],
    });
    let mut out = Vec::new();
    tag.write_to(&mut out, id3::Version::Id3v24).unwrap();
    out
}

#[test]
fn dsf_open_reports_format() {
    let (r, f) = opened(dsf_file(2, 8, 3, None));
    assert_eq!(
        f,
        DSDFormat { sampling_rate: 2822400, num_channels: 2, total_samples: 3 * 8 * 8, is_lsb_first: true }
    );
    assert_eq!(r.total_samples(), 24);
    assert!(r.get_metadata().is_none());
}

#[test]
fn dsf_read_takes_each_channels_block() {
    let (mut r, _) = opened(dsf_file(2, 8, 3, None));
    let mut bufs = vec![vec![0u8; 12]; 2];
    assert_eq!(r.read(&mut bufs, 12), Ok(12));
    for c in 0..2 {
        for j in 0..12 {
            assert_eq!(bufs[c][j], sample(j / 8, c, j % 8));
        }
    }
    assert_eq!(r.get_position_frames(), 12);
    let mut rest = vec![vec![0u8; 100]; 2];
    assert_eq!(r.read(&mut rest, 100), Ok(12));
    assert_eq!(rest[1][11], sample(2, 1, 7));
    // A read that runs into the end of the file returns what it handed out
    // and counts it in the position.
    assert_eq!(r.get_position_frames(), 24);
    assert!(r.eof());
    let mut last = vec![vec![0u8; 8]; 2];
    r.seek_samples(16).unwrap();
    assert_eq!(r.read(&mut last, 8), Ok(8));
    assert_eq!(r.get_position_frames(), 24);
    assert!(r.eof());
}

#[test]
fn dsf_seek_rounds_down_to_block() {
    let (mut r, _) = opened(dsf_file(2, 8, 3, None));
    r.seek_samples(8 + 5).unwrap();
    assert_eq!(r.get_position_frames(), 8);
    let mut bufs = vec![vec![0u8; 2]; 2];
    assert_eq!(r.read(&mut bufs, 2), Ok(2));
    assert_eq!(bufs[0], vec![sample(1, 0, 0), sample(1, 0, 1)]);
    assert_eq!(bufs[1], vec![sample(1, 1, 0), sample(1, 1, 1)]);
    r.reset().unwrap();
    assert_eq!(r.get_position_frames(), 0);
}

#[test]
fn dsf_metadata_from_id3() {
    let (r, _) = opened(dsf_file(2, 8, 1, Some(tag_bytes())));
    let m = r.get_metadata().unwrap();
    assert_eq!(m.title.as_deref(), Some("Song"));
    assert_eq!(m.artist.as_deref(), Some("Singer"));
    assert_eq!(m.album.as_deref(), Some("Record"));
    assert_eq!(m.year, Some(1999));
    assert_eq!(m.comment.as_deref(), Some("|eng| note: hello"));
    assert_eq!(m.lyrics, vec!["|eng| : la la".to_string()]);
    assert_eq!(m.cover_art.len(), 1);
    assert_eq!(m.cover_art[0].mime_type, "image/png");
    assert_eq!(m.cover_art[0].description, "front");
    assert_eq!(m.cover_art[0].data, vec![1, 2, 3]);
    assert_eq!(m.id3_raw.as_ref().unwrap(), &tag_bytes());
}

fn open_err(bytes: Vec<u8>) -> DsdError {
    let mut r = DSFReader::new(bytes);
    let mut f = DSDFormat::default();
    r.open(&mut f).unwrap_err()
}

#[test]
fn dsf_header_errors() {
    assert_eq!(open_err(b"RIFF".to_vec()), DsdError::NotDsf);
    assert_eq!(open_err(b"DSD ".to_vec()), DsdError::UnexpectedEof);
    let good = dsf_file(2, 8, 1, None);
    let mut v = good.clone();
    v[28..32].copy_from_slice(b"FMT ");
    assert_eq!(open_err(v), DsdError::FmtChunkMissing);
    let mut v = good.clone();
    v[40] = 2;
    assert_eq!(open_err(v), DsdError::UnsupportedFormatVersion);
    let mut v = good.clone();
    v[44] = 1;
    assert_eq!(open_err(v), DsdError::UnsupportedFormatId);
    let mut v = good.clone();
    v[80..84].copy_from_slice(b"DATA");
    assert_eq!(open_err(v), DsdError::DataChunkMissing);
}

#[test]
fn dsf_seek_with_zero_block_size() {
    let (mut r, _) = opened(dsf_file(2, 0, 0, None));
    assert_eq!(r.seek_samples(3), Err(DsdError::DegenerateLayout));
    let e = DSFReader::empty();
    assert!(e.eof());
}

#[test]
fn meta_test() {
    // Both containers, told apart by their first bytes, with their metadata.
    for (bytes, is_dsf) in [(dsf_file(2, 8, 1, Some(tag_bytes())), true), (dsf_file(2, 8, 1, None), true)] {
        assert_eq!(
            ndsd_read::detect_container(&bytes),
            Ok(if is_dsf { ndsd_read::DsdContainer::Dsf } else { ndsd_read::DsdContainer::Dff })
        );
    }
    let (r, _) = opened(dsf_file(2, 8, 1, Some(tag_bytes())));
    let meta = r.get_metadata().unwrap();
    assert!(meta.id3_raw.is_some() && !meta.id3_raw.as_ref().unwrap().is_empty());
}

#[test]
fn dsf_seek_and_read_keep_stream() {
    let (mut r, _) = opened(dsf_file(2, 8, 3, Some(tag_bytes())));
    let meta = r.get_metadata().unwrap().clone();
    r.seek_samples(9).unwrap();
    let mut bufs = vec![vec![0u8; 4]; 2];
    assert_eq!(r.read(&mut bufs, 4), Ok(4));
    assert_eq!(r.get_position_frames(), 12);
    assert_eq!(r.total_samples(), 24);
    assert_eq!(r.channels(), 2);
    assert_eq!(r.get_metadata().unwrap(), &meta);
}

#[test]
fn dsf_reset_repeats_first_read() {
    let (mut r, _) = opened(dsf_file(2, 8, 3, None));
    let mut first = vec![vec![0u8; 10]; 2];
    assert_eq!(r.read(&mut first, 10), Ok(10));
    r.seek_samples(17).unwrap();
    let mut other = vec![vec![0u8; 3]; 2];
    r.read(&mut other, 3).unwrap();
    r.reset().unwrap();
    assert_eq!(r.get_position_frames(), 0);
    let mut again = vec![vec![0u8; 10]; 2];
    assert_eq!(r.read(&mut again, 10), Ok(10));
    assert_eq!(again, first);
}
