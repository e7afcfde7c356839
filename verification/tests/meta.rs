use id3::TagLike;
use ndsd_read::id3_tag::{check_id3_nesting, Id3Tag, Id3Text};
use ndsd_read::{DSDMeta, MetaPicture};

fn empty_tag() -> Id3Tag {
    Id3Tag {
        artist: None,
        album_artist: None,
        artists: None,
        album: None,
        title: None,
        year: None,
        pictures: vec![],
        comments: vec![],
        lyrics: vec![],
    }
}

fn txt(lang: &str, d: &str, t: &str) -> Id3Text {
    Id3Text { lang: lang.to_string(), description: d.to_string(), text: t.to_string() }
}

#[test]
fn update_prefers_lead_artist() {
    let mut m = DSDMeta::default();
    let mut t = empty_tag();
    t.artist = Some("Lead".to_string());
    t.album_artist = Some("Band".to_string());
    m.update_from_id3(t);
    assert_eq!(m.artist.as_deref(), Some("Lead"));
}

#[test]
fn update_falls_back_to_album_artist_then_artists() {
    let mut m = DSDMeta::default();
    let mut t = empty_tag();
    t.album_artist = Some("Band".to_string());
    m.update_from_id3(t);
    assert_eq!(m.artist.as_deref(), Some("Band"));
    let mut m = DSDMeta::default();
    let mut t = empty_tag();
    t.artists = Some(vec!["One".to_string(), "Two".to_string()]);
    m.update_from_id3(t);
    assert_eq!(m.artist.as_deref(), Some("One"));
    let mut m = DSDMeta::default();
    m.artist = Some("Kept".to_string());
    let mut t = empty_tag();
    t.artists = Some(vec![]);
    m.update_from_id3(t);
    assert_eq!(m.artist.as_deref(), Some("Kept"));
}

#[test]
fn update_joins_comments_and_formats_lyrics() {
    let mut m = DSDMeta::default();
    m.comment = Some("old".to_string());
    m.lyrics = vec!["first".to_string()];
    let mut t = empty_tag();
    t.comments = vec![txt("eng", "a", "x"), txt("deu", "", "y")];
    t.lyrics = vec![txt("eng", "verse", "la")];
    m.update_from_id3(t);
    assert_eq!(m.comment.as_deref(), Some("|eng| a: x|deu| : y"));
    assert_eq!(m.lyrics, vec!["first".to_string(), "|eng| verse: la".to_string()]);
}

#[test]
fn update_keeps_fields_the_tag_lacks() {
    let mut m = DSDMeta::default();
    m.album = Some("A".to_string());
    m.title = Some("T".to_string());
    m.year = Some(2000);
    m.comment = Some("c".to_string());
    m.genre = Some("g".to_string());
    m.cover_art = vec![MetaPicture::default()];
    let before = m.clone();
    m.update_from_id3(empty_tag());
    assert_eq!(m, before);
}

#[test]
fn update_year_and_pictures() {
    let mut m = DSDMeta::default();
    m.cover_art = vec![MetaPicture { description: "old".into(), mime_type: "x".into(), data: vec![9] }];
    let mut t = empty_tag();
    t.year = Some(-1);
    t.album = Some("Al".to_string());
    t.title = Some("Ti".to_string());
    t.pictures = vec![MetaPicture { description: "new".into(), mime_type: "y".into(), data: vec![8] }];
    m.update_from_id3(t);
    assert_eq!(m.year, Some(u32::MAX));
    assert_eq!(m.album.as_deref(), Some("Al"));
    assert_eq!(m.title.as_deref(), Some("Ti"));
    assert_eq!(m.cover_art.len(), 2);
    assert_eq!(m.cover_art[1].description, "new");
}

#[test]
fn from_id3_keeps_unreadable_bytes() {
    let m = DSDMeta::from_id3(vec![1, 2, 3]);
    assert_eq!(m.id3_raw, Some(vec![1, 2, 3]));
    assert_eq!(m.title, None);
    assert_eq!(m.artist, None);
    assert!(m.cover_art.is_empty());
}

#[test]
fn id3_tag_from_bytes() {
    let mut tag = id3::Tag::new();
    tag.set_album_artist("Band");
    tag.set_title("Name");
    let mut raw = Vec::new();
    tag.write_to(&mut raw, id3::Version::Id3v23).unwrap();
    let t = Id3Tag::from_bytes(&raw).unwrap();
    assert_eq!(t.album_artist.as_deref(), Some("Band"));
    assert_eq!(t.title.as_deref(), Some("Name"));
    assert_eq!(t.artist, None);
    assert!(Id3Tag::from_bytes(&[0, 1, 2]).is_none());
    let m = DSDMeta::from_id3(raw.clone());
    assert_eq!(m.artist.as_deref(), Some("Band"));
    assert_eq!(m.title.as_deref(), Some("Name"));
    assert_eq!(m.id3_raw, Some(raw));
}

#[test]
fn useful_metadata_needs_a_listed_tag() {
    let mut m = DSDMeta::default();
    assert!(!m.has_useful_metadata());
    m.genre = Some("Jazz".to_string());
    m.year = Some(2001);
    m.lyrics = vec!["la".to_string()];
    assert!(!m.has_useful_metadata());
    m.cover_art.push(MetaPicture::default());
    assert!(m.has_useful_metadata());
    let mut m = DSDMeta::default();
    m.comment = Some("c".to_string());
    assert!(m.has_useful_metadata());
}

fn chapter(id: &str, frames: Vec<id3::Frame>) -> id3::frame::Chapter {
    id3::frame::Chapter {
        element_id: id.to_string(),
        start_time: 0,
        end_time: 1000,
        start_offset: 0xffff_ffff,
        end_offset: 0xffff_ffff,
        frames,
    }
}

fn tag_bytes(tag: &id3::Tag, v: id3::Version) -> Vec<u8> {
    let mut raw = Vec::new();
    tag.write_to(&mut raw, v).unwrap();
    raw
}

#[test]
fn chapter_words_in_text_do_not_stop_parsing() {
    let mut tag = id3::Tag::new();
    tag.set_title("CHAPTER 1");
    tag.set_album("CTOC");
    for v in [id3::Version::Id3v23, id3::Version::Id3v24] {
        let raw = tag_bytes(&tag, v);
        assert!(check_id3_nesting(&raw));
        let m = DSDMeta::from_id3(raw);
        assert_eq!(m.title.as_deref(), Some("CHAPTER 1"));
        assert_eq!(m.album.as_deref(), Some("CTOC"));
    }
}

#[test]
fn tags_with_shallow_chapters_are_parsed() {
    let mut tag = id3::Tag::new();
    tag.set_title("Titled");
    let inner = chapter("c2", vec![]);
    tag.add_frame(chapter("c1", vec![id3::Frame::with_content("CHAP", id3::Content::Chapter(inner))]));
    for v in [id3::Version::Id3v23, id3::Version::Id3v24] {
        let raw = tag_bytes(&tag, v);
        assert!(check_id3_nesting(&raw));
        assert_eq!(Id3Tag::from_bytes(&raw).unwrap().title.as_deref(), Some("Titled"));
    }
}

#[test]
fn tags_with_deep_chapters_are_not_parsed() {
    let mut c = chapter("leaf", vec![]);
    for k in 0..20 {
        c = chapter(&format!("c{}", k), vec![id3::Frame::with_content("CHAP", id3::Content::Chapter(c))]);
    }
    let mut tag = id3::Tag::new();
    tag.set_title("Deep");
    tag.add_frame(c);
    let raw = tag_bytes(&tag, id3::Version::Id3v24);
    assert!(!check_id3_nesting(&raw));
    assert!(Id3Tag::from_bytes(&raw).is_none());
    let m = DSDMeta::from_id3(raw.clone());
    assert_eq!(m.title, None);
    assert_eq!(m.id3_raw, Some(raw));
}

#[test]
fn nesting_check_on_plain_bytes() {
    assert!(check_id3_nesting(b""));
    assert!(check_id3_nesting(b"xxCHAxPxxCTO"));
    // Without an ID3v2 header, no chapter id may stand in the bytes.
    assert!(!check_id3_nesting(b"zzCTOCzz"));
    // An ID3v2.2 header: three-letter frame ids only.
    let mut v22 = b"ID3\x02\x00\x00\x00\x00\x00\x10".to_vec();
    v22.extend_from_slice(b"CHAP\x00\x00\x00\x00\x00\xff");
    assert!(check_id3_nesting(&v22));
    // An ID3v2.4 header with a chapter id whose flags read as compressed.
    let mut v24 = b"ID3\x04\x00\x00\x00\x00\x00\x10".to_vec();
    v24.extend_from_slice(b"CHAP\x00\x00\x00\x10\x00\x08");
    assert!(!check_id3_nesting(&v24));
    let n = v24.len();
    v24[n - 1] = 0;
    assert!(check_id3_nesting(&v24));
}
