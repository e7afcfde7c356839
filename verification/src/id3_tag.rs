//! The fields of an ID3 tag that the readers use, read with the `id3` crate.
use vstd::prelude::*;

use id3::TagLike;

use crate::meta::{opt_str, pics, strs, MetaPicture, MetaPictureView};

verus! {

/// A comment or lyrics frame.
#[derive(Clone, PartialEq, Eq, Debug)]
pub struct Id3Text {
    pub lang: String,
    pub description: String,
    pub text: String,
}

#[verifier::ext_equal]
pub struct Id3TextView {
    pub lang: Seq<char>,
    pub description: Seq<char>,
    pub text: Seq<char>,
}

impl View for Id3Text {
    type V = Id3TextView;

    open spec fn view(&self) -> Id3TextView {
        Id3TextView { lang: self.lang@, description: self.description@, text: self.text@ }
    }
}

/// The view of a vector of comment or lyrics frames.
pub open spec fn texts(v: Seq<Id3Text>) -> Seq<Id3TextView> {
    v.map_values(|t: Id3Text| t@)
}

/// What the metadata logic reads from an ID3 tag.
#[derive(Clone, PartialEq, Eq, Debug)]
pub struct Id3Tag {
    /// Lead artist (`TPE1`).
    pub artist: Option<String>,
    /// Album artist (`TPE2`).
    pub album_artist: Option<String>,
    /// All values of `TPE1`.
    pub artists: Option<Vec<String>>,
    /// Album (`TALB`).
    pub album: Option<String>,
    /// Title (`TIT2`).
    pub title: Option<String>,
    /// Year (`TYER`).
    pub year: Option<i32>,
    /// Attached pictures, in frame order.
    pub pictures: Vec<MetaPicture>,
    /// Comment frames, in frame order.
    pub comments: Vec<Id3Text>,
    /// Unsynchronised lyrics frames, in frame order.
    pub lyrics: Vec<Id3Text>,
}

#[verifier::ext_equal]
pub struct Id3TagView {
    pub artist: Option<Seq<char>>,
    pub album_artist: Option<Seq<char>>,
    pub artists: Option<Seq<Seq<char>>>,
    pub album: Option<Seq<char>>,
    pub title: Option<Seq<char>>,
    pub year: Option<i32>,
    pub pictures: Seq<MetaPictureView>,
    pub comments: Seq<Id3TextView>,
    pub lyrics: Seq<Id3TextView>,
}

/// The view of an optional vector of strings.
pub open spec fn opt_strs(o: Option<Vec<String>>) -> Option<Seq<Seq<char>>> {
    match o {
        Some(v) => Some(strs(v@)),
        None => None,
    }
}

impl View for Id3Tag {
    type V = Id3TagView;

    open spec fn view(&self) -> Id3TagView {
        Id3TagView {
            artist: opt_str(self.artist),
            album_artist: opt_str(self.album_artist),
            artists: opt_strs(self.artists),
            album: opt_str(self.album),
            title: opt_str(self.title),
            year: self.year,
            pictures: pics(self.pictures@),
            comments: texts(self.comments@),
            lyrics: texts(self.lyrics@),
        }
    }
}

#[verifier::external_type_specification]
#[verifier::external_body]
pub struct ExTag(id3::Tag);

/// Whether `id3::Tag::read_from2` reads a tag from these bytes.
pub uninterp spec fn spec_id3_parses(raw: Seq<u8>) -> bool;

/// `TagLike::artist` of the tag read from these bytes.
pub uninterp spec fn spec_id3_artist(raw: Seq<u8>) -> Option<Seq<char>>;

/// `TagLike::album_artist` of the tag read from these bytes.
pub uninterp spec fn spec_id3_album_artist(raw: Seq<u8>) -> Option<Seq<char>>;

/// `TagLike::artists` of the tag read from these bytes.
pub uninterp spec fn spec_id3_artists(raw: Seq<u8>) -> Option<Seq<Seq<char>>>;

/// `TagLike::album` of the tag read from these bytes.
pub uninterp spec fn spec_id3_album(raw: Seq<u8>) -> Option<Seq<char>>;

/// `TagLike::title` of the tag read from these bytes.
pub uninterp spec fn spec_id3_title(raw: Seq<u8>) -> Option<Seq<char>>;

/// `TagLike::year` of the tag read from these bytes.
pub uninterp spec fn spec_id3_year(raw: Seq<u8>) -> Option<i32>;

/// `Tag::pictures` of the tag read from these bytes.
pub uninterp spec fn spec_id3_pictures(raw: Seq<u8>) -> Seq<MetaPictureView>;

/// `Tag::comments` of the tag read from these bytes.
pub uninterp spec fn spec_id3_comments(raw: Seq<u8>) -> Seq<Id3TextView>;

/// `Tag::lyrics` of the tag read from these bytes.
pub uninterp spec fn spec_id3_lyrics(raw: Seq<u8>) -> Seq<Id3TextView>;

/// `"CHAP"`, the id of an ID3 chapter frame.
pub open spec fn chap_id() -> Seq<u8> {
    seq![0x43u8, 0x48u8, 0x41u8, 0x50u8]
}

/// `"CTOC"`, the id of an ID3 table-of-contents frame.
pub open spec fn ctoc_id() -> Seq<u8> {
    seq![0x43u8, 0x54u8, 0x4fu8, 0x43u8]
}

/// How deep chapter and table-of-contents frames may nest in a tag that is
/// handed to the `id3` decoder.
pub const MAX_CHAPTER_DEPTH: usize = 16;

/// Whether `raw` holds a `CHAP` or `CTOC` id at `i`.
pub open spec fn chapter_at(raw: Seq<u8>, i: int) -> bool {
    0 <= i && i + 4 <= raw.len() && (raw.subrange(i, i + 4) == chap_id() || raw.subrange(i, i + 4)
        == ctoc_id())
}

/// Whether a frame header starting at `i` would be read as neither
/// compressed (ID3v2.3 flag `0x0080`, ID3v2.4 flag `0x0008`) nor
/// unsynchronised (ID3v2.4 flag `0x0002`): its second flag byte has none of
/// these bits, or the bytes end before it.
pub open spec fn plain_frame_at(raw: Seq<u8>, i: int) -> bool {
    i + 10 > raw.len() || raw[i + 9] & 0x8au8 == 0u8
}

/// How many `CHAP` or `CTOC` ids start before `n`.
pub open spec fn chapter_count(raw: Seq<u8>, n: int) -> nat
    decreases n,
{
    if n <= 0 {
        0
    } else {
        chapter_count(raw, n - 1) + if chapter_at(raw, n - 1) {
            1nat
        } else {
            0nat
        }
    }
}

/// Whether the bytes start with an ID3v2 tag header of major version `v`.
pub open spec fn id3_header(raw: Seq<u8>, v: u8) -> bool {
    raw.len() >= 10 && raw[0] == 0x49u8 && raw[1] == 0x44u8 && raw[2] == 0x33u8 && raw[3] == v
}

/// Whether the `id3` decoder can be handed these bytes: chapter and
/// table-of-contents frames in them nest no deeper than `MAX_CHAPTER_DEPTH`.
/// - An ID3v2.2 tag has three-letter frame ids, and no chapter frames.
/// - In an ID3v2.4 tag, or an ID3v2.3 tag without tag-level
///   unsynchronisation, a frame that nests others is a `CHAP` or `CTOC`
///   frame whose content holds their headers. Where none of these frames is
///   compressed or unsynchronised, every frame content is a run of the tag's
///   own bytes, so each level of nesting has its id at its own place in the
///   bytes: at most as many levels as ids. Any place that holds such an id
///   must show a plain frame header there.
/// - Other bytes (a tag unsynchronised as a whole, or no ID3v2 tag header)
///   must hold no such id.
pub open spec fn id3_nesting_ok(raw: Seq<u8>) -> bool {
    if id3_header(raw, 2) {
        true
    } else if id3_header(raw, 4) || (id3_header(raw, 3) && raw[5] & 0x80u8 == 0u8) {
        &&& chapter_count(raw, raw.len() as int) <= MAX_CHAPTER_DEPTH
        &&& forall|i: int| #[trigger] chapter_at(raw, i) ==> plain_frame_at(raw, i)
    } else {
        chapter_count(raw, raw.len() as int) == 0
    }
}

/// Whether `raw` holds `CHAP` or `CTOC` at `i`.
fn chapter_id_at(raw: &[u8], i: usize) -> (b: bool)
    requires
        i + 4 <= raw@.len(),
    ensures
        b == chapter_at(raw@, i as int),
{
    let ghost w = raw@.subrange(i as int, i + 4);
    let b = raw[i] == 0x43 && ((raw[i + 1] == 0x48 && raw[i + 2] == 0x41 && raw[i + 3] == 0x50)
        || (raw[i + 1] == 0x54 && raw[i + 2] == 0x4f && raw[i + 3] == 0x43));
    proof {
        if w == chap_id() || w == ctoc_id() {
            assert(w[0] == raw@[i as int] && w[1] == raw@[i + 1] && w[2] == raw@[i + 2] && w[3]
                == raw@[i + 3]);
        }
        if b {
            if raw[i + 1] == 0x48 {
                assert(w =~= chap_id());
            } else {
                assert(w =~= ctoc_id());
            }
        }
    }
    b
}

/// Test whether the `id3` decoder can be handed these bytes (see
/// `id3_nesting_ok`).
pub fn check_id3_nesting(raw: &[u8]) -> (b: bool)
    ensures
        b == id3_nesting_ok(raw@),
{
    let n = raw.len();
    let mut count: usize = 0;
    let mut all_plain = true;
    let mut i: usize = 0;
    while i < n
        invariant
            n == raw@.len(),
            i <= n,
            count == chapter_count(raw@, i as int),
            count <= i,
            all_plain == (forall|j: int| 0 <= j < i && #[trigger] chapter_at(raw@, j) ==> plain_frame_at(raw@, j)),
        decreases n - i,
    {
        if 4 <= n - i && chapter_id_at(raw, i) {
            count = count + 1;
            if 10 <= n - i && raw[i + 9] & 0x8a != 0 {
                all_plain = false;
            }
        }
        proof {
            assert(!(4 <= n - i) ==> !chapter_at(raw@, i as int));
        }
        i = i + 1;
    }
    proof {
        assert(forall|j: int| #[trigger] chapter_at(raw@, j) ==> 0 <= j < n);
    }
    let head = n >= 10 && raw[0] == 0x49 && raw[1] == 0x44 && raw[2] == 0x33;
    if head && raw[3] == 2 {
        true
    } else if head && (raw[3] == 4 || (raw[3] == 3 && raw[5] & 0x80 == 0)) {
        count <= MAX_CHAPTER_DEPTH && all_plain
    } else {
        count == 0
    }
}

/// The fields of the tag that `id3::Tag::read_from2` reads from `raw`, if the
/// decoder can be handed the bytes (`id3_nesting_ok`) and it reads one.
pub open spec fn spec_id3_tag(raw: Seq<u8>) -> Option<Id3TagView> {
    if id3_nesting_ok(raw) && spec_id3_parses(raw) {
        Some(
            Id3TagView {
                artist: spec_id3_artist(raw),
                album_artist: spec_id3_album_artist(raw),
                artists: spec_id3_artists(raw),
                album: spec_id3_album(raw),
                title: spec_id3_title(raw),
                year: spec_id3_year(raw),
                pictures: spec_id3_pictures(raw),
                comments: spec_id3_comments(raw),
                lyrics: spec_id3_lyrics(raw),
            },
        )
    } else {
        None
    }
}

/// A tag read by the `id3` crate, together with the bytes it was read from.
/// The only way to make one is `read_id3`, so `tag` is always the tag that
/// `id3::Tag::read_from2` reads from `raw`.
pub struct Id3Source {
    tag: id3::Tag,
    raw: Ghost<Seq<u8>>,
}

impl View for Id3Source {
    type V = Seq<u8>;

    closed spec fn view(&self) -> Seq<u8> {
        self.raw@
    }
}

/// Calls `id3::Tag::read_from2` on the bytes (through an in-memory cursor).
/// Claims only that it succeeds exactly when `spec_id3_parses` holds of the
/// bytes, and that the tag it returns is labelled with those bytes.
/// The decoder reads the frames inside a `CHAP` or `CTOC` frame by calling
/// its frame decoder again (`stream/frame/content.rs`, `chapter_content` and
/// `table_of_contents_content`), with no depth limit, so deeply nested
/// chapter frames exhaust the stack; no other frame content holds frames.
/// `requires` takes the bytes that `id3_nesting_ok` accepts, in which that
/// recursion is at most `MAX_CHAPTER_DEPTH` deep:
/// - ID3v2.2 frames have three-letter ids, which never name `CHAP` or `CTOC`.
/// - ID3v2.3 without tag-level unsynchronisation, and ID3v2.4 (whose decoder
///   reads the tag's bytes as they are), read each frame header from the
///   bytes of the tag or of the enclosing frame's content; a content that is
///   neither decompressed nor unsynchronised is a run of those same bytes, so
///   every nested `CHAP`/`CTOC` header is read at its own place in the tag,
///   with the flags found there.
/// - Elsewhere (a tag unsynchronised as a whole, or AIFF/WAV input) an id can
///   only reach the decoder if it stands in the bytes: unsynchronisation only
///   drops a zero after `0xFF`, which none of these letters is.
/// Not stated: the `id3` decoder holds `unwrap`s on some frame contents; which
/// inputs, if any, reach them is not shown by its source or documentation.
#[verifier::external_body]
fn read_id3(raw: &[u8]) -> (r: Option<Id3Source>)
    requires
        id3_nesting_ok(raw@),
    ensures
        r is Some <==> spec_id3_parses(raw@),
        r matches Some(t) ==> t@ == raw@,
{
    match id3::Tag::read_from2(std::io::Cursor::new(raw)) {
        Ok(tag) => Some(Id3Source { tag, raw: Ghost(raw@) }),
        Err(_) => None,
    }
}

/// Calls `TagLike::artist` and copies the text.
#[verifier::external_body]
fn id3_artist(t: &Id3Source) -> (r: Option<String>)
    ensures
        opt_str(r) == spec_id3_artist(t@),
{
    t.tag.artist().map(|s| s.to_string())
}

/// Calls `TagLike::album_artist` and copies the text.
#[verifier::external_body]
fn id3_album_artist(t: &Id3Source) -> (r: Option<String>)
    ensures
        opt_str(r) == spec_id3_album_artist(t@),
{
    t.tag.album_artist().map(|s| s.to_string())
}

/// Calls `TagLike::artists` and copies the texts.
#[verifier::external_body]
fn id3_artists(t: &Id3Source) -> (r: Option<Vec<String>>)
    ensures
        opt_strs(r) == spec_id3_artists(t@),
{
    t.tag.artists().map(|v| v.iter().map(|s| s.to_string()).collect())
}

/// Calls `TagLike::album` and copies the text.
#[verifier::external_body]
fn id3_album(t: &Id3Source) -> (r: Option<String>)
    ensures
        opt_str(r) == spec_id3_album(t@),
{
    t.tag.album().map(|s| s.to_string())
}

/// Calls `TagLike::title` and copies the text.
#[verifier::external_body]
fn id3_title(t: &Id3Source) -> (r: Option<String>)
    ensures
        opt_str(r) == spec_id3_title(t@),
{
    t.tag.title().map(|s| s.to_string())
}

/// Calls `TagLike::year`.
#[verifier::external_body]
fn id3_year(t: &Id3Source) -> (r: Option<i32>)
    ensures
        r == spec_id3_year(t@),
{
    t.tag.year()
}

/// Calls `Tag::pictures` and copies description, MIME type and data of each.
#[verifier::external_body]
fn id3_pictures(t: &Id3Source) -> (r: Vec<MetaPicture>)
    ensures
        pics(r@) == spec_id3_pictures(t@),
{
    t.tag.pictures().map(
        |p| MetaPicture {
            description: p.description.clone(),
            mime_type: p.mime_type.clone(),
            data: p.data.clone(),
        },
    ).collect()
}

/// Calls `Tag::comments` and copies language, description and text of each.
#[verifier::external_body]
fn id3_comments(t: &Id3Source) -> (r: Vec<Id3Text>)
    ensures
        texts(r@) == spec_id3_comments(t@),
{
    t.tag.comments().map(
        |c| Id3Text {
            lang: c.lang.clone(),
            description: c.description.clone(),
            text: c.text.clone(),
        },
    ).collect()
}

/// Calls `Tag::lyrics` and copies language, description and text of each.
#[verifier::external_body]
fn id3_lyrics(t: &Id3Source) -> (r: Vec<Id3Text>)
    ensures
        texts(r@) == spec_id3_lyrics(t@),
{
    t.tag.lyrics().map(
        |l| Id3Text {
            lang: l.lang.clone(),
            description: l.description.clone(),
            text: l.text.clone(),
        },
    ).collect()
}

impl Id3Tag {
    /// Read an ID3 tag from its bytes and keep the fields the metadata uses.
    pub fn from_bytes(raw: &[u8]) -> (r: Option<Id3Tag>)
        ensures
            match r {
                Some(t) => spec_id3_tag(raw@) == Some(t@),
                None => spec_id3_tag(raw@) is None,
            },
    {
        if !check_id3_nesting(raw) {
            return None;
        }
        match read_id3(raw) {
            Some(src) => {
                let t = Id3Tag {
                    artist: id3_artist(&src),
                    album_artist: id3_album_artist(&src),
                    artists: id3_artists(&src),
                    album: id3_album(&src),
                    title: id3_title(&src),
                    year: id3_year(&src),
                    pictures: id3_pictures(&src),
                    comments: id3_comments(&src),
                    lyrics: id3_lyrics(&src),
                };
                assert(t@ =~= spec_id3_tag(raw@).unwrap());
                Some(t)
            },
            None => None,
        }
    }
}

} // verus!
