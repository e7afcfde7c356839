//! Metadata gathered from a file: ID3 tags and DSDIFF text chunks.
use vstd::prelude::*;

use crate::id3_tag::{spec_id3_tag, texts, Id3Tag, Id3TagView, Id3Text, Id3TextView};

verus! {

/// The view of an optional string.
pub open spec fn opt_str(o: Option<String>) -> Option<Seq<char>> {
    match o {
        Some(s) => Some(s@),
        None => None,
    }
}

/// The view of a vector of strings.
pub open spec fn strs(v: Seq<String>) -> Seq<Seq<char>> {
    v.map_values(|s: String| s@)
}

/// An embedded picture (cover art).
#[derive(Clone, PartialEq, Eq, Debug)]
pub struct MetaPicture {
    pub description: String,
    pub mime_type: String,
    pub data: Vec<u8>,
}

#[verifier::ext_equal]
pub struct MetaPictureView {
    pub description: Seq<char>,
    pub mime_type: Seq<char>,
    pub data: Seq<u8>,
}

impl View for MetaPicture {
    type V = MetaPictureView;

    open spec fn view(&self) -> MetaPictureView {
        MetaPictureView {
            description: self.description@,
            mime_type: self.mime_type@,
            data: self.data@,
        }
    }
}

/// The view of a vector of pictures.
pub open spec fn pics(v: Seq<MetaPicture>) -> Seq<MetaPictureView> {
    v.map_values(|p: MetaPicture| p@)
}

impl Default for MetaPicture {
    fn default() -> (p: MetaPicture)
        ensures
            p@ == (MetaPictureView {
                description: Seq::<char>::empty(),
                mime_type: Seq::<char>::empty(),
                data: Seq::<u8>::empty(),
            }),
    {
        MetaPicture { description: String::new(), mime_type: String::new(), data: Vec::new() }
    }
}

/// Tags of a DSD file.
#[derive(Clone, PartialEq, Eq, Debug)]
pub struct DSDMeta {
    pub artist: Option<String>,
    pub album: Option<String>,
    pub title: Option<String>,
    pub comment: Option<String>,
    pub genre: Option<String>,
    pub lyrics: Vec<String>,
    pub year: Option<u32>,
    pub cover_art: Vec<MetaPicture>,
    pub id3_raw: Option<Vec<u8>>,
}

#[verifier::ext_equal]
pub struct DSDMetaView {
    pub artist: Option<Seq<char>>,
    pub album: Option<Seq<char>>,
    pub title: Option<Seq<char>>,
    pub comment: Option<Seq<char>>,
    pub genre: Option<Seq<char>>,
    pub lyrics: Seq<Seq<char>>,
    pub year: Option<u32>,
    pub cover_art: Seq<MetaPictureView>,
    pub id3_raw: Option<Seq<u8>>,
}

impl View for DSDMeta {
    type V = DSDMetaView;

    open spec fn view(&self) -> DSDMetaView {
        DSDMetaView {
            artist: opt_str(self.artist),
            album: opt_str(self.album),
            title: opt_str(self.title),
            comment: opt_str(self.comment),
            genre: opt_str(self.genre),
            lyrics: strs(self.lyrics@),
            year: self.year,
            cover_art: pics(self.cover_art@),
            id3_raw: match self.id3_raw {
                Some(v) => Some(v@),
                None => None,
            },
        }
    }
}

impl DSDMetaView {
    /// No tag at all.
    pub open spec fn empty() -> DSDMetaView {
        DSDMetaView {
            artist: None,
            album: None,
            title: None,
            comment: None,
            genre: None,
            lyrics: Seq::empty(),
            year: None,
            cover_art: Seq::empty(),
            id3_raw: None,
        }
    }
}

impl DSDMeta {
    /// Whether any of the tags a listing shows first is present: artist,
    /// album, title, comment or a picture. Genre, year and lyrics alone do
    /// not count.
    pub fn has_useful_metadata(&self) -> (b: bool)
        ensures
            b == (self@.artist is Some || self@.album is Some || self@.title is Some
                || self@.comment is Some || self@.cover_art.len() > 0),
    {
        self.artist.is_some() || self.album.is_some() || self.title.is_some()
            || self.comment.is_some() || self.cover_art.len() > 0
    }
}

impl Default for DSDMeta {
    fn default() -> (m: DSDMeta)
        ensures
            m@ == DSDMetaView::empty(),
    {
        let m = DSDMeta {
            artist: None,
            album: None,
            title: None,
            comment: None,
            genre: None,
            lyrics: Vec::new(),
            year: None,
            cover_art: Vec::new(),
            id3_raw: None,
        };
        assert(m@ =~= DSDMetaView::empty());
        m
    }
}

/// How a comment or a lyrics frame is shown: `|lang| description: text`.
pub open spec fn spec_fmt_text(t: Id3TextView) -> Seq<char> {
    seq!['|'] + t.lang + seq!['|', ' '] + t.description + seq![':', ' '] + t.text
}

/// All comment frames, each shown as by `spec_fmt_text`, one after the other.
pub open spec fn spec_join_texts(ts: Seq<Id3TextView>) -> Seq<char>
    decreases ts.len(),
{
    if ts.len() == 0 {
        Seq::empty()
    } else {
        spec_join_texts(ts.drop_last()) + spec_fmt_text(ts.last())
    }
}

/// The artist an ID3 tag names: the lead artist, else the album artist, else
/// the first of the artists.
pub open spec fn spec_tag_artist(t: Id3TagView) -> Option<Seq<char>> {
    if t.artist is Some {
        t.artist
    } else if t.album_artist is Some {
        t.album_artist
    } else {
        match t.artists {
            Some(a) => if a.len() > 0 {
                Some(a[0])
            } else {
                None
            },
            None => None,
        }
    }
}

/// What taking the fields of an ID3 tag does to a metadata record: each field
/// the tag has replaces the record's; pictures and lyrics are appended; the
/// comments, joined, replace the comment when there is any.
pub open spec fn spec_update_from_id3(m: DSDMetaView, t: Id3TagView) -> DSDMetaView {
    let joined = spec_join_texts(t.comments);
    DSDMetaView {
        artist: if spec_tag_artist(t) is Some {
            spec_tag_artist(t)
        } else {
            m.artist
        },
        album: if t.album is Some {
            t.album
        } else {
            m.album
        },
        title: if t.title is Some {
            t.title
        } else {
            m.title
        },
        year: match t.year {
            Some(y) => Some(y as u32),
            None => m.year,
        },
        cover_art: m.cover_art + t.pictures,
        comment: if joined.len() > 0 {
            Some(joined)
        } else {
            m.comment
        },
        lyrics: m.lyrics + t.lyrics.map_values(|l: Id3TextView| spec_fmt_text(l)),
        ..m
    }
}

/// Show a comment or lyrics frame as `|lang| description: text`.
fn fmt_text(t: &Id3Text) -> (s: String)
    ensures
        s@ == spec_fmt_text(t@),
{
    let mut s = String::new();
    s.append("|");
    s.append(t.lang.as_str());
    s.append("| ");
    s.append(t.description.as_str());
    s.append(": ");
    s.append(t.text.as_str());
    proof {
        reveal_strlit("|");
        reveal_strlit("| ");
        reveal_strlit(": ");
        assert(s@ =~= spec_fmt_text(t@));
    }
    s
}

impl DSDMeta {
    /// Take over the fields of an ID3 tag.
    pub fn update_from_id3(&mut self, tag: Id3Tag)
        ensures
            final(self)@ == spec_update_from_id3(old(self)@, tag@),
    {
        let ghost m0 = self@;
        let ghost t0 = tag@;
        let Id3Tag { artist, album_artist, artists, album, title, year, pictures, comments, lyrics } =
            tag;
        let chosen: Option<String> = if artist.is_some() {
            artist
        } else if album_artist.is_some() {
            album_artist
        } else {
            match artists {
                Some(a) => if a.len() > 0 {
                    Some(a[0].clone())
                } else {
                    None
                },
                None => None,
            }
        };
        if chosen.is_some() {
            self.artist = chosen;
        }
        if album.is_some() {
            self.album = album;
        }
        if title.is_some() {
            self.title = title;
        }
        match year {
            Some(y) => {
                self.year = Some(y as u32);
            },
            None => {},
        }
        let mut pictures = pictures;
        proof {
            assert(pics(self.cover_art@ + pictures@) =~= pics(self.cover_art@) + pics(pictures@));
        }
        self.cover_art.append(&mut pictures);
        let mut joined = String::new();
        let nc: usize = comments.len();
        let mut i: usize = 0;
        while i < nc
            invariant
                nc == comments@.len(),
                i <= nc,
                joined@ == spec_join_texts(texts(comments@).take(i as int)),
            decreases nc - i,
        {
            let piece = fmt_text(&comments[i]);
            joined.append(piece.as_str());
            proof {
                assert(texts(comments@).take(i + 1).drop_last() =~= texts(comments@).take(i as int));
            }
            i = i + 1;
        }
        proof {
            assert(texts(comments@).take(nc as int) =~= texts(comments@));
        }
        if !joined.as_str().is_empty() {
            self.comment = Some(joined);
        }
        let mut lines: Vec<String> = Vec::new();
        let nl: usize = lyrics.len();
        let mut k: usize = 0;
        while k < nl
            invariant
                nl == lyrics@.len(),
                k <= nl,
                strs(lines@) == texts(lyrics@).take(k as int).map_values(
                    |l: Id3TextView| spec_fmt_text(l),
                ),
            decreases nl - k,
        {
            let line = fmt_text(&lyrics[k]);
            let ghost before = lines@;
            lines.push(line);
            proof {
                assert(texts(lyrics@)[k as int] == lyrics@[k as int]@);
                assert(strs(lines@) =~= strs(before).push(line@));
                assert(texts(lyrics@).take(k + 1) =~= texts(lyrics@).take(k as int).push(
                    texts(lyrics@)[k as int],
                ));
                assert(strs(lines@) =~= texts(lyrics@).take(k + 1).map_values(
                    |l: Id3TextView| spec_fmt_text(l),
                ));
            }
            k = k + 1;
        }
        proof {
            assert(strs(self.lyrics@ + lines@) =~= strs(self.lyrics@) + strs(lines@));
        }
        self.lyrics.append(&mut lines);
        proof {
            assert(texts(lyrics@).take(nl as int) =~= texts(lyrics@));
            let u = spec_update_from_id3(m0, t0);
            assert(self@.artist == u.artist);
            assert(self@.album == u.album);
            assert(self@.title == u.title);
            assert(self@.year == u.year);
            assert(self@.cover_art =~= u.cover_art);
            assert(self@.comment == u.comment);
            assert(self@.lyrics =~= u.lyrics);
            assert(self@ =~= spec_update_from_id3(m0, t0));
        }
    }
}

/// The metadata of a raw ID3 tag: the raw bytes, and the fields of the tag
/// when the `id3` crate can read one from them.
pub open spec fn spec_from_id3(raw: Seq<u8>) -> DSDMetaView {
    let m = DSDMetaView { id3_raw: Some(raw), ..DSDMetaView::empty() };
    match spec_id3_tag(raw) {
        Some(t) => spec_update_from_id3(m, t),
        None => m,
    }
}

impl DSDMeta {
    /// Metadata from the bytes of an ID3 tag.
    pub fn from_id3(id3_raw: Vec<u8>) -> (m: DSDMeta)
        ensures
            m@ == spec_from_id3(id3_raw@),
    {
        let mut res = DSDMeta::default();
        let tag = Id3Tag::from_bytes(id3_raw.as_slice());
        res.id3_raw = Some(id3_raw);
        match tag {
            Some(t) => {
                res.update_from_id3(t);
            },
            None => {},
        }
        res
    }
}

/// The metadata made from raw ID3 bytes keeps those bytes, whatever the tag
/// holds; without a readable tag it holds nothing else.
pub proof fn law_from_id3_keeps_raw(raw: Seq<u8>)
    ensures
        spec_from_id3(raw).id3_raw == Some(raw),
        spec_id3_tag(raw) is None ==> spec_from_id3(raw) == (DSDMetaView {
            id3_raw: Some(raw),
            ..DSDMetaView::empty()
        }),
{
}

/// Taking an ID3 tag into metadata only adds: a field the tag lacks keeps its
/// value, pictures and lyrics are appended after the ones already there, and
/// the genre and the raw tag bytes are left alone.
pub proof fn law_update_from_id3_only_adds(m: DSDMetaView, t: Id3TagView)
    ensures
        ({
            let u = spec_update_from_id3(m, t);
            &&& t.album is None ==> u.album == m.album
            &&& t.title is None ==> u.title == m.title
            &&& t.year is None ==> u.year == m.year
            &&& t.artist is None && t.album_artist is None && t.artists is None ==> u.artist
                == m.artist
            &&& t.comments.len() == 0 ==> u.comment == m.comment
            &&& u.cover_art.take(m.cover_art.len() as int) == m.cover_art
            &&& u.cover_art.len() == m.cover_art.len() + t.pictures.len()
            &&& u.lyrics.take(m.lyrics.len() as int) == m.lyrics
            &&& u.lyrics.len() == m.lyrics.len() + t.lyrics.len()
            &&& u.genre == m.genre
            &&& u.id3_raw == m.id3_raw
        }),
{
    let u = spec_update_from_id3(m, t);
    assert(u.cover_art.take(m.cover_art.len() as int) =~= m.cover_art);
    assert(u.lyrics.take(m.lyrics.len() as int) =~= m.lyrics);
    if t.comments.len() == 0 {
        assert(spec_join_texts(t.comments) =~= Seq::<char>::empty());
    }
}


/// Taking an ID3 tag appends its pictures and its lyrics in frame order: the
/// pictures follow the ones already there, first frame first, and lyrics
/// frame `i` becomes the line `|lang| description: text` after the lines
/// already there.
pub proof fn law_update_from_id3_keeps_frame_order(m: DSDMetaView, t: Id3TagView)
    ensures
        ({
            let u = spec_update_from_id3(m, t);
            &&& u.cover_art.len() == m.cover_art.len() + t.pictures.len()
            &&& forall|i: int| 0 <= i < m.cover_art.len() ==> #[trigger] u.cover_art[i] == m.cover_art[i]
            &&& forall|i: int|
                0 <= i < t.pictures.len() ==> #[trigger] u.cover_art[m.cover_art.len() + i]
                    == t.pictures[i]
            &&& u.lyrics.len() == m.lyrics.len() + t.lyrics.len()
            &&& forall|i: int| 0 <= i < m.lyrics.len() ==> #[trigger] u.lyrics[i] == m.lyrics[i]
            &&& forall|i: int|
                0 <= i < t.lyrics.len() ==> #[trigger] u.lyrics[m.lyrics.len() + i] == seq!['|']
                    + t.lyrics[i].lang + seq!['|', ' '] + t.lyrics[i].description + seq![':', ' ']
                    + t.lyrics[i].text
        }),
{
}
} // verus!
