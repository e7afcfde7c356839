# ndsd_read

Readers for DSD (Direct Stream Digital) audio containers, DSF and DSDIFF
(`.dff`), verified with Verus. DSDIFF files with DST-compressed sound are
opened, sought and walked frame by frame, but no DST decoder is attached: a
read that reaches a DST frame reports `DstDecoderNotInitialized`.

The readers work on the bytes of a whole file held in memory. Each reader has
a mathematical view (`DsfView`, `DffView`) and every operation is specified by
a spec function over that view: `open` walks the container's chunks and fills
the stream format and metadata, `read` hands out de-interleaved per-channel
sample bytes, `seek_samples` positions the reader. Laws about the readers
(what a seek followed by a read hands out, what reading and seeking keep, what
`open` reports) are proof functions named `law_*`.

Layout:

- `src/stream.rs`: the in-memory file with a read position; big- and
  little-endian number decoding.
- `src/detect.rs`: telling DSF from DSDIFF by the first bytes.
- `src/dsf_reader.rs`, `src/dff_reader.rs`: the two readers.
- `src/meta.rs`, `src/id3_tag.rs`: the metadata model and what is taken from an
  ID3 tag (read with the `id3` crate).
- `src/text.rs`: charset detection and decoding of DSDIFF text chunks (with
  `chardetng` and `encoding_rs`).
- `src/dst_dec.rs`: the status codes of the native DST frame decoder.
- `app/`: file access, the `DSDReader` trait with its floating-point seek and
  position helpers, `open_dsd_auto` and metadata printing.

ID3 tags are handed to the `id3` crate only where `check_id3_nesting`
accepts their bytes: the `id3` crate reads chapter (`CHAP`) and
table-of-contents (`CTOC`) frames nested in each other without a depth limit,
so a tag whose chapter frames may nest deeper than `MAX_CHAPTER_DEPTH` (or
that holds a compressed or unsynchronised chapter frame, whose nesting the
bytes do not show) is kept as raw bytes but not parsed.

Opening a reader again drops the sample bytes it had buffered (for DSDIFF,
once the chunk walk has found the sound parameters).
