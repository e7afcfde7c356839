//! Turning text bytes of unknown encoding into a string, with `chardetng`.
use vstd::prelude::*;

verus! {

/// The text that `chardetng` guesses the bytes to be, decoded by `encoding_rs`
/// with the guessed encoding.
pub uninterp spec fn spec_decoded_text(bytes: Seq<u8>) -> Seq<char>;

/// Runs `chardetng::EncodingDetector` over the whole byte string (`feed` with
/// `last = true`, then `guess(None, true)`) and decodes the bytes with the
/// guessed encoding (`Encoding::decode`, malformed sequences become U+FFFD).
/// The guessed encoding is a value of `encoding_rs` that only this chain uses,
/// so detection and decoding stand in one item; it claims that the result is
/// the fixed function `spec_decoded_text` of the bytes.
/// `encoding_rs` checks the size of its output buffer against `usize` and
/// panics when it overflows: the bound on the input keeps every such size
/// (at most a few times the input length, rounded up to a power of two) in range.
#[verifier::external_body]
pub(crate) fn decode_bytes(bytes: &[u8]) -> (s: String)
    requires
        bytes@.len() <= usize::MAX / 8,
    ensures
        s@ == spec_decoded_text(bytes@),
{
    let mut detector = chardetng::EncodingDetector::new();
    detector.feed(bytes, true);
    let encoding = detector.guess(None, true);
    let (decoded, _, _) = encoding.decode(bytes);
    decoded.into_owned()
}

} // verus!
