//! Deflate framing for nodes, through the `flate2` crate.
//!
//! Each node is independently Deflate-compressed so that one node can be
//! decoded without touching the rest of the file.  What decompression
//! returns on a given byte string is named `inflate_of`; compression is
//! trusted to produce a byte string that decompresses to its input, which
//! is all the callers rely on.

use vstd::prelude::*;

verus! {

/// What Deflate decompression returns on `s`: `None` when `s` is not a
/// well-formed Deflate stream.  The result depends on the bytes alone.
pub uninterp spec fn inflate_of(s: Seq<u8>) -> Option<Seq<u8>>;

/// How long the Deflate stream produced for `s` is: a function of the
/// bytes alone, since the encoder and its settings are fixed.  Only the
/// length is named — nothing is assumed about the stream's content beyond
/// the round trip below.
pub uninterp spec fn deflate_len_of(s: Seq<u8>) -> nat;

/// Relies on flate2's `DeflateEncoder`: compression yields a Deflate stream
/// that decompresses to exactly the input, of a length that depends on the
/// input alone.
#[verifier::external_body]
pub fn deflate_bytes(buf: &[u8]) -> (r: Vec<u8>)
    ensures
        inflate_of(r@) == Some(buf@),
        r@.len() == deflate_len_of(buf@),
{
    let mut e = flate2::write::DeflateEncoder::new(Vec::new(), flate2::Compression::default());
    std::io::Write::write_all(&mut e, buf).expect("deflate: write");
    e.finish().expect("deflate: finish")
}

/// Relies on flate2's `DeflateDecoder`: decompression is a function of the
/// input bytes, failing exactly on byte strings that are not Deflate
/// streams.
#[verifier::external_body]
pub fn inflate_bytes(buf: &[u8]) -> (r: Option<Vec<u8>>)
    ensures
        r is Some <==> inflate_of(buf@) is Some,
        r matches Some(v) ==> inflate_of(buf@) == Some(v@),
{
    let mut d = flate2::read::DeflateDecoder::new(buf);
    let mut out: Vec<u8> = Vec::new();
    match std::io::Read::read_to_end(&mut d, &mut out) {
        Ok(_) => Some(out),
        Err(_) => None,
    }
}

} // verus!
