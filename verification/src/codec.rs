//! The compressed form in which an object is kept.

use std::io::{Read, Write};
use vstd::prelude::*;

verus! {

/// The zlib stream that `flate2` writes for `data` at its default level, or
/// `None` where its encoder reports an error.
pub uninterp spec fn zlib_encoded(data: Seq<u8>) -> Option<Seq<u8>>;

/// The bytes that `flate2` reads back from the zlib stream `data`, or `None`
/// where its decoder reports an error.
pub uninterp spec fn zlib_decoded(data: Seq<u8>) -> Option<Seq<u8>>;

/// `payload` is a compressed form from which `content` is read back.
pub open spec fn holds(payload: Seq<u8>, content: Seq<u8>) -> bool {
    zlib_decoded(payload) == Some(content)
}

/// The codec gives back `content`: the encoder has a stream for it and the
/// decoder reads `content` from that stream.
pub open spec fn codec_ok(content: Seq<u8>) -> bool {
    zlib_encoded(content) matches Some(stream) && holds(stream, content)
}

/// Runs `flate2::write::ZlibEncoder` over a vector, at the default level:
/// `data` is written once and the stream is finished. What comes back is the
/// encoder's output for these bytes, and `None` stands for an error from
/// either call. Nothing is claimed of what the stream holds.
#[verifier::external_body]
pub(crate) fn zlib_encode(data: &[u8]) -> (out: Option<Vec<u8>>)
    ensures
        match out {
            Some(stream) => zlib_encoded(data@) == Some(stream@),
            None => zlib_encoded(data@) is None,
        },
{
    let mut encoder = flate2::write::ZlibEncoder::new(Vec::new(), flate2::Compression::default());
    if encoder.write_all(data).is_err() {
        return None;
    }
    encoder.finish().ok()
}

/// Runs `flate2::read::ZlibDecoder` over `data` and reads it to the end.
/// What comes back is what the decoder read from these bytes, and `None`
/// stands for an error from it, which it reports for a stream that is
/// corrupt or incomplete. Nothing is claimed of how this relates to the
/// encoder.
#[verifier::external_body]
pub(crate) fn zlib_decode(data: &[u8]) -> (out: Option<Vec<u8>>)
    ensures
        match out {
            Some(content) => zlib_decoded(data@) == Some(content@),
            None => zlib_decoded(data@) is None,
        },
{
    let mut content = Vec::new();
    match flate2::read::ZlibDecoder::new(data).read_to_end(&mut content) {
        Ok(_) => Some(content),
        Err(_) => None,
    }
}

} // verus!
