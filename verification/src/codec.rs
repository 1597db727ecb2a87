//! The block decompressor: the codec that a frame's magic selects, and the
//! calls into the zstd and deflate decoders.

use vstd::prelude::*;

verus! {

/// How the payload of a frame is compressed.
#[derive(Clone, Copy, Debug, PartialEq, Eq)]
pub enum Codec {
    Plain,
    Deflate,
    Zstd,
}

/// The codec that a magic selects.
pub open spec fn codec_of(magic: u8) -> Codec {
    if 0x0A <= magic <= 0x0D {
        Codec::Zstd
    } else if magic == 0x04 || magic == 0x05 || magic == 0x07 || magic == 0x09 {
        Codec::Deflate
    } else {
        Codec::Plain
    }
}

/// The payload of a frame with this magic is encrypted.
pub open spec fn is_encrypted(magic: u8) -> bool {
    magic == 0x06 || magic == 0x08 || magic == 0x0B || magic == 0x0D
}

/// What the zstd decoder makes of `data`: the decoded bytes, or nothing where
/// it reports an error.
pub uninterp spec fn zstd_decoded(data: Seq<u8>) -> Option<Seq<u8>>;

/// What the raw deflate decoder makes of `data`.
pub uninterp spec fn deflate_decoded(data: Seq<u8>) -> Option<Seq<u8>>;

/// What the zlib decoder makes of `data`.
pub uninterp spec fn zlib_decoded(data: Seq<u8>) -> Option<Seq<u8>>;

/// The bytes of an optional buffer.
pub open spec fn bytes_of(r: Option<Vec<u8>>) -> Option<Seq<u8>> {
    match r {
        Some(v) => Some(v@),
        None => None,
    }
}

/// The plaintext of a payload under a codec. Deflate payloads are read as a
/// raw deflate stream first and as a zlib stream where that fails.
pub open spec fn decompressed(codec: Codec, data: Seq<u8>) -> Option<Seq<u8>> {
    match codec {
        Codec::Plain => Some(data),
        Codec::Zstd => zstd_decoded(data),
        Codec::Deflate => match deflate_decoded(data) {
            Some(text) => Some(text),
            None => zlib_decoded(data),
        },
    }
}

/// Decodes with `zstd::stream::decode_all`, which reads the whole input as
/// zstd frames and returns the decoded bytes or an I/O error. The result is a
/// function of the input bytes; it is named, not described.
#[verifier::external_body]
fn zstd_decode(data: &[u8]) -> (r: Option<Vec<u8>>)
    ensures
        bytes_of(r) == zstd_decoded(data@),
{
    zstd::stream::decode_all(data).ok()
}

/// Decodes with `flate2::read::DeflateDecoder`, read to its end. The result
/// is the bytes read, or nothing where the decoder reports an error; it is a
/// function of the input bytes and is named, not described.
#[verifier::external_body]
fn deflate_decode(data: &[u8]) -> (r: Option<Vec<u8>>)
    ensures
        bytes_of(r) == deflate_decoded(data@),
{
    let mut out: Vec<u8> = Vec::new();
    match std::io::Read::read_to_end(&mut flate2::read::DeflateDecoder::new(data), &mut out) {
        Ok(_) => Some(out),
        Err(_) => None,
    }
}

/// Decodes with `flate2::read::ZlibDecoder`, read to its end. The result is
/// the bytes read, or nothing where the decoder reports an error; it is a
/// function of the input bytes and is named, not described.
#[verifier::external_body]
fn zlib_decode(data: &[u8]) -> (r: Option<Vec<u8>>)
    ensures
        bytes_of(r) == zlib_decoded(data@),
{
    let mut out: Vec<u8> = Vec::new();
    match std::io::Read::read_to_end(&mut flate2::read::ZlibDecoder::new(data), &mut out) {
        Ok(_) => Some(out),
        Err(_) => None,
    }
}

/// The codec for a magic.
pub fn codec_for(magic: u8) -> (codec: Codec)
    ensures
        codec == codec_of(magic),
{
    if magic >= 0x0A && magic <= 0x0D {
        Codec::Zstd
    } else if magic == 0x04 || magic == 0x05 || magic == 0x07 || magic == 0x09 {
        Codec::Deflate
    } else {
        Codec::Plain
    }
}

/// Whether a magic marks an encrypted payload.
pub fn magic_is_encrypted(magic: u8) -> (encrypted: bool)
    ensures
        encrypted == is_encrypted(magic),
{
    magic == 0x06 || magic == 0x08 || magic == 0x0B || magic == 0x0D
}

/// Decompresses a payload under a codec; any codec error gives nothing.
pub fn decompress(codec: Codec, data: Vec<u8>) -> (r: Option<Vec<u8>>)
    ensures
        bytes_of(r) == decompressed(codec, data@),
{
    match codec {
        Codec::Plain => Some(data),
        Codec::Zstd => zstd_decode(data.as_slice()),
        Codec::Deflate => match deflate_decode(data.as_slice()) {
            Some(text) => Some(text),
            None => zlib_decode(data.as_slice()),
        },
    }
}

} // verus!
