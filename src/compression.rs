//! zlib compression of stored objects, through the `libflate` crate.
use vstd::prelude::*;

verus! {

#[verifier::external_type_specification]
#[verifier::external_body]
pub struct ExIoError(std::io::Error);

/// The zlib stream that `libflate` writes for a byte sequence.
pub uninterp spec fn zlib_of(b: Seq<u8>) -> Seq<u8>;

/// The bytes that `libflate` reads back out of a zlib stream.
pub uninterp spec fn unzlib_of(c: Seq<u8>) -> Seq<u8>;

/// Whether `libflate` reads a byte sequence as a complete zlib stream.
pub uninterp spec fn unzlib_ok(c: Seq<u8>) -> bool;

/// Compresses bytes into a zlib stream.
///
/// Relies on `libflate::zlib::Encoder` (new, write through `io::copy`,
/// finish): the stream depends on the input bytes alone, and since the
/// header, the blocks and the trailer are all written into a `Vec`, no
/// step can fail. The encoder and `libflate::zlib::Decoder` are a codec
/// pair: the decoder reads the stream back to the input (the crate's own
/// `default_encode_works` and `assert_encode_decode!` tests check this).
#[verifier::external_body]
pub fn compress(bytes: &[u8]) -> (r: Result<Vec<u8>, std::io::Error>)
    ensures
        r is Ok,
        r is Ok ==> r->Ok_0@ == zlib_of(bytes@),
        r is Ok ==> unzlib_ok(r->Ok_0@) && unzlib_of(r->Ok_0@) == bytes@,
{
    let mut bytes: &[u8] = bytes;
    let mut encoder = libflate::zlib::Encoder::new(Vec::new())?;
    std::io::copy(&mut bytes, &mut encoder)?;
    encoder.finish().into_result()
}

/// Decompresses a zlib stream.
///
/// Relies on `libflate::zlib::Decoder` (new, `read_to_end`): whether it
/// fails, and the output where it does not, depend on the input alone.
#[verifier::external_body]
pub fn decompress(compressed_bytes: &[u8]) -> (r: Result<Vec<u8>, std::io::Error>)
    ensures
        r is Ok <==> unzlib_ok(compressed_bytes@),
        r is Ok ==> r->Ok_0@ == unzlib_of(compressed_bytes@),
{
    let mut decoder = libflate::zlib::Decoder::new(compressed_bytes)?;
    let mut bytes = Vec::new();
    std::io::Read::read_to_end(&mut decoder, &mut bytes)?;
    Ok(bytes)
}

} // verus!
