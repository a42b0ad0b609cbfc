use vstd::prelude::*;
use std::io::Read;

verus! {

/// What the zlib encoder, at its fastest level, makes of a byte string;
/// `None` where it reports a failure.
pub uninterp spec fn zlib_compressed(data: Seq<u8>) -> Option<Seq<u8>>;

/// What the zlib decoder reads out of a record; `None` where the record is
/// no complete zlib stream.
pub uninterp spec fn zlib_decompressed(record: Seq<u8>) -> Option<Seq<u8>>;

/// Reads `data` through `flate2::bufread::ZlibEncoder` at `Compression::fast()`
/// to its end. The contract names what comes out, and claims that the decoder
/// reads a record made here back into `data`.
#[verifier::external_body]
pub(crate) fn compress(data: &Vec<u8>) -> (r: Option<Vec<u8>>)
    ensures
        r matches Some(record) ==> zlib_compressed(data@) == Some(record@) && zlib_decompressed(
            record@,
        ) == Some(data@),
        r is None ==> zlib_compressed(data@) is None,
{
    let mut encoder = flate2::bufread::ZlibEncoder::new(data.as_slice(), flate2::Compression::fast());
    let mut record: Vec<u8> = Vec::new();
    match encoder.read_to_end(&mut record) {
        Ok(_) => Some(record),
        Err(_) => None,
    }
}

/// Reads `record` through `flate2::read::ZlibDecoder` to its end. The
/// contract names what comes out; the decoder fails on a stream that is
/// corrupt or cut short.
#[verifier::external_body]
pub(crate) fn decompress(record: &Vec<u8>) -> (r: Option<Vec<u8>>)
    ensures
        r matches Some(data) ==> zlib_decompressed(record@) == Some(data@),
        r is None ==> zlib_decompressed(record@) is None,
{
    let mut decoder = flate2::read::ZlibDecoder::new(record.as_slice());
    let mut data: Vec<u8> = Vec::new();
    match decoder.read_to_end(&mut data) {
        Ok(_) => Some(data),
        Err(_) => None,
    }
}

} // verus!
