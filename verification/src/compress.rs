use vstd::prelude::*;

verus! {

use crate::ModelError;

/// What zstd decompression yields for a byte string: the decompressed bytes
/// if the input is a well-formed zstd stream, nothing otherwise.
/// Uninterpreted: the stream format is the compressor's business.
pub uninterp spec fn zstd_unframe_of(b: Seq<u8>) -> Option<Seq<u8>>;

/// Relies on zstd::stream::encode_all at the maximum compression level: its
/// output is a zstd stream that decompresses losslessly back to the input.
/// Compressing an in-memory buffer into a vector at a fixed valid level
/// cannot fail, so success is promised.
#[verifier::external_body]
pub(crate) fn zstd_compress(b: &Vec<u8>) -> (r: Result<Vec<u8>, ModelError>)
    ensures
        r is Ok,
        r matches Ok(c) ==> zstd_unframe_of(c@) == Some(b@),
{
    match zstd::stream::encode_all(b.as_slice(), 22) {
        Ok(c) => Ok(c),
        Err(_) => Err(ModelError::PersistenceError),
    }
}

/// Relies on zstd::stream::decode_all: deterministic decompression that
/// succeeds exactly on inputs forming a well-formed zstd stream.
#[verifier::external_body]
pub(crate) fn zstd_decompress(b: &Vec<u8>) -> (r: Result<Vec<u8>, ModelError>)
    ensures
        r is Ok <==> zstd_unframe_of(b@) is Some,
        r matches Ok(d) ==> zstd_unframe_of(b@) == Some(d@),
        r matches Err(e) ==> e == ModelError::PersistenceError,
{
    match zstd::stream::decode_all(b.as_slice()) {
        Ok(d) => Ok(d),
        Err(_) => Err(ModelError::PersistenceError),
    }
}

} // verus!
