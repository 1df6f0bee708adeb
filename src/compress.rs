//! zlib compression of loose objects.

use vstd::prelude::*;

verus! {

/// The zlib stream that the encoder produces for a byte sequence.
pub uninterp spec fn zlib_of(data: Seq<u8>) -> Seq<u8>;

/// What the zlib decoder yields for a byte sequence: `None` when the stream
/// is corrupt or ends early.
pub uninterp spec fn inflate_of(data: Seq<u8>) -> Option<Seq<u8>>;

/// Relies on `flate2::write::ZlibEncoder` writing into a `Vec` at the default
/// level: the zlib stream of `data`, which depends on `data` alone and which
/// the zlib decoder turns back into `data`.
#[verifier::external_body]
fn zlib_compress(data: &[u8]) -> (r: Vec<u8>)
    ensures
        r@ == zlib_of(data@),
        inflate_of(r@) == Some(data@),
{
    let mut e = flate2::write::ZlibEncoder::new(Vec::new(), flate2::Compression::default());
    let _ = std::io::Write::write_all(&mut e, data);
    e.finish().unwrap_or_default()
}

/// Relies on `flate2::read::ZlibDecoder` with `read_to_end`: the decompressed
/// bytes, or an error (here `None`) for a corrupt or incomplete stream; a
/// stream of the encoder cut short by its last byte is incomplete.
#[verifier::external_body]
fn zlib_decompress(data: &[u8]) -> (r: Option<Vec<u8>>)
    ensures
        r matches Some(v) ==> inflate_of(data@) == Some(v@),
        r is None ==> inflate_of(data@) is None,
        forall|x: Seq<u8>| #[trigger] zlib_of(x).drop_last() == data@ ==> r is None,
{
    let mut d = flate2::read::ZlibDecoder::new(data);
    let mut out: Vec<u8> = Vec::new();
    match std::io::Read::read_to_end(&mut d, &mut out) {
        Ok(_) => Some(out),
        Err(_) => None,
    }
}

/// Failure to decompress: the stream is truncated or fails its checks.
#[derive(Clone, Copy, Debug, PartialEq, Eq, Structural)]
pub enum CorruptData {
    CorruptData,
}

/// Compresses `data` into a self-describing zlib stream.
pub fn compress(data: &[u8]) -> (r: Vec<u8>)
    ensures
        r@ == zlib_of(data@),
        inflate_of(r@) == Some(data@),
{
    zlib_compress(data)
}

/// Decompresses a zlib stream; fails exactly when the decoder rejects it.
pub fn decompress(data: &[u8]) -> (r: Result<Vec<u8>, CorruptData>)
    ensures
        r matches Ok(v) ==> inflate_of(data@) == Some(v@),
        r is Err <==> inflate_of(data@) is None,
        forall|x: Seq<u8>| #[trigger] zlib_of(x).drop_last() == data@ ==> r is Err,
{
    match zlib_decompress(data) {
        Some(v) => Ok(v),
        None => Err(CorruptData::CorruptData),
    }
}

} // verus!
