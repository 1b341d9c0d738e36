use vstd::prelude::*;

verus! {

/// The zstd frame that compressing `payload` at the fixed maximum level
/// yields.
pub uninterp spec fn zstd_frame(payload: Seq<u8>) -> Seq<u8>;

/// Relies on `zstd::stream::encode_all` at the codec's maximum level, 22:
/// the level is valid by construction and both ends are in-memory buffers,
/// so the call cannot fail, and the produced frame is a function of the
/// bytes alone.
#[verifier::external_body]
pub(crate) fn compress_bytes(data: &Vec<u8>) -> (r: Vec<u8>)
    ensures
        r@ == zstd_frame(data@),
{
    zstd::stream::encode_all(std::io::Cursor::new(data.as_slice()), 22)
        .expect("compressing a memory buffer at a fixed valid level cannot fail")
}

/// Relies on `zstd::stream::decode_all`: the codec is lossless, so a frame
/// that `encode_all` produced decodes back to the bytes it compressed, and
/// such frames stay within the decoder's default window limit.
#[verifier::external_body]
pub(crate) fn decompress_bytes(data: &Vec<u8>) -> (r: Option<Vec<u8>>)
    ensures
        r matches Some(d) ==> forall|p: Seq<u8>| data@ == #[trigger] zstd_frame(p) ==> d@ == p,
        r is None ==> forall|p: Seq<u8>| data@ != #[trigger] zstd_frame(p),
{
    zstd::stream::decode_all(std::io::Cursor::new(data.as_slice())).ok()
}

} // verus!
