use vstd::prelude::*;

use vstd::utf8::valid_utf8;

verus! {

/// The compression level the server uses: 128 match probes with lazy
/// matching, writing a raw DEFLATE stream (no zlib header).
pub const DEFLATE_LEVEL: u8 = 6;

/// The raw DEFLATE stream that `miniz_oxide::deflate::compress_to_vec` makes
/// of `data` at compression level `level`.
pub uninterp spec fn deflated(data: Seq<u8>, level: u8) -> Seq<u8>;

/// The compressed form of `data` the server sends.
pub open spec fn compressed(data: Seq<u8>) -> Seq<u8> {
    deflated(data, DEFLATE_LEVEL)
}

/// Calls `miniz_oxide::deflate::compress_to_vec`, whose output is a function
/// of the data and the level alone; nothing more of it is stated here.
#[verifier::external_body]
fn compress_to_vec(data: &[u8], level: u8) -> (r: Vec<u8>)
    requires
        level <= 10,
    ensures
        r@ == deflated(data@, level),
{
    miniz_oxide::deflate::compress_to_vec(data, level)
}

/// Compresses `data` the way the server compresses its pages and cached files.
pub fn deflate_bytes(data: &[u8]) -> (r: Vec<u8>)
    ensures
        r@ == compressed(data@),
{
    compress_to_vec(data, DEFLATE_LEVEL)
}

/// Calls `std::str::from_utf8` and tells whether it accepts the bytes, which
/// it does exactly when they are well-formed UTF-8.
#[verifier::external_body]
pub(crate) fn is_utf8(bytes: &[u8]) -> (r: bool)
    ensures
        r == valid_utf8(bytes@),
{
    std::str::from_utf8(bytes).is_ok()
}

} // verus!
