//! Reusable block-compression contexts, backed by zstd's bulk API.

use vstd::prelude::*;
use zstd::bulk::{Compressor as BulkCompressor, Decompressor as BulkDecompressor};

verus! {

#[verifier::external_type_specification]
#[verifier::external_body]
pub struct ExBulkCompressor<'a>(BulkCompressor<'a>);

#[verifier::external_type_specification]
#[verifier::external_body]
pub struct ExBulkDecompressor<'a>(BulkDecompressor<'a>);

/// A compression context, kept across calls so that its working memory is
/// reused. One context serves one call at a time.
pub struct Compressor {
    pub(crate) ctx: BulkCompressor<'static>,
}

/// A decompression context, kept across calls so that its working memory is
/// reused. One context serves one call at a time.
pub struct Decompressor {
    pub(crate) ctx: BulkDecompressor<'static>,
}

/// The bytes that zstd's decoder, with no dictionary, yields for `frame`;
/// `None` where it reports the input as corrupt.
pub uninterp spec fn frame_content(frame: Seq<u8>) -> Option<Seq<u8>>;

/// Relies on zstd::bulk::Compressor::new: a context at `level`, or `None`
/// where zstd cannot make one.
#[verifier::external_body]
fn zstd_compressor(level: i32) -> (r: Option<BulkCompressor<'static>>) {
    BulkCompressor::new(level).ok()
}

/// Relies on zstd::bulk::Decompressor::new: a context, or `None` where zstd
/// cannot make one.
#[verifier::external_body]
fn zstd_decompressor() -> (r: Option<BulkDecompressor<'static>>) {
    BulkDecompressor::new().ok()
}

/// Relies on zstd::bulk::Compressor::compress: one zstd frame holding
/// `data`, or `None` where zstd reports an error. zstd is lossless, so the
/// frame decodes to `data`.
#[verifier::external_body]
pub(crate) fn zstd_compress(ctx: &mut BulkCompressor<'static>, data: &[u8]) -> (r: Option<Vec<u8>>)
    ensures
        r matches Some(f) ==> frame_content(f@) == Some(data@),
{
    ctx.compress(data).ok()
}

/// Relies on zstd::bulk::Decompressor::decompress: the bytes that the frame
/// `data` holds, or `None` where zstd reports an error, among them an output
/// larger than `capacity`. A context made by `zstd_decompressor` has no
/// dictionary, so what it yields depends on `data` alone, and a frame whose
/// content fits in `capacity` is decoded.
#[verifier::external_body]
pub(crate) fn zstd_decompress(ctx: &mut BulkDecompressor<'static>, data: &[u8], capacity: usize) -> (r:
    Option<Vec<u8>>)
    ensures
        r matches Some(p) ==> frame_content(data@) == Some(p@),
        (frame_content(data@) matches Some(p) && p.len() <= capacity) ==> r is Some,
{
    ctx.decompress(data, capacity).ok()
}

impl Compressor {
    /// A context at `compression_level`, which should lie in 1..=19 (3 is
    /// the usual default); `None` where the backend cannot make one.
    pub fn new(compression_level: i32) -> (r: Option<Compressor>) {
        match zstd_compressor(compression_level) {
            Some(ctx) => Some(Compressor { ctx }),
            None => None,
        }
    }
}

impl Decompressor {
    /// A context; `None` where the backend cannot make one.
    pub fn new() -> (r: Option<Decompressor>) {
        match zstd_decompressor() {
            Some(ctx) => Some(Decompressor { ctx }),
            None => None,
        }
    }
}

} // verus!
