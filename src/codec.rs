//! The container codec: raw file to compact file and back.

use vstd::prelude::*;
use crate::backend::{frame_content, zstd_compress, zstd_decompress, Compressor, Decompressor};
use crate::bytes::{push_be32, push_range, read_be32};
use crate::error::{CompError, DecompError};
use crate::format::{
    compact_header_valid, compact_meta_at, compact_packed_from, compact_planar_len, compact_prefix,
    compact_start_at, compact_table, compact_table_at, compact_valid, has_raw_magic, push_raw_magic,
    raw_events, raw_sizes, raw_table_tail, raw_valid, rebuilt, EVENT_PAYLOADS, GAME_START, VERSION,
};
use crate::stream::is_reordering;
use crate::table::event_sizes;
use crate::transpose::{reorder_events, unorder_events};

verus! {

/// Splits the raw file `slp` into the uncompressed part of its compact file
/// (header and the three leading sections) and the planar buffer of its
/// event stream, which is what gets compressed. Fails unless `slp` is a raw
/// file that the codec can encode.
pub fn compact_parts(slp: &[u8]) -> (r: Result<(Vec<u8>, Vec<u8>), CompError>)
    ensures
        r is Ok <==> raw_valid(slp@),
        r matches Ok((prefix, planar)) ==> {
            &&& prefix@ == compact_prefix(slp@)
            &&& is_reordering(raw_events(slp@), raw_sizes(slp@), planar@)
        },
        r matches Err(err) ==> err == CompError::InvalidFile,
{
    let ghost s = slp@;
    let len = slp.len();
    if len < 16 {
        return Err(CompError::InvalidFile);
    }
    if !has_raw_magic(slp) {
        return Err(CompError::InvalidFile);
    }
    let raw_len = read_be32(slp, 11) as usize;
    if raw_len > len - 15 {
        return Err(CompError::InvalidFile);
    }
    let metadata_at = 15 + raw_len;
    if slp[15] != EVENT_PAYLOADS {
        return Err(CompError::InvalidFile);
    }
    let table = &slp[15..len];
    proof {
        assert(table@ =~= raw_table_tail(s));
    }
    let (sizes, entries) = match event_sizes(table) {
        Some(t) => t,
        None => return Err(CompError::InvalidFile),
    };
    let table_len = 2 + 3 * entries;
    if slp[16] as usize > table_len {
        return Err(CompError::InvalidFile);
    }
    let start_at = 15 + table_len;
    let start_len = sizes[GAME_START as usize] as usize + 1;
    if len - start_at < start_len {
        return Err(CompError::InvalidFile);
    }
    if slp[start_at] != GAME_START {
        return Err(CompError::InvalidFile);
    }
    let events_at = start_at + start_len;
    if metadata_at < events_at {
        return Err(CompError::InvalidFile);
    }
    let head_len = events_at - 15;
    let meta_len = len - metadata_at;
    let events_len = metadata_at - events_at;
    if head_len > 0xffff_ffff - 24 || meta_len > 0xffff_ffff - 24 - head_len || events_len
        > 0xffff_ffff - 4 {
        return Err(CompError::InvalidFile);
    }
    let events = &slp[events_at..metadata_at];
    let mut planar: Vec<u8> = Vec::new();
    match reorder_events(events, &sizes, &mut planar) {
        Ok(_) => {},
        Err(err) => return Err(err),
    }
    let mut prefix: Vec<u8> = Vec::new();
    push_be32(&mut prefix, VERSION);
    push_be32(&mut prefix, 24);
    push_be32(&mut prefix, (24 + table_len) as u32);
    push_be32(&mut prefix, (24 + head_len) as u32);
    push_be32(&mut prefix, (24 + head_len + meta_len) as u32);
    push_be32(&mut prefix, (4 + events_len) as u32);
    push_range(&mut prefix, slp, 15, start_at);
    push_range(&mut prefix, slp, start_at, events_at);
    push_range(&mut prefix, slp, metadata_at, len);
    proof {
        assert(planar@.skip(0) =~= planar@);
        assert(prefix@ =~= compact_prefix(s));
    }
    Ok((prefix, planar))
}

/// Compresses the raw file `slp` to a compact file: the uncompressed part
/// that `compact_parts` gives, followed by the block compressor's frame of
/// the planar buffer of the events.
pub fn compress(compressor: &mut Compressor, slp: &[u8]) -> (r: Result<Vec<u8>, CompError>)
    ensures
        !raw_valid(slp@) ==> r == Err::<Vec<u8>, CompError>(CompError::InvalidFile),
        raw_valid(slp@) ==> match r {
            Ok(out) => {
                &&& compact_prefix(slp@).len() <= out@.len()
                &&& out@.take(compact_prefix(slp@).len() as int) == compact_prefix(slp@)
                &&& frame_content(out@.skip(compact_prefix(slp@).len() as int)) matches Some(p)
                    && is_reordering(raw_events(slp@), raw_sizes(slp@), p)
            },
            Err(err) => err == CompError::CompressionFailure,
        },
{
    let (mut slpz, planar) = match compact_parts(slp) {
        Ok(parts) => parts,
        Err(err) => return Err(err),
    };
    let packed = match zstd_compress(&mut compressor.ctx, planar.as_slice()) {
        Some(packed) => packed,
        None => return Err(CompError::CompressionFailure),
    };
    let ghost prefix = slpz@;
    push_range(&mut slpz, packed.as_slice(), 0, packed.len());
    proof {
        assert(slpz@.take(prefix.len() as int) =~= prefix);
        assert(slpz@.skip(prefix.len() as int) =~= packed@);
    }
    Ok(slpz)
}

/// Reads the header of the compact file `c`: the offsets of its table,
/// header-record, metadata and compressed sections and the planar buffer's
/// length. `None` unless the header is valid.
fn read_layout(c: &[u8]) -> (r: Option<(usize, usize, usize, usize, usize)>)
    ensures
        r is Some <==> compact_header_valid(c@),
        r matches Some((t, g, m, p, n)) ==> {
            &&& t == compact_table_at(c@)
            &&& g == compact_start_at(c@)
            &&& m == compact_meta_at(c@)
            &&& p == compact_packed_from(c@)
            &&& n == compact_planar_len(c@)
        },
{
    if c.len() < 24 {
        return None;
    }
    let version = read_be32(c, 0);
    if version > VERSION {
        return None;
    }
    let table_at = read_be32(c, 4) as usize;
    let start_at = read_be32(c, 8) as usize;
    let meta_at = read_be32(c, 12) as usize;
    let packed_at = read_be32(c, 16) as usize;
    let planar_len = read_be32(c, 20) as usize;
    if table_at <= start_at && start_at <= meta_at && meta_at <= packed_at && packed_at <= c.len() {
        Some((table_at, start_at, meta_at, packed_at, planar_len))
    } else {
        None
    }
}

/// Rebuilds the raw file from the compact file `slpz` and the planar buffer
/// `planar` that its compressed section decompressed to.
pub fn rebuild_raw(slpz: &[u8], planar: &[u8]) -> (r: Result<Vec<u8>, DecompError>)
    ensures
        r is Ok <==> compact_valid(slpz@) && rebuilt(slpz@, planar@) is Some,
        r matches Ok(raw) ==> rebuilt(slpz@, planar@) == Some(raw@),
        r matches Err(err) ==> err == DecompError::InvalidFile,
{
    let (table_at, start_at, meta_at, packed_at, _) = match read_layout(slpz) {
        Some(layout) => layout,
        None => return Err(DecompError::InvalidFile),
    };
    let table = &slpz[table_at..start_at];
    let (sizes, _) = match event_sizes(table) {
        Some(t) => t,
        None => return Err(DecompError::InvalidFile),
    };
    let mut events: Vec<u8> = Vec::new();
    match unorder_events(planar, &sizes, &mut events) {
        Ok(_) => {},
        Err(err) => return Err(err),
    }
    let body = meta_at - table_at;
    if events.len() > 0xffff_ffff - body {
        return Err(DecompError::InvalidFile);
    }
    let mut raw: Vec<u8> = Vec::new();
    push_raw_magic(&mut raw);
    push_be32(&mut raw, (body + events.len()) as u32);
    push_range(&mut raw, slpz, table_at, start_at);
    push_range(&mut raw, slpz, start_at, meta_at);
    push_range(&mut raw, events.as_slice(), 0, events.len());
    push_range(&mut raw, slpz, meta_at, packed_at);
    proof {
        assert(events@ =~= Seq::<u8>::empty() + events@);
        assert(raw@ =~= rebuilt(slpz@, planar@).unwrap());
    }
    Ok(raw)
}

/// Decompresses the compact file `slpz` to the raw file it was made from.
/// Fails with `InvalidFile` before any decompression where the header, its
/// version, the section offsets or the size table are not valid; with
/// `DecompressionFailure` where the compressed section is no zstd frame;
/// with `InvalidFile` where the planar buffer it holds does not rebuild.
pub fn decompress(decompressor: &mut Decompressor, slpz: &[u8]) -> (r: Result<Vec<u8>, DecompError>)
    ensures
        !compact_valid(slpz@) ==> r == Err::<Vec<u8>, DecompError>(DecompError::InvalidFile),
        compact_valid(slpz@) ==> match frame_content(slpz@.skip(compact_packed_from(slpz@))) {
            None => r == Err::<Vec<u8>, DecompError>(DecompError::DecompressionFailure),
            Some(p) => p.len() <= compact_planar_len(slpz@) ==> match rebuilt(slpz@, p) {
                Some(raw) => r matches Ok(out) && out@ == raw,
                None => r == Err::<Vec<u8>, DecompError>(DecompError::InvalidFile),
            },
        },
        r matches Ok(out) ==> compact_valid(slpz@) && (frame_content(
            slpz@.skip(compact_packed_from(slpz@)),
        ) matches Some(p) && rebuilt(slpz@, p) == Some(out@)),
        r matches Err(err) && err == DecompError::DecompressionFailure ==> compact_valid(slpz@),
{
    let (table_at, start_at, _, packed_at, planar_len) = match read_layout(slpz) {
        Some(layout) => layout,
        None => return Err(DecompError::InvalidFile),
    };
    match event_sizes(&slpz[table_at..start_at]) {
        Some(_) => {},
        None => return Err(DecompError::InvalidFile),
    }
    let packed = &slpz[packed_at..slpz.len()];
    proof {
        assert(packed@ == slpz@.skip(packed_at as int));
    }
    let planar = match zstd_decompress(&mut decompressor.ctx, packed, planar_len) {
        Some(planar) => planar,
        None => return Err(DecompError::DecompressionFailure),
    };
    rebuild_raw(slpz, planar.as_slice())
}

} // verus!
