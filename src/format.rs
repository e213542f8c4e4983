//! The two container layouts: where each section of a raw file lies, and the
//! bytes of the compact file's uncompressed part.

use vstd::prelude::*;
use crate::bytes::{be32_bytes, be32_value};
use crate::stream::{is_event_stream, planar_consistent, unordered};
use crate::table::{declared_entries, table_of, table_readable};

verus! {

/// Tag byte of the size-table record.
pub const EVENT_PAYLOADS: u8 = 0x35;

/// Tag byte of the fixed header record that follows the size table.
pub const GAME_START: u8 = 0x36;

/// The newest compact-format version that this library writes and reads.
pub const VERSION: u32 = 0;

/// Length of the compact file's header: a version and five offsets.
pub const COMPACT_HEADER_LEN: usize = 24;

/// The eleven bytes that open every raw file.
pub open spec fn raw_magic() -> Seq<u8> {
    seq![0x7Bu8, 0x55u8, 0x03u8, 0x72u8, 0x61u8, 0x77u8, 0x5Bu8, 0x24u8, 0x55u8, 0x23u8, 0x6Cu8]
}

/// Whether `s` opens with the raw magic.
pub fn has_raw_magic(s: &[u8]) -> (r: bool)
    requires
        s@.len() >= 11,
    ensures
        r == (s@.take(11) == raw_magic()),
{
    let r = s[0] == 0x7B && s[1] == 0x55 && s[2] == 0x03 && s[3] == 0x72 && s[4] == 0x61 && s[5]
        == 0x77 && s[6] == 0x5B && s[7] == 0x24 && s[8] == 0x55 && s[9] == 0x23 && s[10] == 0x6C;
    proof {
        if r {
            assert(s@.take(11) =~= raw_magic());
        } else {
            assert(exists|i: int| 0 <= i < 11 && s@[i] != raw_magic()[i]);
            if s@.take(11) == raw_magic() {
                let i = choose|i: int| 0 <= i < 11 && s@[i] != raw_magic()[i];
                assert(s@.take(11)[i] == s@[i]);
            }
        }
    }
    r
}

/// Appends the raw magic.
pub fn push_raw_magic(out: &mut Vec<u8>)
    ensures
        final(out)@ == old(out)@ + raw_magic(),
{
    out.push(0x7B);
    out.push(0x55);
    out.push(0x03);
    out.push(0x72);
    out.push(0x61);
    out.push(0x77);
    out.push(0x5B);
    out.push(0x24);
    out.push(0x55);
    out.push(0x23);
    out.push(0x6C);
    assert(out@ =~= old(out)@ + raw_magic());
}

// Sections of a raw file `s`.

/// The size-table record and everything after it.
pub open spec fn raw_table_tail(s: Seq<u8>) -> Seq<u8> {
    s.skip(15)
}

/// The event-size table that a raw file declares.
pub open spec fn raw_sizes(s: Seq<u8>) -> Seq<u16> {
    table_of(raw_table_tail(s))
}

/// Length of the size-table record as the codec copies it: tag, length
/// byte, and the declared entries.
pub open spec fn raw_table_len(s: Seq<u8>) -> int {
    2 + 3 * declared_entries(raw_table_tail(s))
}

/// Where the fixed header record starts.
pub open spec fn raw_start_at(s: Seq<u8>) -> int {
    15 + raw_table_len(s)
}

/// Length of the fixed header record: its tag and its declared payload.
pub open spec fn raw_start_len(s: Seq<u8>) -> int {
    raw_sizes(s)[GAME_START as int] + 1
}

/// Where the bulk event stream starts.
pub open spec fn raw_events_at(s: Seq<u8>) -> int {
    raw_start_at(s) + raw_start_len(s)
}

/// Where the metadata starts: after the length that bytes 11..15 declare.
pub open spec fn raw_metadata_at(s: Seq<u8>) -> int {
    15 + be32_value(s, 11)
}

/// The bulk event stream.
pub open spec fn raw_events(s: Seq<u8>) -> Seq<u8> {
    s.subrange(raw_events_at(s), raw_metadata_at(s))
}

/// Offset of the metadata section in the compact file.
pub open spec fn compact_metadata_at(s: Seq<u8>) -> int {
    24 + raw_table_len(s) + raw_start_len(s)
}

/// Offset of the compressed section in the compact file.
pub open spec fn compact_packed_at(s: Seq<u8>) -> int {
    compact_metadata_at(s) + (s.len() - raw_metadata_at(s))
}

/// `s` is a raw file that the codec can encode: the magic, the size-table
/// record and the fixed header record are where they belong and complete,
/// the size-table record's length byte counts no byte past its last whole
/// entry (so the copied record reads back alone), the declared length ends
/// between the header record and the end of the file, the bytes in between
/// are whole event records, and every offset and size of the compact file
/// fits in 32 bits.
pub open spec fn raw_valid(s: Seq<u8>) -> bool {
    &&& s.len() >= 16
    &&& s.take(11) == raw_magic()
    &&& s[15] == EVENT_PAYLOADS
    &&& table_readable(raw_table_tail(s))
    &&& s[16] <= raw_table_len(s)
    &&& raw_events_at(s) <= s.len()
    &&& s[raw_start_at(s)] == GAME_START
    &&& raw_events_at(s) <= raw_metadata_at(s) <= s.len()
    &&& is_event_stream(raw_events(s), raw_sizes(s))
    &&& compact_packed_at(s) <= u32::MAX
    &&& 4 + raw_events(s).len() <= u32::MAX
}

/// The uncompressed part of the compact file for the raw file `s`: version,
/// the offsets of the table, header-record, metadata and compressed sections,
/// the planar buffer's length, then the table, header record and metadata.
pub open spec fn compact_prefix(s: Seq<u8>) -> Seq<u8> {
    be32_bytes(VERSION as int) + be32_bytes(24) + be32_bytes(24 + raw_table_len(s)) + be32_bytes(
        compact_metadata_at(s),
    ) + be32_bytes(compact_packed_at(s)) + be32_bytes(4 + raw_events(s).len() as int) + s.subrange(
        15,
        raw_start_at(s),
    ) + s.subrange(raw_start_at(s), raw_events_at(s)) + s.skip(raw_metadata_at(s))
}

// Sections of a compact file `c`.

/// The version field.
pub open spec fn compact_version(c: Seq<u8>) -> int {
    be32_value(c, 0)
}

/// Offset of the size-table section.
pub open spec fn compact_table_at(c: Seq<u8>) -> int {
    be32_value(c, 4)
}

/// Offset of the fixed header record section.
pub open spec fn compact_start_at(c: Seq<u8>) -> int {
    be32_value(c, 8)
}

/// Offset of the metadata section.
pub open spec fn compact_meta_at(c: Seq<u8>) -> int {
    be32_value(c, 12)
}

/// Offset of the compressed section.
pub open spec fn compact_packed_from(c: Seq<u8>) -> int {
    be32_value(c, 16)
}

/// Length of the planar buffer before compression.
pub open spec fn compact_planar_len(c: Seq<u8>) -> int {
    be32_value(c, 20)
}

/// The size-table section.
pub open spec fn compact_table(c: Seq<u8>) -> Seq<u8> {
    c.subrange(compact_table_at(c), compact_start_at(c))
}

/// The header of `c` is there, its version is one this library knows, and
/// its sections lie in order inside the file.
pub open spec fn compact_header_valid(c: Seq<u8>) -> bool {
    &&& c.len() >= 24
    &&& compact_version(c) <= VERSION
    &&& compact_table_at(c) <= compact_start_at(c) <= compact_meta_at(c) <= compact_packed_from(c)
        <= c.len()
}

/// `c` can be decoded up to its compressed section: a valid header, and a
/// size table that can be read.
pub open spec fn compact_valid(c: Seq<u8>) -> bool {
    &&& compact_header_valid(c)
    &&& table_readable(compact_table(c))
}

/// Length of the raw file's declared section for the compact file `c` whose
/// planar buffer is `p`: size table, header record and events.
pub open spec fn rebuilt_body_len(c: Seq<u8>, p: Seq<u8>) -> int {
    (compact_meta_at(c) - compact_table_at(c)) + (p.len() - 4)
}

/// The raw file rebuilt from the compact file `c` and its planar buffer `p`,
/// once decompressed; `None` where `p` does not fit the size table or the
/// raw file could not declare its length in 32 bits.
pub open spec fn rebuilt(c: Seq<u8>, p: Seq<u8>) -> Option<Seq<u8>> {
    let sz = table_of(compact_table(c));
    if planar_consistent(p, sz) && rebuilt_body_len(c, p) <= u32::MAX {
        Some(
            raw_magic() + be32_bytes(rebuilt_body_len(c, p)) + compact_table(c) + c.subrange(
                compact_start_at(c),
                compact_meta_at(c),
            ) + unordered(p, sz) + c.subrange(compact_meta_at(c), compact_packed_from(c)),
        )
    } else {
        None
    }
}

} // verus!
