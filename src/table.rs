//! The self-describing table that gives each command byte its payload length.

use vstd::prelude::*;
use crate::bytes::{be16_value, read_be16};

verus! {

/// Number of 3-byte entries that the record's length byte `e[1]` declares.
pub open spec fn declared_entries(e: Seq<u8>) -> int {
    (e[1] as int - 1) / 3
}

/// The table record at the start of `e` can be read: its length byte is
/// there and not 0, and neither the declared length nor the entries run past
/// the end of `e`.
pub open spec fn table_readable(e: Seq<u8>) -> bool {
    &&& e.len() >= 2
    &&& e[1] >= 1
    &&& e.len() >= e[1]
    &&& e.len() >= 2 + 3 * declared_entries(e)
}

/// The table after the first `k` entries of the record at the start of `e`:
/// all sizes 0, then each entry sets its command's size, later entries
/// overriding earlier ones.
pub open spec fn table_after(e: Seq<u8>, k: int) -> Seq<u16>
    decreases k,
{
    if k <= 0 {
        Seq::new(256, |c: int| 0u16)
    } else {
        let at = 2 + 3 * (k - 1);
        table_after(e, k - 1).update(e[at] as int, be16_value(e[at + 1], e[at + 2]) as u16)
    }
}

/// The size table declared by the record at the start of `e`.
pub open spec fn table_of(e: Seq<u8>) -> Seq<u16> {
    table_after(e, declared_entries(e))
}

pub proof fn lemma_table_after_len(e: Seq<u8>, k: int)
    ensures
        table_after(e, k).len() == 256,
    decreases k,
{
    if k > 0 {
        lemma_table_after_len(e, k - 1);
    }
}

/// Reads the size-table record at the start of `events` (its tag byte, its
/// length byte, then 3-byte entries of a command byte and a big-endian size).
/// Returns the 256 sizes and the number of entries, or `None` where the record
/// cannot be read.
pub fn event_sizes(events: &[u8]) -> (r: Option<([u16; 256], usize)>)
    ensures
        r is Some <==> table_readable(events@),
        r matches Some((sizes, count)) ==> {
            &&& count == declared_entries(events@)
            &&& sizes@ == table_of(events@)
        },
{
    if events.len() < 2 {
        return None;
    }
    let info_size = events[1] as usize;
    if info_size == 0 {
        return None;
    }
    let event_count = (info_size - 1) / 3;
    if events.len() < info_size || events.len() < 2 + 3 * event_count {
        return None;
    }
    let mut event_payload_sizes = [0u16; 256];
    proof {
        assert(event_payload_sizes@ =~= table_after(events@, 0));
    }
    let mut i: usize = 0;
    while i < event_count
        invariant
            i <= event_count,
            event_count == declared_entries(events@),
            2 + 3 * event_count <= events@.len(),
            event_payload_sizes@ == table_after(events@, i as int),
        decreases event_count - i,
    {
        let offset = i * 3 + 2;
        let command_byte = events[offset] as usize;
        let payload_size = read_be16(events, offset + 1);
        proof {
            lemma_table_after_len(events@, i as int);
        }
        event_payload_sizes[command_byte] = payload_size;
        i = i + 1;
    }
    Some((event_payload_sizes, event_count))
}

/// The table depends only on the length byte and the entries, so a copy of
/// the record's first bytes declares the same table.
pub proof fn lemma_table_same_record(a: Seq<u8>, b: Seq<u8>, m: int, k: int)
    requires
        2 <= m <= a.len(),
        m <= b.len(),
        a.take(m) == b.take(m),
        0 <= k,
        2 + 3 * k <= m,
    ensures
        table_after(a, k) == table_after(b, k),
    decreases k,
{
    if k > 0 {
        lemma_table_same_record(a, b, m, k - 1);
        let at = 2 + 3 * (k - 1);
        assert(a[at] == a.take(m)[at]);
        assert(a[at + 1] == a.take(m)[at + 1]);
        assert(a[at + 2] == a.take(m)[at + 2]);
        assert(b[at] == b.take(m)[at]);
        assert(b[at + 1] == b.take(m)[at + 1]);
        assert(b[at + 2] == b.take(m)[at + 2]);
    }
}

} // verus!
