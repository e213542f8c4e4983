//! Properties that relate several operations of the codec.

use vstd::prelude::*;
use crate::backend::frame_content;
use crate::bytes::{
    be32_bytes, be32_value, lemma_be32_bytes_of_value, lemma_be32_round_trip, lemma_be32_same_bytes,
};
use crate::format::{
    compact_meta_at, compact_metadata_at, compact_packed_at, compact_packed_from, compact_planar_len,
    compact_prefix, compact_start_at, compact_table, compact_table_at, compact_valid,
    compact_version, raw_events, raw_events_at, raw_magic, raw_metadata_at, raw_sizes,
    raw_start_at, raw_table_len, raw_table_tail, raw_valid, rebuilt, rebuilt_body_len,
};
use crate::transpose::resumed;
use crate::table::{declared_entries, lemma_table_after_len, lemma_table_same_record, table_of};
use crate::stream::{
    commands, gather, is_event_stream, is_reordering, is_table, lemma_commands_concat,
    lemma_payload_sum_concat, lemma_payload_sum_nonneg, lemma_pos_in_region, lemma_scan_bounds,
    lemma_scan_step, order_list, payload_sum, planar_consistent, planar_data, planar_len,
    planar_pos, scan_from, stored_count, unordered, lemma_planar_len_regroups,
};

verus! {

/// Each record found from `i` starts right after the whole records before it.
proof fn lemma_scan_positions(e: Seq<u8>, sz: Seq<u16>, i: int, t: Seq<int>)
    requires
        0 <= i,
        scan_from(e, sz, i) == Some(t),
    ensures
        forall|k: int|
            0 <= k < t.len() ==> #[trigger] t[k] == i + k + payload_sum(sz, commands(e, t).take(k)),
    decreases e.len() - i,
{
    if i < e.len() {
        lemma_scan_step(e, sz, i, t);
        let x = e[i];
        let next = i + 1 + sz[x as int];
        let rest = t.drop_first();
        if next < e.len() {
            lemma_scan_positions(e, sz, next, rest);
        }
        assert forall|k: int| 0 <= k < t.len() implies #[trigger] t[k] == i + k + payload_sum(
            sz,
            commands(e, t).take(k),
        ) by {
            if k == 0 {
                assert(commands(e, t).take(0) =~= Seq::<u8>::empty());
            } else {
                assert(t[k] == rest[k - 1]);
                assert(commands(e, t).take(k) =~= seq![x] + commands(e, rest).take(k - 1));
                lemma_payload_sum_concat(sz, seq![x], commands(e, rest).take(k - 1));
                assert(seq![x].drop_last() =~= Seq::<u8>::empty());
                assert(payload_sum(sz, Seq::<u8>::empty()) == 0);
            }
        }
    }
}

/// The prefix sums of payload sizes never pass the total.
proof fn lemma_payload_sum_prefix(sz: Seq<u16>, cs: Seq<u8>, k: int)
    requires
        0 <= k <= cs.len(),
    ensures
        0 <= payload_sum(sz, cs.take(k)) <= payload_sum(sz, cs),
{
    lemma_payload_sum_concat(sz, cs.take(k), cs.skip(k));
    assert(cs.take(k) + cs.skip(k) =~= cs);
    lemma_payload_sum_nonneg(sz, cs.skip(k));
    lemma_payload_sum_nonneg(sz, cs.take(k));
}

/// Gathering the first `k` records back from planar data that holds each
/// payload byte of `e` at its planar offset gives the bytes of `e` that those
/// records span.
#[verifier::rlimit(40)]
proof fn lemma_gather_prefix(
    e: Seq<u8>,
    sz: Seq<u16>,
    s: Seq<int>,
    cs: Seq<u8>,
    p: Seq<u8>,
    k: int,
)
    requires
        is_table(sz),
        cs.len() == s.len(),
        forall|q: int| 0 <= q < s.len() ==> #[trigger] cs[q] == e[s[q]],
        s.len() + payload_sum(sz, cs) == e.len(),
        forall|q: int| 0 <= q < s.len() ==> #[trigger] s[q] == q + payload_sum(sz, cs.take(q)),
        forall|q: int, j: int|
            0 <= q < s.len() && 0 <= j < sz[cs[q] as int] ==> p[#[trigger] planar_pos(sz, cs, q, j)]
                == e[s[q] + 1 + j],
        0 <= k <= s.len(),
    ensures
        gather(sz, cs, p, k) == e.take(k + payload_sum(sz, cs.take(k))),
    decreases k,
{
    if k == 0 {
        assert(cs.take(0) =~= Seq::<u8>::empty());
        assert(e.take(0) =~= Seq::<u8>::empty());
    } else {
        let q = k - 1;
        lemma_gather_prefix(e, sz, s, cs, p, q);
        let at = s[q];
        let size = sz[cs[q] as int] as int;
        assert(cs.take(k).drop_last() =~= cs.take(q));
        assert(payload_sum(sz, cs.take(k)) == payload_sum(sz, cs.take(q)) + size);
        lemma_payload_sum_prefix(sz, cs, k);
        lemma_payload_sum_prefix(sz, cs, q);
        assert(0 <= at);
        assert(at + 1 + size <= e.len());
        let tail = Seq::new(size as nat, |j: int| p[planar_pos(sz, cs, q, j)]);
        assert(gather(sz, cs, p, k) == gather(sz, cs, p, q) + seq![cs[q]] + tail);
        assert forall|j: int| 0 <= j < size implies #[trigger] tail[j] == e.subrange(
            at + 1,
            at + 1 + size,
        )[j] by {
            assert(tail[j] == p[planar_pos(sz, cs, q, j)]);
        }
        assert(tail =~= e.subrange(at + 1, at + 1 + size));
        assert(cs[q] == e[at]);
        lemma_take_extend(e, at, size);
    }
}

proof fn lemma_take_extend(e: Seq<u8>, at: int, size: int)
    requires
        0 <= at,
        0 <= size,
        at + 1 + size <= e.len(),
    ensures
        e.take(at) + seq![e[at]] + e.subrange(at + 1, at + 1 + size) == e.take(at + 1 + size),
{
    assert(e.take(at) + seq![e[at]] + e.subrange(at + 1, at + 1 + size) =~= e.take(at + 1 + size));
}

/// Transposing an event stream into its planar buffer and gathering it back
/// gives the stream again: the buffer is consistent with the size table, and
/// the stream that it encodes is the one it was made from.
pub proof fn transpose_round_trip(e: Seq<u8>, sz: Seq<u16>, r: Seq<u8>)
    requires
        is_table(sz),
        e.len() <= u32::MAX,
        is_event_stream(e, sz),
        is_reordering(e, sz, r),
    ensures
        r.len() == 4 + e.len(),
        planar_consistent(r, sz),
        unordered(r, sz) == e,
{
    let s = scan_from(e, sz, 0).unwrap();
    let cs = commands(e, s);
    let n = s.len() as int;
    lemma_scan_bounds(e, sz, 0, s);
    crate::stream::lemma_base_mono(sz, cs, 0, 256);
    lemma_be32_round_trip(n);
    assert(be32_bytes(n).subrange(0, 4) =~= be32_bytes(n));
    assert(r.take(4) =~= r.subrange(0, 4));
    lemma_be32_same_bytes(r, 0, be32_bytes(n), 0);
    assert(stored_count(r) == n);
    assert(order_list(r) == cs);
    lemma_planar_len_regroups(sz, cs);
    lemma_scan_positions(e, sz, 0, s);
    assert forall|q: int| 0 <= q < s.len() implies #[trigger] s[q] == q + payload_sum(
        sz,
        cs.take(q),
    ) by {
        assert(commands(e, s).take(q) == cs.take(q));
    }
    let p = r.skip(4 + n);
    assert forall|q: int, j: int|
        0 <= q < s.len() && 0 <= j < sz[cs[q] as int] implies p[#[trigger] planar_pos(
        sz,
        cs,
        q,
        j,
    )] == e[s[q] + 1 + j] by {
        lemma_pos_in_region(sz, cs, q, j);
    }
    lemma_gather_prefix(e, sz, s, cs, p, n);
    assert(cs.take(n) =~= cs);
    assert(e.take(e.len() as int) =~= e);
}

/// A header field holds the value whose bytes were written there.
proof fn lemma_field(c: Seq<u8>, i: int, v: int)
    requires
        0 <= i,
        i + 4 <= c.len(),
        0 <= v <= u32::MAX,
        c.subrange(i, i + 4) == be32_bytes(v),
    ensures
        be32_value(c, i) == v,
{
    lemma_be32_round_trip(v);
    assert(be32_bytes(v).subrange(0, 4) =~= be32_bytes(v));
    lemma_be32_same_bytes(c, i, be32_bytes(v), 0);
}

/// The copy of the size-table record in the compact file reads as the same
/// table.
proof fn lemma_table_copy(s: Seq<u8>)
    requires
        raw_valid(s),
    ensures
        crate::table::table_readable(s.subrange(15, raw_start_at(s))),
        table_of(s.subrange(15, raw_start_at(s))) == raw_sizes(s),
{
    let tail = raw_table_tail(s);
    let copy = s.subrange(15, raw_start_at(s));
    let info = s[16] as int;
    assert(tail[1] == info);
    assert(copy[1] == info);
    let k = declared_entries(tail);
    assert(declared_entries(copy) == k);
    assert(copy.take(copy.len() as int) =~= tail.take(copy.len() as int));
    lemma_table_same_record(copy, tail, copy.len() as int, k);
}

/// Decoding the compact file that encoding gives returns the raw file. For a
/// raw file `s` that the codec encodes, `compress` yields `compact_prefix(s)`
/// followed by a frame `packed` whose content is the planar buffer of the
/// events. Decoding that file then finds a valid header, reads the frame at
/// its compressed-section offset, finds its content within the stored planar
/// length, and rebuilds exactly `s` from it; so `decompress` returns `s`.
#[verifier::rlimit(80)]
pub proof fn container_round_trip(s: Seq<u8>, planar: Seq<u8>, packed: Seq<u8>)
    requires
        raw_valid(s),
        frame_content(packed) == Some(planar),
        is_reordering(raw_events(s), raw_sizes(s), planar),
    ensures
        compact_valid(compact_prefix(s) + packed),
        compact_packed_from(compact_prefix(s) + packed) == compact_prefix(s).len(),
        (compact_prefix(s) + packed).skip(compact_prefix(s).len() as int) == packed,
        frame_content(
            (compact_prefix(s) + packed).skip(compact_packed_from(compact_prefix(s) + packed)),
        ) == Some(planar),
        planar.len() <= compact_planar_len(compact_prefix(s) + packed),
        rebuilt(compact_prefix(s) + packed, planar) == Some(s),
{
    let pre = compact_prefix(s);
    let c = pre + packed;
    let tl = raw_table_len(s);
    let st = raw_start_at(s);
    let ev = raw_events_at(s);
    let md = raw_metadata_at(s);
    let v3 = compact_metadata_at(s);
    let v4 = compact_packed_at(s);
    let events = raw_events(s);
    let el = events.len() as int;
    let sz = raw_sizes(s);
    lemma_be32_bytes_of_value(s, 11);
    assert(pre.len() == v4);
    assert(c.subrange(0, 4) =~= be32_bytes(0));
    assert(c.subrange(4, 8) =~= be32_bytes(24));
    assert(c.subrange(8, 12) =~= be32_bytes(24 + tl));
    assert(c.subrange(12, 16) =~= be32_bytes(v3));
    assert(c.subrange(16, 20) =~= be32_bytes(v4));
    assert(c.subrange(20, 24) =~= be32_bytes(4 + el));
    lemma_field(c, 0, 0);
    lemma_field(c, 4, 24);
    lemma_field(c, 8, 24 + tl);
    lemma_field(c, 12, v3);
    lemma_field(c, 16, v4);
    lemma_field(c, 20, 4 + el);
    assert(compact_version(c) == 0);
    assert(compact_table_at(c) == 24);
    assert(compact_start_at(c) == 24 + tl);
    assert(compact_meta_at(c) == v3);
    assert(compact_packed_from(c) == v4);
    assert(c.subrange(24, 24 + tl) =~= s.subrange(15, st));
    assert(c.subrange(24 + tl, v3) =~= s.subrange(st, ev));
    assert(c.subrange(v3, v4) =~= s.skip(md));
    assert(c.skip(v4) =~= packed);
    lemma_table_copy(s);
    assert(compact_table(c) == s.subrange(15, st));
    lemma_table_after_len(raw_table_tail(s), declared_entries(raw_table_tail(s)));
    transpose_round_trip(events, sz, planar);
    let sc = scan_from(events, sz, 0).unwrap();
    lemma_planar_len_regroups(sz, commands(events, sc));
    assert(planar.len() == 4 + el);
    assert(rebuilt_body_len(c, planar) == md - 15);
    assert(raw_magic() + be32_bytes(md - 15) + s.subrange(15, st) + s.subrange(st, ev) + events
        + s.skip(md) =~= s);
}

/// Whole records that fill `e` from `j` up to `i` are found by the scan of
/// all of `e` too, before whatever the scan finds from `i`.
proof fn lemma_scan_prefix(e: Seq<u8>, sz: Seq<u16>, i: int, j: int, t: Seq<int>)
    requires
        0 <= j <= i <= e.len(),
        scan_from(e.take(i), sz, j) == Some(t),
        j + t.len() + payload_sum(sz, commands(e.take(i), t)) == i,
    ensures
        scan_from(e, sz, j) == resumed(t, scan_from(e, sz, i)),
    decreases i - j,
{
    let head = e.take(i);
    if j == i {
        assert(t.len() == 0);
        match scan_from(e, sz, i) {
            Some(u) => {
                assert(t + u =~= u);
            },
            None => {},
        }
    } else {
        lemma_scan_step(head, sz, j, t);
        let x = e[j];
        assert(head[j] == x);
        let next = j + 1 + sz[x as int];
        let rest = t.drop_first();
        assert(t =~= seq![j] + rest);
        lemma_commands_concat(head, seq![j], rest);
        assert(commands(head, seq![j]) =~= seq![x]);
        lemma_payload_sum_concat(sz, seq![x], commands(head, rest));
        assert(seq![x].drop_last() =~= Seq::<u8>::empty());
        assert(payload_sum(sz, Seq::<u8>::empty()) == 0);
        lemma_payload_sum_nonneg(sz, commands(head, rest));
        assert(next + rest.len() + payload_sum(sz, commands(head, rest)) == i);
        lemma_scan_prefix(e, sz, i, next, rest);
        if next >= e.len() {
            assert(rest.len() == 0);
            assert(seq![j] =~= t);
        } else {
            match scan_from(e, sz, i) {
                Some(u) => {
                    assert(seq![j] + (rest + u) =~= t + u);
                },
                None => {},
            }
        }
    }
}

/// A stream that runs into a command of size 0 after whole records is no
/// event stream: the planar transpose rejects it.
pub proof fn zero_size_command_rejected(e: Seq<u8>, sz: Seq<u16>, i: int)
    requires
        is_table(sz),
        0 <= i < e.len(),
        is_event_stream(e.take(i), sz),
        sz[e[i] as int] == 0,
    ensures
        !is_event_stream(e, sz),
{
    let t = scan_from(e.take(i), sz, 0).unwrap();
    lemma_scan_prefix(e, sz, i, 0, t);
    crate::stream::lemma_scan_zero(e, sz, i);
}

} // verus!
