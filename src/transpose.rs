//! The planar transpose: event records in stream order to byte planes grouped
//! by command, and back.

use vstd::prelude::*;
use crate::bytes::{be32_bytes, push_be32, read_be32};
use crate::error::{CompError, DecompError};
use crate::stream::{
    is_table, commands, count_in, gather, is_event_stream, is_reordering, lemma_commands_concat,
    lemma_count_le_len, lemma_count_push, lemma_count_take_step, lemma_payload_sum_concat,
    lemma_payload_sum_nonneg, lemma_planar_len_regroups, lemma_pos_distinct, lemma_pos_in_region,
    lemma_gather_len, lemma_scan_bounds, lemma_scan_step, lemma_scan_zero, order_list, payload_sum, planar_base,
    planar_consistent, planar_data, planar_len, planar_pos, rank, scan_from, stored_count,
    unordered,
};

verus! {

/// The scan state `rest` (what a scan from the current position gives) seen
/// from the start, when the records `done` came before it.
pub open spec fn resumed(done: Seq<int>, rest: Option<Seq<int>>) -> Option<Seq<int>> {
    match rest {
        Some(t) => Some(done + t),
        None => None,
    }
}

/// Counts the records of each command in `events`, scanning record by record.
/// Fails where the scan meets a command whose size is 0.
pub fn event_counts(events: &[u8], event_sizes: &[u16; 256]) -> (r: Result<[u32; 256], CompError>)
    requires
        events@.len() <= u32::MAX,
    ensures
        r is Ok <==> scan_from(events@, event_sizes@, 0) is Some,
        r matches Ok(counts) ==> forall|c: int|
            0 <= c < 256 ==> #[trigger] counts@[c] == count_in(
                commands(events@, scan_from(events@, event_sizes@, 0).unwrap()),
                c as u8,
            ),
        r matches Err(err) ==> err == CompError::InvalidFile,
{
    let ghost e = events@;
    let ghost sz = event_sizes@;
    let mut counts = [0u32; 256];
    let ghost mut done: Seq<int> = Seq::empty();
    let mut i: usize = 0;
    proof {
        assert(done + scan_from(e, sz, 0).unwrap() =~= scan_from(e, sz, 0).unwrap());
        assert(counts@ =~= Seq::new(256, |c: int| 0u32));
    }
    while i < events.len()
        invariant
            e == events@,
            sz == event_sizes@,
            e.len() <= u32::MAX,
            i <= e.len(),
            done.len() <= i,
            scan_from(e, sz, 0) == resumed(done, scan_from(e, sz, i as int)),
            forall|c: int| 0 <= c < 256 ==> #[trigger] counts@[c] == count_in(commands(e, done), c as u8),
        decreases e.len() - i,
    {
        let event = events[i] as usize;
        let event_size = event_sizes[event] as usize;
        if event_size == 0 {
            proof {
                lemma_scan_zero(e, sz, i as int);
            }
            return Err(CompError::InvalidFile);
        }
        proof {
            lemma_count_le_len(commands(e, done), event as u8);
            assert(commands(e, done.push(i as int)) =~= commands(e, done).push(e[i as int]));
            assert forall|c: int| 0 <= c < 256 implies #[trigger] count_in(commands(e, done.push(i as int)), c as u8)
                == count_in(commands(e, done), c as u8) + if c == event {
                1int
            } else {
                0int
            } by {
                lemma_count_push(commands(e, done), e[i as int], c as u8);
            }
        }
        counts[event] = counts[event] + 1;
        let ghost at = i as int;
        let ghost next = at + 1 + event_size;
        if event_size >= events.len() - i - 1 {
            i = events.len();
        } else {
            i = i + 1 + event_size;
        }
        proof {
            if next < e.len() {
                match scan_from(e, sz, next) {
                    Some(rest) => {
                        assert(done + (seq![at] + rest) =~= done.push(at) + rest);
                    },
                    None => {},
                }
            } else {
                assert(done + seq![at] =~= done.push(at) + Seq::<int>::empty());
            }
            done = done.push(at);
        }
    }
    Ok(counts)
}

/// Where each command's region starts in the planar data, how long the planar
/// data is, and how many records there are, for the records `cs` whose
/// per-command counts are `counts`. Every command byte gets its slot, 255
/// included, by one loop over all 256 of them.
fn planar_offsets(event_sizes: &[u16; 256], counts: &[u32; 256], Ghost(cs): Ghost<Seq<u8>>) -> (r: (
    [u64; 256],
    u64,
    u64,
))
    requires
        cs.len() <= u32::MAX,
        forall|c: int| 0 <= c < 256 ==> #[trigger] counts@[c] == count_in(cs, c as u8),
    ensures
        forall|c: int| 0 <= c < 256 ==> #[trigger] r.0@[c] == planar_base(event_sizes@, cs, c),
        r.1 == planar_len(event_sizes@, cs),
        r.2 == cs.len(),
{
    let ghost sz = event_sizes@;
    let mut offsets = [0u64; 256];
    let mut running: u64 = 0;
    let mut total: u64 = 0;
    let mut c: usize = 0;
    while c < 256
        invariant
            sz == event_sizes@,
            cs.len() <= u32::MAX,
            forall|d: int| 0 <= d < 256 ==> #[trigger] counts@[d] == count_in(cs, d as u8),
            c <= 256,
            running == planar_base(sz, cs, c as int),
            total == crate::stream::count_below(cs, c as int),
            running <= c * 0x1_0000_0000_0000,
            total <= c * 0x1_0000_0000,
            forall|d: int| 0 <= d < c ==> #[trigger] offsets@[d] == planar_base(sz, cs, d),
        decreases 256 - c,
    {
        offsets[c] = running;
        let size = event_sizes[c] as u64;
        let count = counts[c] as u64;
        assert(size * count <= 0x1_0000_0000_0000) by (nonlinear_arith)
            requires
                size <= 0xffff,
                count <= 0xffff_ffff,
        ;
        assert(((c + 1) - 1) as u8 == c as u8);
        running = running + size * count;
        total = total + count;
        c = c + 1;
    }
    proof {
        lemma_planar_len_regroups(sz, cs);
    }
    (offsets, running, total)
}

/// Writes the planar buffer of `events` at the end of `buf`: the record count
/// as a big-endian 32-bit integer, the command bytes in stream order, then for
/// each command in ascending order its payload bytes plane by plane, so that
/// byte `j` of the command's `r`-th record sits at `j * count + r` in its
/// region. Fails, leaving `buf` as it was, unless `events` splits into whole
/// records of commands with a size. Returns the number of bytes written.
pub fn reorder_events(events: &[u8], event_sizes: &[u16; 256], buf: &mut Vec<u8>) -> (r: Result<
    usize,
    CompError,
>)
    requires
        events@.len() <= u32::MAX,
        old(buf)@.len() + 4 + events@.len() <= usize::MAX,
    ensures
        r is Ok <==> is_event_stream(events@, event_sizes@),
        r matches Ok(w) ==> {
            &&& w == 4 + events@.len()
            &&& final(buf)@.len() == old(buf)@.len() + w
            &&& final(buf)@.take(old(buf)@.len() as int) == old(buf)@
            &&& is_reordering(events@, event_sizes@, final(buf)@.skip(old(buf)@.len() as int))
        },
        r matches Err(err) ==> err == CompError::InvalidFile && final(buf)@ == old(buf)@,
{
    let ghost e = events@;
    let ghost sz = event_sizes@;
    let counts = match event_counts(events, event_sizes) {
        Ok(counts) => counts,
        Err(err) => return Err(err),
    };
    let ghost s = scan_from(e, sz, 0).unwrap();
    let ghost cs = commands(e, s);
    proof {
        lemma_scan_bounds(e, sz, 0, s);
        lemma_planar_len_regroups(sz, cs);
        crate::stream::lemma_base_mono(sz, cs, 0, 256);
    }
    let (offsets, planar_size, total_events) = planar_offsets(event_sizes, &counts, Ghost(cs));
    if planar_size != (events.len() - total_events as usize) as u64 {
        return Err(CompError::InvalidFile);
    }
    let n = total_events as usize;
    let start = buf.len();
    let ghost header = old(buf)@ + be32_bytes(n as int);
    push_be32(buf, n as u32);
    buf.resize(start + 4 + events.len(), 0u8);
    let order_at = start + 4;
    let planar_at = order_at + n;
    let mut written = [0u32; 256];
    let mut i: usize = 0;
    let mut k: usize = 0;
    proof {
        assert(s.subrange(0, n as int) =~= s);
        assert(written@ =~= Seq::new(256, |c: int| 0u32));
        assert forall|c: int| 0 <= c < 256 implies #[trigger] written@[c] == count_in(
            cs.take(0),
            c as u8,
        ) by {}
    }
    while i < events.len()
        invariant
            e == events@,
            sz == event_sizes@,
            is_table(sz),
            planar_len(sz, cs) >= 0,
            scan_from(e, sz, 0) == Some(s),
            cs == commands(e, s),
            n == s.len(),
            n == cs.len(),
            e.len() <= u32::MAX,
            planar_len(sz, cs) + n == e.len(),
            order_at == start + 4,
            planar_at == order_at + n,
            planar_at + planar_len(sz, cs) <= usize::MAX,
            buf@.len() == planar_at + planar_len(sz, cs),
            header.len() == start + 4,
            forall|c: int| 0 <= c < 256 ==> #[trigger] counts@[c] == count_in(cs, c as u8),
            forall|c: int| 0 <= c < 256 ==> #[trigger] offsets@[c] == planar_base(sz, cs, c),
            forall|c: int| 0 <= c < 256 ==> #[trigger] written@[c] == count_in(cs.take(k as int), c as u8),
            k <= n,
            i <= e.len(),
            scan_from(e, sz, i as int) == Some(s.subrange(k as int, n as int)),
            e.len() - i == (n - k) + payload_sum(sz, commands(e, s.subrange(k as int, n as int))),
            forall|q: int| 0 <= q < start + 4 ==> #[trigger] buf@[q] == header[q],
            forall|q: int| 0 <= q < k ==> #[trigger] buf@[order_at + q] == cs[q],
            forall|q: int, j: int|
                0 <= q < k && 0 <= j < sz[cs[q] as int] ==> buf@[planar_at + #[trigger] planar_pos(
                    sz,
                    cs,
                    q,
                    j,
                )] == e[s[q] + 1 + j],
        decreases e.len() - i,
    {
        let event_u8 = events[i];
        let event = event_u8 as usize;
        let ghost t = s.subrange(k as int, n as int);
        let ghost rest = s.subrange(k + 1, n as int);
        proof {
            lemma_scan_step(e, sz, i as int, t);
            assert(t.drop_first() =~= rest);
            assert(t =~= seq![i as int] + rest);
            lemma_commands_concat(e, seq![i as int], rest);
            assert(commands(e, seq![i as int]) =~= seq![event_u8]);
            assert(seq![event_u8] =~= Seq::<u8>::empty().push(event_u8));
            assert(Seq::<u8>::empty().push(event_u8).drop_last() =~= Seq::<u8>::empty());
            lemma_payload_sum_concat(sz, seq![event_u8], commands(e, rest));
            lemma_payload_sum_nonneg(sz, commands(e, rest));
            assert(seq![event_u8].drop_last() =~= Seq::<u8>::empty());
            assert(payload_sum(sz, Seq::<u8>::empty()) == 0);
            assert(payload_sum(sz, seq![event_u8]) == sz[event as int]);
            assert(rest.len() == n - k - 1);
            assert(s[k as int] == i);
            assert(cs[k as int] == event_u8);
        }
        buf[order_at + k] = event_u8;
        proof {
            assert forall|q: int, jj: int|
                0 <= q < k && 0 <= jj < sz[cs[q] as int] implies buf@[planar_at + #[trigger] planar_pos(
                sz,
                cs,
                q,
                jj,
            )] == e[s[q] + 1 + jj] by {
                lemma_pos_in_region(sz, cs, q, jj);
            }
        }
        let size = event_sizes[event] as usize;
        let stride = counts[event] as usize;
        let seen = written[event] as usize;
        proof {
            assert(offsets@[event as int] == planar_base(sz, cs, event as int));
            assert(planar_base(sz, cs, event as int) <= planar_len(sz, cs)) by {
                crate::stream::lemma_base_mono(sz, cs, event as int, 256);
            }
        }
        let region = planar_at + offsets[event] as usize;
        let mut j: usize = 0;
        while j < size
            invariant
                j <= size,
                is_table(sz),
                e == events@,
                e.len() <= u32::MAX,
                event < 256,
                event == event_u8 as usize,
                n == cs.len(),
                n == s.len(),
                header.len() == start + 4,
                planar_len(sz, cs) >= 0,
                planar_at + planar_len(sz, cs) <= usize::MAX,
                planar_at == order_at + n,
                order_at == start + 4,
                size == sz[event as int],
                i + 1 + size <= e.len(),
                stride == count_in(cs, event_u8),
                seen == rank(cs, k as int),
                region == planar_at + planar_base(sz, cs, event as int),
                k < n,
                cs[k as int] == event_u8,
                s[k as int] == i,
                buf@.len() == planar_at + planar_len(sz, cs),
                forall|q: int| 0 <= q < start + 4 ==> #[trigger] buf@[q] == header[q],
                forall|q: int| 0 <= q <= k ==> #[trigger] buf@[order_at + q] == cs[q],
                forall|q: int, jj: int|
                    0 <= q < k && 0 <= jj < sz[cs[q] as int] ==> buf@[planar_at + #[trigger] planar_pos(
                        sz,
                        cs,
                        q,
                        jj,
                    )] == e[s[q] + 1 + jj],
                forall|jj: int|
                    0 <= jj < j ==> buf@[planar_at + #[trigger] planar_pos(sz, cs, k as int, jj)]
                        == e[i + 1 + jj],
            decreases size - j,
        {
            proof {
                lemma_pos_in_region(sz, cs, k as int, j as int);
                assert(planar_pos(sz, cs, k as int, j as int) == planar_base(sz, cs, event as int) + j
                    * stride + seen);
            }
            let at = region + j * stride + seen;
            let ghost before = buf@;
            buf[at] = events[i + 1 + j];
            proof {
                assert(buf@ == before.update(at as int, e[i + 1 + j]));
                assert forall|q: int, jj: int|
                    0 <= q < k && 0 <= jj < sz[cs[q] as int] implies buf@[planar_at
                    + #[trigger] planar_pos(sz, cs, q, jj)] == e[s[q] + 1 + jj] by {
                    lemma_pos_distinct(sz, cs, q, jj, k as int, j as int);
                    lemma_pos_in_region(sz, cs, q, jj);
                    assert(before[planar_at + planar_pos(sz, cs, q, jj)] == e[s[q] + 1 + jj]);
                }
                assert forall|jj: int| 0 <= jj <= j implies buf@[planar_at + #[trigger] planar_pos(
                    sz,
                    cs,
                    k as int,
                    jj,
                )] == e[i + 1 + jj] by {
                    if jj < j {
                        lemma_pos_distinct(sz, cs, k as int, jj, k as int, j as int);
                        lemma_pos_in_region(sz, cs, k as int, jj);
                        assert(before[planar_at + planar_pos(sz, cs, k as int, jj)] == e[i + 1 + jj]);
                    }
                }
            }
            j = j + 1;
        }
        proof {
            assert forall|c: int| 0 <= c < 256 implies #[trigger] count_in(cs.take(k + 1), c as u8)
                == count_in(cs.take(k as int), c as u8) + if c == event {
                1int
            } else {
                0int
            } by {
                lemma_count_take_step(cs, k as int, c as u8);
            }
            crate::stream::lemma_rank(cs, k as int, k as int);
        }
        written[event] = written[event] + 1;
        i = i + 1 + size;
        k = k + 1;
    }
    proof {
        let out = buf@.skip(start as int);
        assert(k == n) by {
            if k < n {
                assert(s.subrange(k as int, n as int).len() > 0);
            }
        }
        assert(buf@.take(start as int) =~= old(buf)@);
        assert(out.take(4) =~= be32_bytes(n as int));
        assert forall|q: int| 0 <= q < n implies #[trigger] out.subrange(4, 4 + n)[q] == cs[q] by {
            assert(out[4 + q] == buf@[order_at + q]);
        }
        assert(out.subrange(4, 4 + n) =~= cs);
        assert forall|q: int, j: int|
            0 <= q < n && 0 <= j < sz[cs[q] as int] implies out[4 + n + #[trigger] planar_pos(
                sz,
                cs,
                q,
                j,
            )] == e[s[q] + 1 + j] by {
            lemma_pos_in_region(sz, cs, q, j);
            assert(out[4 + n + planar_pos(sz, cs, q, j)] == buf@[planar_at + planar_pos(sz, cs, q, j)]);
        }
    }
    Ok(4 + events.len())
}

/// Rebuilds at the end of `buf` the event stream that the planar buffer `b`
/// encodes: for each byte of the order list, that command byte and then its
/// payload gathered back from the byte planes. Fails, leaving `buf` as it was,
/// unless `b` holds a count, that many command bytes, and exactly as much
/// planar data as their sizes call for. Returns the number of bytes written.
pub fn unorder_events(b: &[u8], event_sizes: &[u16; 256], buf: &mut Vec<u8>) -> (r: Result<
    usize,
    DecompError,
>)
    ensures
        r is Ok <==> planar_consistent(b@, event_sizes@),
        r matches Ok(w) ==> {
            &&& w == b@.len() - 4
            &&& unordered(b@, event_sizes@).len() == w
            &&& final(buf)@ == old(buf)@ + unordered(b@, event_sizes@)
        },
        r matches Err(err) ==> err == DecompError::InvalidFile && final(buf)@ == old(buf)@,
{
    let ghost sz = event_sizes@;
    if b.len() < 4 {
        return Err(DecompError::InvalidFile);
    }
    let total_events = read_be32(b, 0) as usize;
    if total_events > b.len() - 4 {
        return Err(DecompError::InvalidFile);
    }
    let order_at: usize = 4;
    let planar_at = order_at + total_events;
    let ghost n = total_events as int;
    let ghost cs = order_list(b@);
    let ghost p = planar_data(b@);
    let mut counts = [0u32; 256];
    let mut q: usize = 0;
    proof {
        assert(counts@ =~= Seq::new(256, |c: int| 0u32));
        assert forall|c: int| 0 <= c < 256 implies #[trigger] counts@[c] == count_in(
            cs.take(0),
            c as u8,
        ) by {}
    }
    while q < total_events
        invariant
            q <= total_events,
            order_at == 4,
            n == total_events,
            n <= u32::MAX,
            stored_count(b@) == n,
            planar_at == 4 + n,
            planar_at <= b@.len(),
            cs == b@.subrange(4, planar_at as int),
            forall|c: int| 0 <= c < 256 ==> #[trigger] counts@[c] == count_in(cs.take(q as int), c as u8),
        decreases total_events - q,
    {
        let event = b[order_at + q] as usize;
        proof {
            assert(cs[q as int] == event as u8);
            lemma_count_le_len(cs.take(q as int), event as u8);
            assert forall|c: int| 0 <= c < 256 implies #[trigger] count_in(cs.take(q + 1), c as u8)
                == count_in(cs.take(q as int), c as u8) + if c == event {
                1int
            } else {
                0int
            } by {
                lemma_count_take_step(cs, q as int, c as u8);
            }
        }
        counts[event] = counts[event] + 1;
        q = q + 1;
    }
    proof {
        assert(cs.take(n) =~= cs);
    }
    let (offsets, planar_size, _) = planar_offsets(event_sizes, &counts, Ghost(cs));
    if planar_size != (b.len() - planar_at) as u64 {
        return Err(DecompError::InvalidFile);
    }
    let ghost start = buf@;
    proof {
        lemma_planar_len_regroups(sz, cs);
        lemma_gather_len(sz, cs, p, n);
        crate::stream::lemma_base_mono(sz, cs, 0, 256);
        assert(gather(sz, cs, p, 0) =~= Seq::<u8>::empty());
        assert(start + gather(sz, cs, p, 0) =~= start);
    }
    let mut written = [0u32; 256];
    let mut k: usize = 0;
    proof {
        assert(written@ =~= Seq::new(256, |c: int| 0u32));
        assert forall|c: int| 0 <= c < 256 implies #[trigger] written@[c] == count_in(
            cs.take(0),
            c as u8,
        ) by {}
    }
    while k < total_events
        invariant
            is_table(sz),
            sz == event_sizes@,
            k <= total_events,
            order_at == 4,
            planar_at <= b@.len(),
            b@.len() <= usize::MAX,
            n == total_events,
            n == cs.len(),
            n <= u32::MAX,
            planar_at == 4 + n,
            cs == b@.subrange(4, planar_at as int),
            p == b@.skip(planar_at as int),
            planar_len(sz, cs) == b@.len() - planar_at,
            forall|c: int| 0 <= c < 256 ==> #[trigger] counts@[c] == count_in(cs, c as u8),
            forall|c: int| 0 <= c < 256 ==> #[trigger] offsets@[c] == planar_base(sz, cs, c),
            forall|c: int| 0 <= c < 256 ==> #[trigger] written@[c] == count_in(cs.take(k as int), c as u8),
            buf@ == start + gather(sz, cs, p, k as int),
        decreases total_events - k,
    {
        let event_u8 = b[order_at + k];
        let event = event_u8 as usize;
        buf.push(event_u8);
        let size = event_sizes[event] as usize;
        let stride = counts[event] as usize;
        let seen = written[event] as usize;
        proof {
            assert(cs[k as int] == event_u8);
            crate::stream::lemma_base_mono(sz, cs, event as int, 256);
            crate::stream::lemma_base_mono(sz, cs, 0, event as int);
        }
        let region = planar_at + offsets[event] as usize;
        let ghost head = start + gather(sz, cs, p, k as int) + seq![event_u8];
        let mut j: usize = 0;
        proof {
            assert(head + Seq::new(0, |jj: int| p[planar_pos(sz, cs, k as int, jj)]) =~= buf@);
        }
        while j < size
            invariant
                j <= size,
                is_table(sz),
                k < n,
                n == cs.len(),
                event < 256,
                event == event_u8 as usize,
                cs[k as int] == event_u8,
                size == sz[event as int],
                stride == count_in(cs, event_u8),
                seen == rank(cs, k as int),
                planar_at == 4 + n,
                region == planar_at + planar_base(sz, cs, event as int),
                p == b@.skip(planar_at as int),
                b@.len() <= usize::MAX,
                planar_len(sz, cs) == b@.len() - planar_at,
                buf@ == head + Seq::new(j as nat, |jj: int| p[planar_pos(sz, cs, k as int, jj)]),
            decreases size - j,
        {
            proof {
                lemma_pos_in_region(sz, cs, k as int, j as int);
                assert(planar_pos(sz, cs, k as int, j as int) == planar_base(sz, cs, event as int) + j
                    * stride + seen);
            }
            let at = region + j * stride + seen;
            buf.push(b[at]);
            proof {
                assert(b@[at as int] == p[planar_pos(sz, cs, k as int, j as int)]);
                assert(buf@ =~= head + Seq::new((j + 1) as nat, |jj: int| p[planar_pos(sz, cs, k as int, jj)]));
            }
            j = j + 1;
        }
        proof {
            assert(buf@ =~= start + gather(sz, cs, p, k + 1));
            assert forall|c: int| 0 <= c < 256 implies #[trigger] count_in(cs.take(k + 1), c as u8)
                == count_in(cs.take(k as int), c as u8) + if c == event {
                1int
            } else {
                0int
            } by {
                lemma_count_take_step(cs, k as int, c as u8);
            }
            crate::stream::lemma_rank(cs, k as int, k as int);
        }
        written[event] = written[event] + 1;
        k = k + 1;
    }
    Ok(b.len() - 4)
}

} // verus!
