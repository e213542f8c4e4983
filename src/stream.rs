//! The mathematical model of an event stream: where its records start, which
//! commands they carry, and how the planar layout places their payload bytes.

use vstd::prelude::*;
use crate::bytes::{be32_bytes, be32_value};

verus! {

/// Start positions of the records that a front-to-back scan of `e` finds from
/// position `i`: each record is one command byte followed by as many payload
/// bytes as `sz` gives that command, and the last record may run past the end.
/// `None` when the scan meets a command whose size is 0.
pub open spec fn scan_from(e: Seq<u8>, sz: Seq<u16>, i: int) -> Option<Seq<int>>
    decreases e.len() - i,
{
    if i < 0 || i >= e.len() {
        Some(Seq::empty())
    } else if e[i] as int >= sz.len() || sz[e[i] as int] == 0 {
        None
    } else {
        let next = i + 1 + sz[e[i] as int];
        if next >= e.len() {
            Some(seq![i])
        } else {
            match scan_from(e, sz, next) {
                Some(rest) => Some(seq![i] + rest),
                None => None,
            }
        }
    }
}

/// The command bytes at the positions `s` of `e`.
pub open spec fn commands(e: Seq<u8>, s: Seq<int>) -> Seq<u8> {
    s.map_values(|p: int| e[p])
}

/// How many times `c` occurs in `cs`.
pub open spec fn count_in(cs: Seq<u8>, c: u8) -> nat
    decreases cs.len(),
{
    if cs.len() == 0 {
        0
    } else {
        count_in(cs.drop_last(), c) + if cs.last() == c {
            1nat
        } else {
            0nat
        }
    }
}

/// The payload bytes of all records with the commands `cs`, summed record by record.
pub open spec fn payload_sum(sz: Seq<u16>, cs: Seq<u8>) -> int
    decreases cs.len(),
{
    if cs.len() == 0 {
        0
    } else {
        payload_sum(sz, cs.drop_last()) + sz[cs.last() as int]
    }
}

/// Payload bytes of the records of `cs` whose command is below `m`, summed
/// command by command: the start of command `m`'s region in the planar data.
pub open spec fn planar_base(sz: Seq<u16>, cs: Seq<u8>, m: int) -> int
    decreases m,
{
    if m <= 0 {
        0
    } else {
        planar_base(sz, cs, m - 1) + sz[m - 1] * count_in(cs, (m - 1) as u8)
    }
}

/// Length of the planar data of the records `cs`.
pub open spec fn planar_len(sz: Seq<u16>, cs: Seq<u8>) -> int {
    planar_base(sz, cs, 256)
}

/// Records of the commands below `m`, counted command by command.
pub open spec fn count_below(cs: Seq<u8>, m: int) -> int
    decreases m,
{
    if m <= 0 {
        0
    } else {
        count_below(cs, m - 1) + count_in(cs, (m - 1) as u8)
    }
}

/// How many records before record `k` carry the same command as record `k`.
pub open spec fn rank(cs: Seq<u8>, k: int) -> nat {
    count_in(cs.take(k), cs[k])
}

/// Offset in the planar data of payload byte `j` of record `k`: byte planes of
/// one command lie one after another, each as long as that command's count.
pub open spec fn planar_pos(sz: Seq<u16>, cs: Seq<u8>, k: int, j: int) -> int {
    planar_base(sz, cs, cs[k] as int) + j * count_in(cs, cs[k]) + rank(cs, k)
}

/// A table of 256 sizes.
pub open spec fn is_table(sz: Seq<u16>) -> bool {
    sz.len() == 256
}

/// `e` splits into whole records, none of them of a command of size 0.
pub open spec fn is_event_stream(e: Seq<u8>, sz: Seq<u16>) -> bool {
    match scan_from(e, sz, 0) {
        Some(s) => s.len() + payload_sum(sz, commands(e, s)) == e.len(),
        None => false,
    }
}

pub proof fn lemma_count_push(cs: Seq<u8>, x: u8, c: u8)
    ensures
        count_in(cs.push(x), c) == count_in(cs, c) + if x == c {
            1int
        } else {
            0int
        },
{
    assert(cs.push(x).drop_last() =~= cs);
}

pub proof fn lemma_payload_sum_concat(sz: Seq<u16>, a: Seq<u8>, b: Seq<u8>)
    ensures
        payload_sum(sz, a + b) == payload_sum(sz, a) + payload_sum(sz, b),
    decreases b.len(),
{
    if b.len() == 0 {
        assert(a + b =~= a);
    } else {
        lemma_payload_sum_concat(sz, a, b.drop_last());
        assert((a + b).drop_last() =~= a + b.drop_last());
    }
}

pub proof fn lemma_payload_sum_nonneg(sz: Seq<u16>, cs: Seq<u8>)
    ensures
        payload_sum(sz, cs) >= 0,
    decreases cs.len(),
{
    if cs.len() > 0 {
        lemma_payload_sum_nonneg(sz, cs.drop_last());
    }
}

pub proof fn lemma_count_le_len(cs: Seq<u8>, c: u8)
    ensures
        count_in(cs, c) <= cs.len(),
    decreases cs.len(),
{
    if cs.len() > 0 {
        lemma_count_le_len(cs.drop_last(), c);
    }
}

/// Adding one record of command `x` adds its size to every base above `x`.
pub proof fn lemma_planar_base_push(sz: Seq<u16>, cs: Seq<u8>, x: u8, m: int)
    requires
        0 <= m <= 256,
    ensures
        planar_base(sz, cs.push(x), m) == planar_base(sz, cs, m) + if x < m {
            sz[x as int] as int
        } else {
            0int
        },
    decreases m,
{
    if m > 0 {
        lemma_planar_base_push(sz, cs, x, m - 1);
        lemma_count_push(cs, x, (m - 1) as u8);
        let a = sz[m - 1] as int;
        let k = count_in(cs, (m - 1) as u8) as int;
        assert(a * (k + 1) == a * k + a) by (nonlinear_arith);
    }
}

pub proof fn lemma_count_below_push(cs: Seq<u8>, x: u8, m: int)
    requires
        0 <= m <= 256,
    ensures
        count_below(cs.push(x), m) == count_below(cs, m) + if x < m {
            1int
        } else {
            0int
        },
    decreases m,
{
    if m > 0 {
        lemma_count_below_push(cs, x, m - 1);
        lemma_count_push(cs, x, (m - 1) as u8);
    }
}

/// Summing payload sizes by command gives the same as summing them by record.
pub proof fn lemma_planar_len_regroups(sz: Seq<u16>, cs: Seq<u8>)
    ensures
        planar_len(sz, cs) == payload_sum(sz, cs),
        count_below(cs, 256) == cs.len(),
    decreases cs.len(),
{
    if cs.len() == 0 {
        lemma_empty_sums(sz, cs, 256);
    } else {
        let p = cs.drop_last();
        lemma_planar_len_regroups(sz, p);
        assert(p.push(cs.last()) =~= cs);
        lemma_planar_base_push(sz, p, cs.last(), 256);
        lemma_count_below_push(p, cs.last(), 256);
    }
}

proof fn lemma_empty_sums(sz: Seq<u16>, cs: Seq<u8>, m: int)
    requires
        cs.len() == 0,
    ensures
        planar_base(sz, cs, m) == 0,
        count_below(cs, m) == 0,
    decreases m,
{
    if m > 0 {
        lemma_empty_sums(sz, cs, m - 1);
        assert(count_in(cs, (m - 1) as u8) == 0);
        assert(sz[m - 1] * 0 == 0);
    }
}

/// Counting over a longer prefix never gives less.
pub proof fn lemma_count_take_mono(cs: Seq<u8>, a: int, b: int, c: u8)
    requires
        0 <= a <= b <= cs.len(),
    ensures
        count_in(cs.take(a), c) <= count_in(cs.take(b), c),
    decreases b - a,
{
    if a < b {
        lemma_count_take_mono(cs, a, b - 1, c);
        assert(cs.take(b).drop_last() =~= cs.take(b - 1));
    }
}

/// Taking record `k` into the prefix counts it once.
pub proof fn lemma_count_take_step(cs: Seq<u8>, k: int, c: u8)
    requires
        0 <= k < cs.len(),
    ensures
        count_in(cs.take(k + 1), c) == count_in(cs.take(k), c) + if cs[k] == c {
            1int
        } else {
            0int
        },
{
    assert(cs.take(k + 1).drop_last() =~= cs.take(k));
}

/// Each record's rank is below its command's count, and two records of one
/// command have different ranks.
pub proof fn lemma_rank(cs: Seq<u8>, k1: int, k2: int)
    requires
        0 <= k1 < cs.len(),
        0 <= k2 < cs.len(),
    ensures
        rank(cs, k1) < count_in(cs, cs[k1]),
        k1 < k2 && cs[k1] == cs[k2] ==> rank(cs, k1) < rank(cs, k2),
{
    let c = cs[k1];
    lemma_count_take_step(cs, k1, c);
    lemma_count_take_mono(cs, k1 + 1, cs.len() as int, c);
    assert(cs.take(cs.len() as int) =~= cs);
    if k1 < k2 {
        lemma_count_take_mono(cs, k1 + 1, k2, c);
    }
}

/// Bases never decrease from one command to the next.
pub proof fn lemma_base_mono(sz: Seq<u16>, cs: Seq<u8>, a: int, b: int)
    requires
        0 <= a <= b,
    ensures
        planar_base(sz, cs, a) <= planar_base(sz, cs, b),
    decreases b - a,
{
    if a < b {
        lemma_base_mono(sz, cs, a, b - 1);
        let x = sz[b - 1] as int;
        let y = count_in(cs, (b - 1) as u8) as int;
        assert(0 <= x * y) by (nonlinear_arith)
            requires
                0 <= x,
                0 <= y,
        ;
    }
}

/// Payload byte `j` of record `k` lies in its command's region.
pub proof fn lemma_pos_in_region(sz: Seq<u16>, cs: Seq<u8>, k: int, j: int)
    requires
        is_table(sz),
        0 <= k < cs.len(),
        0 <= j < sz[cs[k] as int],
    ensures
        0 <= planar_base(sz, cs, cs[k] as int) <= planar_pos(sz, cs, k, j),
        planar_pos(sz, cs, k, j) < planar_base(sz, cs, cs[k] + 1),
        planar_pos(sz, cs, k, j) < planar_len(sz, cs),
{
    let c = cs[k];
    lemma_rank(cs, k, k);
    let n = count_in(cs, c) as int;
    let r = rank(cs, k) as int;
    let s = sz[c as int] as int;
    assert(0 <= j * n + r < s * n) by (nonlinear_arith)
        requires
            0 <= j < s,
            0 <= r < n,
    ;
    assert(((c + 1) - 1) as u8 == c);
    lemma_base_mono(sz, cs, c + 1, 256);
    lemma_base_mono(sz, cs, 0, c as int);
}

/// No two payload bytes share a planar offset.
pub proof fn lemma_pos_distinct(sz: Seq<u16>, cs: Seq<u8>, k1: int, j1: int, k2: int, j2: int)
    requires
        is_table(sz),
        0 <= k1 < cs.len(),
        0 <= j1 < sz[cs[k1] as int],
        0 <= k2 < cs.len(),
        0 <= j2 < sz[cs[k2] as int],
        k1 != k2 || j1 != j2,
    ensures
        planar_pos(sz, cs, k1, j1) != planar_pos(sz, cs, k2, j2),
{
    lemma_pos_in_region(sz, cs, k1, j1);
    lemma_pos_in_region(sz, cs, k2, j2);
    let c1 = cs[k1] as int;
    let c2 = cs[k2] as int;
    if c1 < c2 {
        lemma_base_mono(sz, cs, c1 + 1, c2);
    } else if c2 < c1 {
        lemma_base_mono(sz, cs, c2 + 1, c1);
    } else {
        lemma_rank(cs, k1, k2);
        lemma_rank(cs, k2, k1);
        let n = count_in(cs, cs[k1]) as int;
        let r1 = rank(cs, k1) as int;
        let r2 = rank(cs, k2) as int;
        if j1 * n + r1 == j2 * n + r2 {
            assert(j1 == j2 && r1 == r2) by (nonlinear_arith)
                requires
                    j1 * n + r1 == j2 * n + r2,
                    0 <= r1 < n,
                    0 <= r2 < n,
                    0 <= j1,
                    0 <= j2,
            ;
        }
    }
}

/// `r` is the planar buffer of the event stream `e`: the record count, the
/// command bytes in stream order, then every payload byte at its planar offset.
pub open spec fn is_reordering(e: Seq<u8>, sz: Seq<u16>, r: Seq<u8>) -> bool {
    match scan_from(e, sz, 0) {
        Some(s) => {
            let cs = commands(e, s);
            let n = s.len() as int;
            &&& r.len() == 4 + n + planar_len(sz, cs)
            &&& r.take(4) == be32_bytes(n)
            &&& r.subrange(4, 4 + n) == cs
            &&& forall|k: int, j: int|
                0 <= k < n && 0 <= j < sz[cs[k] as int] ==> r[4 + n + #[trigger] planar_pos(
                    sz,
                    cs,
                    k,
                    j,
                )] == e[s[k] + 1 + j]
        },
        None => false,
    }
}

/// The record count stored at the front of a planar buffer.
pub open spec fn stored_count(b: Seq<u8>) -> int {
    be32_value(b, 0)
}

/// The command bytes of a planar buffer, in stream order.
pub open spec fn order_list(b: Seq<u8>) -> Seq<u8> {
    b.subrange(4, 4 + stored_count(b))
}

/// The planar data of a planar buffer.
pub open spec fn planar_data(b: Seq<u8>) -> Seq<u8> {
    b.skip(4 + stored_count(b))
}

/// `b` holds a record count, that many command bytes, and exactly as much
/// planar data as those commands' sizes call for.
pub open spec fn planar_consistent(b: Seq<u8>, sz: Seq<u16>) -> bool {
    &&& b.len() >= 4
    &&& 4 + stored_count(b) <= b.len()
    &&& planar_len(sz, order_list(b)) == b.len() - 4 - stored_count(b)
}

/// The first `k` records rebuilt from the commands `cs` and the planar data
/// `p`: each record's command byte, then its payload bytes gathered back from
/// their planar offsets.
pub open spec fn gather(sz: Seq<u16>, cs: Seq<u8>, p: Seq<u8>, k: int) -> Seq<u8>
    decreases k,
{
    if k <= 0 {
        Seq::empty()
    } else {
        gather(sz, cs, p, k - 1) + seq![cs[k - 1]] + Seq::new(
            sz[cs[k - 1] as int] as nat,
            |j: int| p[planar_pos(sz, cs, k - 1, j)],
        )
    }
}

/// The event stream that the planar buffer `b` encodes.
pub open spec fn unordered(b: Seq<u8>, sz: Seq<u16>) -> Seq<u8> {
    gather(sz, order_list(b), planar_data(b), stored_count(b))
}

/// One step of the scan: a record starts at `i`, its command has a size, and
/// the scan goes on right after its payload.
pub proof fn lemma_scan_step(e: Seq<u8>, sz: Seq<u16>, i: int, t: Seq<int>)
    requires
        0 <= i < e.len(),
        scan_from(e, sz, i) == Some(t),
    ensures
        t.len() >= 1,
        t[0] == i,
        (e[i] as int) < sz.len(),
        sz[e[i] as int] > 0,
        scan_from(e, sz, i + 1 + sz[e[i] as int]) == Some(t.drop_first()),
{
    let next = i + 1 + sz[e[i] as int];
    if next >= e.len() {
        assert(t.drop_first() =~= Seq::<int>::empty());
    } else {
        let rest = scan_from(e, sz, next).unwrap();
        assert((seq![i] + rest).drop_first() =~= rest);
    }
}

/// The scan meets a command of size 0 at `i`: it fails.
pub proof fn lemma_scan_zero(e: Seq<u8>, sz: Seq<u16>, i: int)
    requires
        0 <= i < e.len(),
        (e[i] as int) < sz.len(),
        sz[e[i] as int] == 0,
    ensures
        scan_from(e, sz, i) is None,
{
}

/// Records found from `i` start inside `e`, in increasing order, at most one per byte.
pub proof fn lemma_scan_bounds(e: Seq<u8>, sz: Seq<u16>, i: int, t: Seq<int>)
    requires
        0 <= i,
        scan_from(e, sz, i) == Some(t),
    ensures
        i <= e.len() ==> t.len() <= e.len() - i,
        forall|k: int| 0 <= k < t.len() ==> i <= #[trigger] t[k] < e.len(),
    decreases e.len() - i,
{
    if i < e.len() {
        lemma_scan_step(e, sz, i, t);
        let next = i + 1 + sz[e[i] as int];
        let rest = t.drop_first();
        if next < e.len() {
            lemma_scan_bounds(e, sz, next, rest);
        }
        assert forall|k: int| 0 <= k < t.len() implies i <= #[trigger] t[k] < e.len() by {
            if k > 0 {
                assert(t[k] == rest[k - 1]);
            }
        }
    }
}

/// The commands of two runs of records, one after the other.
pub proof fn lemma_commands_concat(e: Seq<u8>, a: Seq<int>, b: Seq<int>)
    ensures
        commands(e, a + b) == commands(e, a) + commands(e, b),
{
    assert(commands(e, a + b) =~= commands(e, a) + commands(e, b));
}

/// Rebuilt records take one byte for each command and its payload.
pub proof fn lemma_gather_len(sz: Seq<u16>, cs: Seq<u8>, p: Seq<u8>, k: int)
    requires
        0 <= k <= cs.len(),
    ensures
        gather(sz, cs, p, k).len() == k + payload_sum(sz, cs.take(k)),
    decreases k,
{
    if k == 0 {
        assert(cs.take(0) =~= Seq::<u8>::empty());
    } else {
        lemma_gather_len(sz, cs, p, k - 1);
        assert(cs.take(k).drop_last() =~= cs.take(k - 1));
    }
}

} // verus!
