//! What the record format guarantees when a log is read back: round trip,
//! truncation and damage.

use vstd::prelude::*;

use crate::checksum::crc32_of;
use crate::record::{all_fit, le32, le_bytes, lemma_le32_of_le_bytes, log_of, record, scan};

verus! {

/// Where the record of `payloads[k]` starts in `log_of(payloads)`.
pub open spec fn record_start(payloads: Seq<Seq<u8>>, k: int) -> int {
    log_of(payloads.take(k)).len() as int
}

proof fn lemma_le32_differs(a: Seq<u8>, b: Seq<u8>, j: int)
    requires
        a.len() == 4,
        b.len() == 4,
        0 <= j < 4,
        a[j] != b[j],
        forall|i: int| 0 <= i < 4 && i != j ==> a[i] == b[i],
    ensures
        le32(a) != le32(b),
{
    assert(forall|i: int| 0 <= i < 4 && i != j ==> #[trigger] a[i] == b[i]);
}

/// A record followed by anything scans as its payload, then whatever the rest
/// scans as.
pub proof fn lemma_scan_record(p: Seq<u8>, tail: Seq<u8>)
    requires
        p.len() <= u32::MAX,
    ensures
        scan(record(p) + tail) == seq![p] + scan(tail),
{
    let buf = record(p) + tail;
    let len = p.len() as u32;
    lemma_le32_of_le_bytes(len);
    lemma_le32_of_le_bytes(crc32_of(p));
    assert(buf.subrange(0, 4) =~= le_bytes(len));
    assert(buf.subrange(4, 8) =~= le_bytes(crc32_of(p)));
    assert(buf.subrange(8, 8 + p.len() as int) =~= p);
    assert(buf.subrange(8 + p.len() as int, buf.len() as int) =~= tail);
}

/// The log of two payload sequences is the two logs one after the other.
pub proof fn lemma_log_of_concat(a: Seq<Seq<u8>>, b: Seq<Seq<u8>>)
    ensures
        log_of(a + b) == log_of(a) + log_of(b),
    decreases a.len(),
{
    if a.len() == 0 {
        assert(a + b =~= b);
        assert(log_of(a) + log_of(b) =~= log_of(b));
    } else {
        let rest = a.subrange(1, a.len() as int);
        assert((a + b).subrange(1, (a + b).len() as int) =~= rest + b);
        assert((a + b)[0] == a[0]);
        lemma_log_of_concat(rest, b);
        assert(log_of(a + b) =~= log_of(a) + log_of(b));
    }
}

/// Appending one record to a log extends the payload sequence by one.
pub proof fn lemma_log_of_push(payloads: Seq<Seq<u8>>, p: Seq<u8>)
    ensures
        log_of(payloads.push(p)) == log_of(payloads) + record(p),
{
    lemma_log_of_concat(payloads, seq![p]);
    assert(payloads + seq![p] =~= payloads.push(p));
    let single = seq![p];
    assert(single.subrange(1, 1) =~= Seq::<Seq<u8>>::empty());
    assert(log_of(single.subrange(1, 1)) =~= Seq::<u8>::empty());
    assert(single[0] == p);
    assert(log_of(single) =~= record(p));
}

/// Well-formed records at the front of a buffer are all recovered, whatever
/// follows them.
pub proof fn lemma_scan_log_then(payloads: Seq<Seq<u8>>, tail: Seq<u8>)
    requires
        all_fit(payloads),
    ensures
        scan(log_of(payloads) + tail) == payloads + scan(tail),
    decreases payloads.len(),
{
    if payloads.len() == 0 {
        assert(log_of(payloads) + tail =~= tail);
        assert(payloads + scan(tail) =~= scan(tail));
    } else {
        let rest = payloads.subrange(1, payloads.len() as int);
        assert(all_fit(rest)) by {
            assert forall|i: int| 0 <= i < rest.len() implies (#[trigger] rest[i]).len()
                <= u32::MAX by {
                assert(rest[i] == payloads[i + 1]);
            }
        }
        lemma_scan_log_then(rest, tail);
        assert(payloads[0].len() <= u32::MAX);
        assert(log_of(payloads) + tail =~= record(payloads[0]) + (log_of(rest) + tail));
        lemma_scan_record(payloads[0], log_of(rest) + tail);
        assert(seq![payloads[0]] + (rest + scan(tail)) =~= payloads + scan(tail));
    }
}

/// Round trip: reading back a log written as one record per payload yields
/// exactly those payloads, in append order.
pub proof fn lemma_round_trip(payloads: Seq<Seq<u8>>)
    requires
        all_fit(payloads),
    ensures
        scan(log_of(payloads)) == payloads,
{
    lemma_scan_log_then(payloads, Seq::empty());
    assert(log_of(payloads) + Seq::<u8>::empty() =~= log_of(payloads));
    assert(payloads + Seq::<Seq<u8>>::empty() =~= payloads);
}

/// A proper prefix of a record holds no record.
pub proof fn lemma_scan_torn_record(p: Seq<u8>, m: int)
    requires
        p.len() <= u32::MAX,
        0 <= m < record(p).len(),
    ensures
        scan(record(p).take(m)) == Seq::<Seq<u8>>::empty(),
{
    let buf = record(p).take(m);
    if m >= 8 {
        lemma_le32_of_le_bytes(p.len() as u32);
        assert(buf.subrange(0, 4) =~= le_bytes(p.len() as u32));
    }
}

/// The start of record `k` splits the log into the records before it and
/// the records from it on.
pub proof fn lemma_log_split(payloads: Seq<Seq<u8>>, k: int)
    requires
        0 <= k <= payloads.len(),
    ensures
        log_of(payloads) == log_of(payloads.take(k)) + log_of(payloads.skip(k)),
{
    assert(payloads =~= payloads.take(k) + payloads.skip(k));
    lemma_log_of_concat(payloads.take(k), payloads.skip(k));
}

/// Prefix truncation: a log cut at any offset inside record `k` (or exactly
/// at its start) reads back as the records before `k`, with no error.
pub proof fn lemma_truncated_log(payloads: Seq<Seq<u8>>, k: int, cut: int)
    requires
        all_fit(payloads),
        0 <= k < payloads.len(),
        record_start(payloads, k) <= cut < record_start(payloads, k) + record(payloads[k]).len(),
    ensures
        scan(log_of(payloads).take(cut)) == payloads.take(k),
{
    let start = record_start(payloads, k);
    let before = payloads.take(k);
    let from = payloads.skip(k);
    lemma_log_split(payloads, k);
    assert(from[0] == payloads[k]);
    assert(log_of(from) == record(payloads[k]) + log_of(from.subrange(1, from.len() as int)));
    let torn = record(payloads[k]).take(cut - start);
    assert(log_of(payloads).take(cut) =~= log_of(before) + torn);
    assert(all_fit(before)) by {
        assert forall|i: int| 0 <= i < before.len() implies (#[trigger] before[i]).len()
            <= u32::MAX by {
            assert(before[i] == payloads[i]);
        }
    }
    lemma_scan_log_then(before, torn);
    lemma_scan_torn_record(payloads[k], cut - start);
    assert(before + Seq::<Seq<u8>>::empty() =~= before);
}

/// Damage confined to record `k` and what follows it never costs an earlier
/// record: the buffer reads as the records before `k`, then whatever the
/// bytes from record `k` on read as.
pub proof fn lemma_earlier_records_survive(payloads: Seq<Seq<u8>>, k: int, damaged: Seq<u8>)
    requires
        all_fit(payloads),
        0 <= k <= payloads.len(),
        record_start(payloads, k) <= damaged.len(),
        damaged.take(record_start(payloads, k)) == log_of(payloads).take(record_start(payloads, k)),
    ensures
        scan(damaged) == payloads.take(k) + scan(damaged.skip(record_start(payloads, k))),
{
    let start = record_start(payloads, k);
    let before = payloads.take(k);
    lemma_log_split(payloads, k);
    assert(log_of(payloads).take(start) =~= log_of(before));
    assert(damaged =~= log_of(before) + damaged.skip(start));
    assert(all_fit(before)) by {
        assert forall|i: int| 0 <= i < before.len() implies (#[trigger] before[i]).len()
            <= u32::MAX by {
            assert(before[i] == payloads[i]);
        }
    }
    lemma_scan_log_then(before, damaged.skip(start));
}

proof fn lemma_damaged_front(p: Seq<u8>, tail: Seq<u8>, rest: Seq<u8>, d: int)
    requires
        p.len() <= u32::MAX,
        rest.len() == record(p).len() + tail.len(),
        4 <= d < record(p).len(),
        rest[d] != (record(p) + tail)[d],
        forall|j: int| 0 <= j < rest.len() && j != d ==> #[trigger] rest[j] == (record(p) + tail)[j],
        d >= 8 ==> crc32_of(rest.subrange(8, 8 + p.len() as int)) != crc32_of(p),
    ensures
        scan(rest) == Seq::<Seq<u8>>::empty(),
{
    let orig = record(p) + tail;
    let len = p.len() as u32;
    lemma_le32_of_le_bytes(len);
    lemma_le32_of_le_bytes(crc32_of(p));
    assert(orig.subrange(0, 4) =~= le_bytes(len));
    assert(orig.subrange(4, 8) =~= le_bytes(crc32_of(p)));
    assert(rest.subrange(0, 4) =~= orig.subrange(0, 4));
    if d < 8 {
        assert(rest.subrange(8, 8 + p.len() as int) =~= p);
        lemma_le32_differs(rest.subrange(4, 8), orig.subrange(4, 8), d - 4);
    } else {
        assert(rest.subrange(4, 8) =~= orig.subrange(4, 8));
    }
}

/// Checksum sensitivity: changing one byte of record `k`'s checksum field,
/// or one byte of its payload where that changes the payload's CRC-32, drops
/// record `k` and everything after it, and keeps every earlier record. (A
/// flipped bit is one such change.)
pub proof fn lemma_damaged_record(payloads: Seq<Seq<u8>>, k: int, damaged: Seq<u8>, at: int)
    requires
        all_fit(payloads),
        0 <= k < payloads.len(),
        damaged.len() == log_of(payloads).len(),
        record_start(payloads, k) + 4 <= at < record_start(payloads, k) + record(payloads[k]).len(),
        damaged[at] != log_of(payloads)[at],
        forall|j: int| 0 <= j < damaged.len() && j != at ==> damaged[j] == log_of(payloads)[j],
        at >= record_start(payloads, k) + 8 ==> crc32_of(
            damaged.subrange(
                record_start(payloads, k) + 8,
                record_start(payloads, k) + 8 + payloads[k].len() as int,
            ),
        ) != crc32_of(payloads[k]),
    ensures
        scan(damaged) == payloads.take(k),
{
    let log = log_of(payloads);
    let start = record_start(payloads, k);
    let p = payloads[k];
    let from = payloads.skip(k);
    let tail = log_of(from.subrange(1, from.len() as int));
    lemma_log_split(payloads, k);
    assert(from[0] == p);
    assert(log.skip(start) =~= record(p) + tail);
    assert(damaged.take(start) =~= log.take(start));
    lemma_earlier_records_survive(payloads, k, damaged);
    let rest = damaged.skip(start);
    assert forall|j: int| 0 <= j < rest.len() && j != at - start implies #[trigger] rest[j] == (
    record(p) + tail)[j] by {
        assert(rest[j] == damaged[j + start]);
        assert(log.skip(start)[j] == log[j + start]);
    }
    assert(rest.subrange(8, 8 + p.len() as int) =~= damaged.subrange(start + 8, start + 8
        + p.len() as int));
    lemma_damaged_front(p, tail, rest, at - start);
    assert(payloads.take(k) + Seq::<Seq<u8>>::empty() =~= payloads.take(k));
}

/// Whether the length field at the front of `rest` frames no payload
/// checked by `sum`: the payload it frames runs past the end of `rest`, or
/// its CRC-32 differs from `sum`.
#[verifier::opaque]
pub open spec fn misframed(rest: Seq<u8>, sum: u32) -> bool {
    let len = le32(rest.subrange(0, 4)) as int;
    8 + len > rest.len() || crc32_of(rest.subrange(8, 8 + len)) != sum
}

proof fn lemma_misframed_front(p: Seq<u8>, tail: Seq<u8>, rest: Seq<u8>, d: int)
    requires
        p.len() <= u32::MAX,
        rest.len() == record(p).len() + tail.len(),
        0 <= d < 4,
        forall|j: int| 0 <= j < rest.len() && j != d ==> #[trigger] rest[j] == (record(p) + tail)[j],
        misframed(rest, crc32_of(p)),
    ensures
        scan(rest) == Seq::<Seq<u8>>::empty(),
{
    reveal(misframed);
    let orig = record(p) + tail;
    lemma_le32_of_le_bytes(crc32_of(p));
    assert(orig.subrange(4, 8) =~= le_bytes(crc32_of(p)));
    assert(rest.subrange(4, 8) =~= orig.subrange(4, 8));
}

/// Checksum sensitivity, length field: changing one byte of record `k`'s
/// length field (a flipped bit is one such change) drops record `k` and
/// everything after it, and keeps every earlier record, wherever the length
/// read from the damaged field frames a payload that runs past the end of
/// the buffer or whose CRC-32 differs from the stored checksum (`misframed`).
pub proof fn lemma_damaged_length(payloads: Seq<Seq<u8>>, k: int, damaged: Seq<u8>, at: int)
    requires
        all_fit(payloads),
        0 <= k < payloads.len(),
        damaged.len() == log_of(payloads).len(),
        record_start(payloads, k) <= at < record_start(payloads, k) + 4,
        damaged[at] != log_of(payloads)[at],
        forall|j: int| 0 <= j < damaged.len() && j != at ==> damaged[j] == log_of(payloads)[j],
        misframed(damaged.skip(record_start(payloads, k)), crc32_of(payloads[k])),
    ensures
        scan(damaged) == payloads.take(k),
{
    let log = log_of(payloads);
    let start = record_start(payloads, k);
    let p = payloads[k];
    let from = payloads.skip(k);
    let tail = log_of(from.subrange(1, from.len() as int));
    lemma_log_split(payloads, k);
    assert(from[0] == p);
    assert(log.skip(start) =~= record(p) + tail);
    assert(damaged.take(start) =~= log.take(start));
    lemma_earlier_records_survive(payloads, k, damaged);
    let rest = damaged.skip(start);
    assert forall|j: int| 0 <= j < rest.len() && j != at - start implies #[trigger] rest[j] == (
    record(p) + tail)[j] by {
        assert(rest[j] == damaged[j + start]);
        assert(log.skip(start)[j] == log[j + start]);
    }
    lemma_misframed_front(p, tail, rest, at - start);
    assert(payloads.take(k) + Seq::<Seq<u8>>::empty() =~= payloads.take(k));
}

} // verus!
