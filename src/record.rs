//! The on-disk record format and the prefix-recovery scan over a log.

use vstd::prelude::*;

use crate::checksum::{crc32, crc32_of};

verus! {

/// Size of a record header: a little-endian `u32` length, then a
/// little-endian `u32` checksum.
pub const HEADER_LEN: usize = 8;

/// The value of four bytes read as a little-endian unsigned integer.
pub open spec fn le32(b: Seq<u8>) -> nat
    recommends
        b.len() == 4,
{
    b[0] as nat + 256 * (b[1] as nat) + 65536 * (b[2] as nat) + 16777216 * (b[3] as nat)
}

/// The four little-endian bytes of `x`.
pub open spec fn le_bytes(x: u32) -> Seq<u8> {
    seq![
        (x % 256) as u8,
        ((x / 256) % 256) as u8,
        ((x / 65536) % 256) as u8,
        ((x / 16777216) % 256) as u8,
    ]
}

/// Reading back the bytes of `x` gives `x`.
pub proof fn lemma_le32_of_le_bytes(x: u32)
    ensures
        le32(le_bytes(x)) == x as nat,
{
    let b = le_bytes(x);
    assert(b[0] as nat == x % 256);
    assert(b[1] as nat == (x / 256) % 256);
    assert(b[2] as nat == (x / 65536) % 256);
    assert(b[3] as nat == (x / 16777216) % 256);
    assert((x % 256) + 256 * ((x / 256) % 256) + 65536 * ((x / 65536) % 256) + 16777216 * ((
    x / 16777216) % 256) == x) by (nonlinear_arith);
}

/// Reads the little-endian `u32` that starts at `at`.
pub fn read_le32(buf: &[u8], at: usize) -> (r: u32)
    requires
        at + 4 <= buf@.len(),
    ensures
        r as nat == le32(buf@.subrange(at as int, at + 4)),
{
    let b0 = buf[at] as u32;
    let b1 = buf[at + 1] as u32;
    let b2 = buf[at + 2] as u32;
    let b3 = buf[at + 3] as u32;
    assert(b0 + 256 * b1 + 65536 * b2 + 16777216 * b3 <= u32::MAX) by (nonlinear_arith)
        requires
            b0 < 256,
            b1 < 256,
            b2 < 256,
            b3 < 256,
    ;
    b0 + 256 * b1 + 65536 * b2 + 16777216 * b3
}

/// Appends the four little-endian bytes of `x`.
pub fn push_le32(out: &mut Vec<u8>, x: u32)
    ensures
        final(out)@ == old(out)@ + le_bytes(x),
{
    out.push((x % 256) as u8);
    out.push(((x / 256) % 256) as u8);
    out.push(((x / 65536) % 256) as u8);
    out.push(((x / 16777216) % 256) as u8);
    assert(out@ =~= old(out)@ + le_bytes(x));
}

/// The on-disk record for `payload`: its length, its checksum, then the
/// payload itself.
pub open spec fn record(payload: Seq<u8>) -> Seq<u8> {
    le_bytes(payload.len() as u32) + le_bytes(crc32_of(payload)) + payload
}

/// A log holding one record for each payload, in order.
pub open spec fn log_of(payloads: Seq<Seq<u8>>) -> Seq<u8>
    decreases payloads.len(),
{
    if payloads.len() == 0 {
        Seq::empty()
    } else {
        record(payloads[0]) + log_of(payloads.subrange(1, payloads.len() as int))
    }
}

/// Whether every payload fits the record's `u32` length field.
pub open spec fn all_fit(payloads: Seq<Seq<u8>>) -> bool {
    forall|i: int| 0 <= i < payloads.len() ==> (#[trigger] payloads[i]).len() <= u32::MAX
}

/// The payloads recovered from `buf` under the prefix policy: records are
/// taken from the start while a full header, a full payload and a matching
/// checksum are present; the first record that lacks one ends the log.
pub open spec fn scan(buf: Seq<u8>) -> Seq<Seq<u8>>
    decreases buf.len(),
{
    if buf.len() < 8 {
        Seq::empty()
    } else {
        let len = le32(buf.subrange(0, 4)) as int;
        let sum = le32(buf.subrange(4, 8)) as int;
        if 8 + len > buf.len() {
            Seq::empty()
        } else {
            let payload = buf.subrange(8, 8 + len);
            if crc32_of(payload) as int != sum {
                Seq::empty()
            } else {
                seq![payload] + scan(buf.subrange(8 + len, buf.len() as int))
            }
        }
    }
}

/// Frames `payload` as one record: an 8-byte header (little-endian length,
/// little-endian CRC-32 of the payload) followed by the payload.
pub fn encode_record(payload: &[u8]) -> (r: Vec<u8>)
    requires
        payload@.len() <= u32::MAX,
    ensures
        r@ == record(payload@),
{
    let mut out: Vec<u8> = Vec::new();
    push_le32(&mut out, payload.len() as u32);
    push_le32(&mut out, crc32(payload));
    let ghost header = out@;
    let mut i: usize = 0;
    while i < payload.len()
        invariant
            i <= payload@.len(),
            out@ == header + payload@.subrange(0, i as int),
        decreases payload@.len() - i,
    {
        out.push(payload[i]);
        i += 1;
        assert(out@ =~= header + payload@.subrange(0, i as int));
    }
    assert(payload@.subrange(0, payload@.len() as int) =~= payload@);
    out
}

/// The views of a sequence of byte vectors.
pub open spec fn views(v: Seq<Vec<u8>>) -> Seq<Seq<u8>> {
    v.map_values(|p: Vec<u8>| p@)
}

/// Scans `buf` from its start and returns the payloads of the valid prefix of
/// records, in order. Truncation and checksum mismatch end the scan; they are
/// not errors.
pub fn scan_payloads(buf: &[u8]) -> (r: Vec<Vec<u8>>)
    ensures
        views(r@) == scan(buf@),
{
    let mut out: Vec<Vec<u8>> = Vec::new();
    let mut cursor: usize = 0;
    assert(buf@.subrange(0, buf@.len() as int) =~= buf@);
    assert(views(out@) + scan(buf@) =~= scan(buf@));
    while cursor <= buf.len() && buf.len() - cursor >= HEADER_LEN
        invariant
            cursor <= buf@.len(),
            views(out@) + scan(buf@.subrange(cursor as int, buf@.len() as int)) == scan(buf@),
        ensures
            views(out@) == scan(buf@),
        decreases buf@.len() - cursor,
    {
        let ghost rest = buf@.subrange(cursor as int, buf@.len() as int);
        let len = read_le32(buf, cursor);
        let sum = read_le32(buf, cursor + 4);
        assert(rest.subrange(0, 4) =~= buf@.subrange(cursor as int, cursor + 4));
        assert(rest.subrange(4, 8) =~= buf@.subrange(cursor + 4, cursor + 8));
        let start = cursor + HEADER_LEN;
        if len as usize > buf.len() - start {
            assert(views(out@) + Seq::<Seq<u8>>::empty() =~= views(out@));
            break;
        }
        let end = start + len as usize;
        let payload = &buf[start..end];
        assert(rest.subrange(8, 8 + len) =~= payload@);
        if crc32(payload) != sum {
            assert(views(out@) + Seq::<Seq<u8>>::empty() =~= views(out@));
            break;
        }
        let mut copy: Vec<u8> = Vec::new();
        copy.extend_from_slice(payload);
        assert(copy@ =~= payload@);
        proof {
            let next = buf@.subrange(end as int, buf@.len() as int);
            assert(rest.subrange(8 + len, rest.len() as int) =~= next);
            assert(views(out@.push(copy)) =~= views(out@).push(payload@));
            assert(views(out@).push(payload@) + scan(next) =~= views(out@) + (seq![payload@] + scan(next)));
        }
        out.push(copy);
        cursor = end;
    }
    out
}

} // verus!
