use durable_log::record::{push_le32, read_le32, HEADER_LEN};
use durable_log::{encode_record, scan_payloads};

fn log_of(payloads: &[&[u8]]) -> Vec<u8> {
    let mut log = Vec::new();
    for p in payloads {
        log.extend_from_slice(&encode_record(p));
    }
    log
}

#[test]
fn record_of_abc_has_length_and_crc_header() {
    let r = encode_record(b"abc");
    assert_eq!(r, vec![3, 0, 0, 0, 0xC2, 0x41, 0x24, 0x35, b'a', b'b', b'c']);
}

#[test]
fn record_of_empty_payload_is_a_zero_header() {
    assert_eq!(encode_record(b""), vec![0u8; 8]);
}

#[test]
fn le32_reads_and_writes_little_endian() {
    let mut out = vec![9u8];
    push_le32(&mut out, 0x1234_5678);
    assert_eq!(out, vec![9, 0x78, 0x56, 0x34, 0x12]);
    assert_eq!(read_le32(&out, 1), 0x1234_5678);
    assert_eq!(HEADER_LEN, 8);
}

#[test]
fn round_trip_keeps_payloads_in_order() {
    let payloads: Vec<&[u8]> = vec![b"first", b"", b"third record", &[0u8, 255, 7]];
    let log = log_of(&payloads);
    let back = scan_payloads(&log);
    let expected: Vec<Vec<u8>> = payloads.iter().map(|p| p.to_vec()).collect();
    assert_eq!(back, expected);
}

#[test]
fn empty_log_reads_as_no_records() {
    assert!(scan_payloads(&[]).is_empty());
}

#[test]
fn short_tail_below_a_header_is_ignored() {
    let mut log = log_of(&[b"one"]);
    log.extend_from_slice(&[1, 2, 3]);
    assert_eq!(scan_payloads(&log), vec![b"one".to_vec()]);
}

#[test]
fn truncation_inside_any_record_keeps_the_earlier_ones() {
    let payloads: Vec<&[u8]> = vec![b"alpha", b"beta", b"gamma"];
    let mut start = 0;
    for k in 0..payloads.len() {
        let len = HEADER_LEN + payloads[k].len();
        let log = log_of(&payloads);
        for cut in start..start + len {
            let back = scan_payloads(&log[..cut]);
            let expected: Vec<Vec<u8>> = payloads[..k].iter().map(|p| p.to_vec()).collect();
            assert_eq!(back, expected, "cut at {}", cut);
        }
        start += len;
    }
}

#[test]
fn any_flipped_bit_in_payload_or_checksum_drops_the_rest() {
    let payloads: Vec<&[u8]> = vec![b"alpha", b"beta", b"gamma"];
    let log = log_of(&payloads);
    let k = 1;
    let start = HEADER_LEN + payloads[0].len();
    let end = start + HEADER_LEN + payloads[k].len();
    for at in start + 4..end {
        for bit in 0..8 {
            let mut damaged = log.clone();
            damaged[at] ^= 1 << bit;
            assert_eq!(scan_payloads(&damaged), vec![b"alpha".to_vec()], "byte {} bit {}", at, bit);
        }
    }
}

#[test]
fn flipped_length_bit_never_costs_earlier_records() {
    let payloads: Vec<&[u8]> = vec![b"alpha", b"beta", b"gamma"];
    let log = log_of(&payloads);
    let start = HEADER_LEN + payloads[0].len();
    for at in start..start + 4 {
        for bit in 0..8 {
            let mut damaged = log.clone();
            damaged[at] ^= 1 << bit;
            let back = scan_payloads(&damaged);
            assert_eq!(back[0], b"alpha".to_vec());
            assert_eq!(back.len(), 1);
        }
    }
}

#[test]
fn checksum_mismatch_stops_the_scan() {
    let mut log = log_of(&[b"x", b"y"]);
    log[4] ^= 0xFF;
    assert!(scan_payloads(&log).is_empty());
}

#[test]
fn flipped_length_bit_that_overruns_the_buffer_drops_the_record() {
    let payloads: Vec<&[u8]> = vec![b"alpha", b"beta"];
    let mut log = log_of(&payloads);
    let start = HEADER_LEN + payloads[0].len();
    log[start + 3] ^= 0x80;
    assert_eq!(scan_payloads(&log), vec![b"alpha".to_vec()]);
}
