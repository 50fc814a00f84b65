use byteorder::{BigEndian, ByteOrder};
use sov_probe::wal::header::{
    crc32_of, make_flags, WalRecord, FLAG_DEGRADED, FLAG_TRUNCATED, TCP_ACK, TCP_SYN,
    WAL_HEADER_SIZE, WAL_MAGIC, WAL_VERSION,
};

fn sample_record() -> WalRecord {
    WalRecord {
        timestamp_ns: 1_700_000_000_123,
        flags: 0,
        tcp_flags: TCP_SYN | TCP_ACK,
        tcp_seq: 0x1A2B_3C4D,
        tcp_ack: 0x5566_7788,
        window_size: 4096,
        src_ip: [192, 168, 1, 10],
        dst_ip: [10, 0, 0, 1],
        src_port: 12345,
        dst_port: 443,
        proto: 6,
        orig_payload_len: 1000,
        payload: b"GET /api HTTP/1.1".to_vec(),
    }
}

fn encode_to_buf(rec: &WalRecord) -> Vec<u8> {
    let mut buf = Vec::new();
    rec.encode(&mut buf);
    buf
}

#[test]
fn header_roundtrip_v04() {
    let rec = sample_record();
    let buf = encode_to_buf(&rec);
    assert_eq!(buf.len(), WAL_HEADER_SIZE + rec.payload.len());
    // magic + version
    assert_eq!(BigEndian::read_u16(&buf[0..2]), WAL_MAGIC);
    assert_eq!(buf[2], WAL_VERSION);
    assert_eq!(buf[2], 0x04);
    let (records, _residual) = WalRecord::decode_stream(&buf);
    assert_eq!(records.len(), 1);
    let r = &records[0];
    assert_eq!(r.timestamp_ns, rec.timestamp_ns);
    assert_eq!(r.src_ip, [192, 168, 1, 10]);
    assert_eq!(r.dst_ip, [10, 0, 0, 1]);
    assert_eq!(r.dst_port, 443);
    assert_eq!(r.tcp_flags, TCP_SYN | TCP_ACK);
    assert_eq!(r.tcp_seq, 0x1A2B_3C4D);
    assert_eq!(r.tcp_ack, 0x5566_7788);
    assert_eq!(r.window_size, 4096);
    assert_eq!(r.orig_payload_len, 1000);
    assert_eq!(r.payload, rec.payload);
    // 1000 bytes on the wire and fewer kept: TRUNCATED
    assert_ne!(r.flags & FLAG_TRUNCATED, 0);
}

/// A wrong magic number is not read.
#[test]
fn reject_bad_magic() {
    let rec = sample_record();
    let mut buf = encode_to_buf(&rec);
    buf[0] ^= 0xFF;
    let (records, residual) = WalRecord::decode_stream(&buf);
    assert_eq!(records.len(), 0);
    assert_eq!(residual, buf.len());
}

/// A record of another version is not read.
#[test]
fn reject_wrong_version() {
    let rec = sample_record();
    let mut buf = encode_to_buf(&rec);
    buf[2] = 0x03;
    let (records, residual) = WalRecord::decode_stream(&buf);
    assert_eq!(records.len(), 0);
    assert_eq!(residual, buf.len());
}

/// A payload length beyond the end is not read.
#[test]
fn reject_bad_length() {
    let rec = sample_record();
    let mut buf = encode_to_buf(&rec);
    BigEndian::write_u32(&mut buf[56..60], 0xFFFF_FFFF);
    let (records, residual) = WalRecord::decode_stream(&buf);
    assert_eq!(records.len(), 0);
    assert_eq!(residual, buf.len());
}

/// A payload that was damaged is not read.
#[test]
fn reject_crc_mismatch() {
    let rec = sample_record();
    let mut buf = encode_to_buf(&rec);
    buf[WAL_HEADER_SIZE + 5] ^= 0x40;
    let (records, residual) = WalRecord::decode_stream(&buf);
    assert_eq!(records.len(), 0);
    assert_eq!(residual, buf.len());
}

/// The records before a damaged one are read.
#[test]
fn mixed_valid_and_corrupt() {
    let rec1 = sample_record();
    let rec2 = sample_record();
    let mut buf = Vec::new();
    rec1.encode(&mut buf);
    rec2.encode(&mut buf);
    let off2 = (WAL_HEADER_SIZE + rec1.payload.len()) + WAL_HEADER_SIZE;
    buf[off2 + 3] ^= 0xFF;
    let (records, residual) = WalRecord::decode_stream(&buf);
    assert_eq!(records.len(), 1);
    assert!(residual >= WAL_HEADER_SIZE + rec2.payload.len());
}

/// What is shorter than a record is left over.
#[test]
fn decode_stream_residual() {
    let rec = sample_record();
    let mut buf = encode_to_buf(&rec);
    buf.truncate(buf.len() - 20);
    let (records, residual) = WalRecord::decode_stream(&buf);
    assert_eq!(records.len(), 0);
    assert_eq!(residual, buf.len());
}

/// Every field stands at its offset, most significant byte first.
#[test]
fn header_layout_is_exact() {
    let mut rec = sample_record();
    rec.flags = FLAG_DEGRADED;
    rec.proto = 0x1_06;
    let buf = encode_to_buf(&rec);
    assert_eq!(&buf[0..2], &[0x53, 0x50]);
    assert_eq!(buf[3], 0x12);
    assert_eq!(&buf[8..16], &1_700_000_000_123u64.to_be_bytes());
    assert_eq!(&buf[16..20], &[192, 168, 1, 10]);
    assert_eq!(&buf[20..24], &[10, 0, 0, 1]);
    assert_eq!(&buf[24..26], &[0x30, 0x39]);
    assert_eq!(&buf[26..28], &[0x01, 0xBB]);
    assert_eq!(buf[28], 6);
    assert_eq!(&buf[29..33], &[0x1A, 0x2B, 0x3C, 0x4D]);
    assert_eq!(&buf[33..37], &[0x55, 0x66, 0x77, 0x88]);
    assert_eq!(&buf[37..39], &[0x10, 0x00]);
    assert_eq!(buf[39], 1);
    assert_eq!(&buf[40..56], &[0u8; 16]);
    assert_eq!(&buf[56..60], &[0, 0, 0, 17]);
    assert_eq!(&buf[60..64], &[0, 0, 0x03, 0xE8]);
    assert_eq!(&buf[64..], b"GET /api HTTP/1.1");
}

/// The checksum covers all but its own four bytes.
#[test]
fn checksum_leaves_itself_out() {
    let mut buf = encode_to_buf(&sample_record());
    let mut hasher = crc32fast::Hasher::new();
    hasher.update(&buf[0..4]);
    hasher.update(&buf[8..]);
    let crc = hasher.finalize();
    assert_eq!(BigEndian::read_u32(&buf[4..8]), crc);
    assert_eq!(crc32_of(&buf), crc);
    buf[5] ^= 0xFF;
    assert_eq!(crc32_of(&buf), crc);
    // the CRC-32 of "123456789" is the published check value
    assert_eq!(crc32_of(b"1234....56789"), 0xCBF4_3926);
}

/// No record is read of which one byte was damaged, wherever, but for its payload length.
#[test]
fn every_damaged_byte_is_seen() {
    let whole = encode_to_buf(&sample_record());
    for i in (0..whole.len()).filter(|i| !(56..60).contains(i)) {
        for bit in 0..8 {
            let mut buf = whole.clone();
            buf[i] ^= 1 << bit;
            assert!(WalRecord::try_decode(&buf, 0).is_none(), "byte {} bit {}", i, bit);
        }
        let mut buf = whole.clone();
        buf[i] = !buf[i];
        assert!(WalRecord::try_decode(&buf, 0).is_none(), "byte {}", i);
    }
    assert!(WalRecord::try_decode(&whole, 0).is_some());
}

/// A record is read at any position, and not where none stands.
#[test]
fn try_decode_at_a_position() {
    let rec = sample_record();
    let mut buf = vec![0u8; 7];
    rec.encode(&mut buf);
    let (r, next) = WalRecord::try_decode(&buf, 7).unwrap();
    assert_eq!(r.payload, rec.payload);
    assert_eq!(next, buf.len());
    assert!(WalRecord::try_decode(&buf, 0).is_none());
    assert!(WalRecord::try_decode(&buf, buf.len()).is_none());
    assert!(WalRecord::try_decode(&buf[..buf.len() - 1], 7).is_none());
}

/// The flags that were given are kept: DEGRADED as it was, TRUNCATED as the lengths say.
#[test]
fn flags_come_back() {
    assert_eq!(make_flags(false, false), 0);
    assert_eq!(make_flags(true, false), FLAG_DEGRADED);
    assert_eq!(make_flags(false, true), FLAG_TRUNCATED);
    assert_eq!(make_flags(true, true), FLAG_DEGRADED | FLAG_TRUNCATED);
    let mut rec = sample_record();
    rec.flags = FLAG_DEGRADED | FLAG_TRUNCATED;
    rec.orig_payload_len = rec.payload.len() as u32;
    let (records, _) = WalRecord::decode_stream(&encode_to_buf(&rec));
    assert_eq!(records[0].flags, FLAG_DEGRADED);
}

/// A log is read back record by record; a torn record at its end is left over.
#[test]
fn log_reads_back_up_to_the_torn_record() {
    let mut buf = Vec::new();
    for i in 0..5u64 {
        let mut rec = sample_record();
        rec.timestamp_ns = i;
        rec.payload = vec![i as u8; i as usize];
        rec.orig_payload_len = i as u32;
        rec.encode(&mut buf);
    }
    let whole = buf.len();
    sample_record().encode(&mut buf);
    for cut in [1usize, 63, 64, 80] {
        let (records, residual) = WalRecord::decode_stream(&buf[..whole + cut]);
        assert_eq!(records.len(), 5);
        assert_eq!(residual, cut);
        for (i, r) in records.iter().enumerate() {
            assert_eq!(r.timestamp_ns, i as u64);
            assert_eq!(r.payload, vec![i as u8; i]);
            assert_eq!(r.flags, 0);
        }
    }
}

/// Records of 64 bytes and their payload account for every byte.
#[test]
fn stream_accounts_for_its_bytes() {
    let mut buf = encode_to_buf(&sample_record());
    buf.extend_from_slice(&[1, 2, 3]);
    let (records, residual) = WalRecord::decode_stream(&buf);
    let used: usize = records.iter().map(|r| WAL_HEADER_SIZE + r.payload.len()).sum();
    assert_eq!(used + residual, buf.len());
    let (none, left) = WalRecord::decode_stream(&[]);
    assert!(none.is_empty());
    assert_eq!(left, 0);
}
