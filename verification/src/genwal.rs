//! Generated logs: records of made-up requests for a receiver to work on.
use crate::text::{self, push_decimal, push_decimal4};
use crate::wal::header::{RecordView, WalRecord, TCP_ACK, TCP_SYN};
use crate::wal::{laws, rotate};
use vstd::prelude::*;
use vstd::string::{StrSliceExecFns, StringExecFns};

verus! {

/// The time of the first generated record.
pub const FIRST_TIMESTAMP: u64 = 1_700_000_000_000;

/// The number of records in a generated log.
pub const GENERATED_RECORDS: u32 = 50;

/// The number of records in a generated segment whose records occur in no other.
pub const DISTINCT_RECORDS: u32 = 200;

/// The request in the `i`th record of a generated log.
pub open spec fn request_text(i: u32) -> Seq<char> {
    "GET /api/orders/"@ + text::decimal(i as nat)
        + " HTTP/1.1\r\nHost: api.example.com\r\n"@
}

/// The `i`th record of a generated log.
pub open spec fn generated(i: u32) -> RecordView {
    let payload = vstd::utf8::encode_utf8(request_text(i));
    RecordView {
        timestamp_ns: (FIRST_TIMESTAMP + i) as u64,
        flags: 0,
        tcp_flags: TCP_SYN,
        tcp_seq: 0,
        tcp_ack: 0,
        window_size: 0,
        src_ip: seq![192, 168, 1, 10],
        dst_ip: seq![10, 0, 0, 1],
        src_port: 12345,
        dst_port: 443,
        proto: 6,
        orig_payload_len: payload.len() as u32,
        payload,
    }
}

/// The request in the `i`th record of a generated segment.
pub open spec fn distinct_text(segno: u64, i: u32) -> Seq<char> {
    "POST /api/orders/"@ + text::decimal(i as nat) + " HTTP/1.1\r\nHost: seg"@ + text::decimal(
        segno as nat,
    ) + "-example.com\r\nContent-Length: 64\r\nX-Test: distinct-"@ + text::decimal(segno as nat)
        + "-"@ + text::decimal(i as nat) + "\r\n\r\n{}"@
}

/// The `i`th record of a generated segment: its time, its source address and its source port tell
/// the segment.
pub open spec fn distinct(segno: u64, i: u32) -> RecordView {
    let payload = vstd::utf8::encode_utf8(distinct_text(segno, i));
    RecordView {
        timestamp_ns: (FIRST_TIMESTAMP + segno * 1000 + i) as u64,
        flags: 0,
        tcp_flags: TCP_ACK,
        tcp_seq: 0,
        tcp_ack: 0,
        window_size: 0,
        src_ip: seq![10, 0, 0, (segno % 0x100) as u8],
        dst_ip: seq![10, 0, 1, 1],
        src_port: (10000 + segno % 0x1_0000) as u16,
        dst_port: 8080,
        proto: 6,
        orig_payload_len: payload.len() as u32,
        payload,
    }
}

/// Time and source port of the segment's records can be represented.
pub open spec fn is_segno(segno: u64) -> bool {
    &&& FIRST_TIMESTAMP + segno * 1000 + (DISTINCT_RECORDS - 1) <= u64::MAX
    &&& 10000 + segno % 0x1_0000 <= u16::MAX
}

/// Time and source port of the segment's records can be represented.
pub fn accepts_segno(segno: u64) -> (r: bool)
    ensures
        r == is_segno(segno),
{
    FIRST_TIMESTAMP as u128 + segno as u128 * 1000 + (DISTINCT_RECORDS - 1) as u128
        <= u64::MAX as u128 && 10000 + segno % 0x1_0000 <= u16::MAX as u64
}

/// The path of the segment with a number in a directory.
pub fn wal_path(dir: &str, segno: u64) -> (r: String)
    ensures
        r@ == dir@ + "/"@ + rotate::segment_name(segno),
{
    let mut path: String = String::from_str(dir);
    path.append("/");
    let ghost front = path@;
    path.append("segment_");
    push_decimal4(&mut path, segno);
    path.append(".wal");
    assert(path@ =~= front + rotate::segment_name(segno));
    path
}

/// The `i`th record of a generated log.
fn generated_record(i: u32) -> (r: WalRecord)
    requires
        i < GENERATED_RECORDS,
    ensures
        r@ == generated(i),
{
    let mut request: String = String::from_str("GET /api/orders/");
    push_decimal(&mut request, i as u64);
    request.append(" HTTP/1.1\r\nHost: api.example.com\r\n");
    let payload: Vec<u8> = request.as_str().as_bytes_vec();
    let r = WalRecord {
        timestamp_ns: FIRST_TIMESTAMP + i as u64,
        flags: 0,
        tcp_flags: TCP_SYN,
        tcp_seq: 0,
        tcp_ack: 0,
        window_size: 0,
        src_ip: [192, 168, 1, 10],
        dst_ip: [10, 0, 0, 1],
        src_port: 12345,
        dst_port: 443,
        proto: 6,
        orig_payload_len: payload.len() as u32,
        payload,
    };
    assert(r@.src_ip =~= generated(i).src_ip);
    assert(r@.dst_ip =~= generated(i).dst_ip);
    r
}

/// A generated log.
pub fn genwal() -> (r: Vec<u8>)
    ensures
        r@ == laws::log_bytes(
            Seq::new(GENERATED_RECORDS as nat, |i: int| generated(i as u32)),
        ),
{
    let mut log: Vec<u8> = Vec::new();
    let ghost all = Seq::new(GENERATED_RECORDS as nat, |i: int| generated(i as u32));
    assert(all.take(0) =~= Seq::<RecordView>::empty());
    let mut i: u32 = 0;
    while i < GENERATED_RECORDS
        invariant
            i <= GENERATED_RECORDS,
            all == Seq::new(GENERATED_RECORDS as nat, |i: int| generated(i as u32)),
            log@ == laws::log_bytes(all.take(i as int)),
        decreases GENERATED_RECORDS - i,
    {
        generated_record(i).encode(&mut log);
        proof {
            assert(all.take(i + 1) =~= all.take(i as int).push(generated(i)));
            laws::law_log_grows_at_its_end(all.take(i as int), generated(i));
        }
        i = i + 1;
    }
    assert(all.take(i as int) =~= all);
    log
}

/// The `i`th record of a generated segment.
fn distinct_record(segno: u64, i: u32) -> (r: WalRecord)
    requires
        is_segno(segno),
        i < DISTINCT_RECORDS,
    ensures
        r@ == distinct(segno, i),
{
    let mut request: String = String::from_str("POST /api/orders/");
    push_decimal(&mut request, i as u64);
    request.append(" HTTP/1.1\r\nHost: seg");
    push_decimal(&mut request, segno);
    request.append("-example.com\r\nContent-Length: 64\r\nX-Test: distinct-");
    push_decimal(&mut request, segno);
    request.append("-");
    push_decimal(&mut request, i as u64);
    request.append("\r\n\r\n{}");
    let payload: Vec<u8> = request.as_str().as_bytes_vec();
    let r = WalRecord {
        timestamp_ns: FIRST_TIMESTAMP + segno * 1000 + i as u64,
        flags: 0,
        tcp_flags: TCP_ACK,
        tcp_seq: 0,
        tcp_ack: 0,
        window_size: 0,
        src_ip: [10, 0, 0, (segno % 0x100) as u8],
        dst_ip: [10, 0, 1, 1],
        src_port: (10000 + segno % 0x1_0000) as u16,
        dst_port: 8080,
        proto: 6,
        orig_payload_len: payload.len() as u32,
        payload,
    };
    assert(r@.src_ip =~= distinct(segno, i).src_ip);
    assert(r@.dst_ip =~= distinct(segno, i).dst_ip);
    r
}

/// A generated segment, whose records occur in no segment with another number.
pub fn genwal_distinct(segno: u64) -> (r: Vec<u8>)
    requires
        is_segno(segno),
    ensures
        r@ == laws::log_bytes(
            Seq::new(DISTINCT_RECORDS as nat, |i: int| distinct(segno, i as u32)),
        ),
{
    let mut log: Vec<u8> = Vec::new();
    let ghost all = Seq::new(DISTINCT_RECORDS as nat, |i: int| distinct(segno, i as u32));
    assert(all.take(0) =~= Seq::<RecordView>::empty());
    let mut i: u32 = 0;
    while i < DISTINCT_RECORDS
        invariant
            is_segno(segno),
            i <= DISTINCT_RECORDS,
            all == Seq::new(DISTINCT_RECORDS as nat, |i: int| distinct(segno, i as u32)),
            log@ == laws::log_bytes(all.take(i as int)),
        decreases DISTINCT_RECORDS - i,
    {
        distinct_record(segno, i).encode(&mut log);
        proof {
            assert(all.take(i + 1) =~= all.take(i as int).push(distinct(segno, i)));
            laws::law_log_grows_at_its_end(all.take(i as int), distinct(segno, i));
        }
        i = i + 1;
    }
    assert(all.take(i as int) =~= all);
    log
}

/// A generated log has 50 records, one nanosecond apart, each with a whole request in which its number
/// stands, from one address and port to another.
pub proof fn law_generated_records(i: u32)
    requires
        i < 50,
    ensures
        GENERATED_RECORDS == 50,
        generated(i).timestamp_ns == 1_700_000_000_000 + i,
        generated(i).payload == vstd::utf8::encode_utf8(
            "GET /api/orders/"@ + text::decimal(i as nat)
                + " HTTP/1.1\r\nHost: api.example.com\r\n"@,
        ),
        generated(i).orig_payload_len == generated(i).payload.len() as u32,
        generated(i).src_ip == seq![192u8, 168, 1, 10],
        generated(i).dst_ip == seq![10u8, 0, 0, 1],
        generated(i).src_port == 12345,
        generated(i).dst_port == 443,
        generated(i).proto == 6,
        generated(i).tcp_flags == 0x02,
        generated(i).flags == 0,
{
}

/// Generated segments share no record: two records of segments with different numbers, or at different
/// places of one, differ in their time. Their source addresses and ports tell the segments apart too.
pub proof fn law_generated_segments_share_no_record(a: u64, i: u32, b: u64, j: u32)
    requires
        is_segno(a),
        is_segno(b),
        i < 200,
        j < 200,
    ensures
        DISTINCT_RECORDS == 200,
        distinct(a, i).timestamp_ns == 1_700_000_000_000 + 1000 * a + i,
        distinct(a, i).src_port == 10000 + a % 0x1_0000,
        distinct(a, i).src_ip == seq![10u8, 0, 0, (a % 0x100) as u8],
        distinct(a, i).dst_ip == seq![10u8, 0, 1, 1],
        distinct(a, i).dst_port == 8080,
        distinct(a, i).proto == 6,
        distinct(a, i).tcp_flags == 0x10,
        distinct(a, i).orig_payload_len == distinct(a, i).payload.len() as u32,
        distinct(a, i).payload == vstd::utf8::encode_utf8(
            "POST /api/orders/"@ + text::decimal(i as nat) + " HTTP/1.1\r\nHost: seg"@
                + text::decimal(a as nat)
                + "-example.com\r\nContent-Length: 64\r\nX-Test: distinct-"@ + text::decimal(
                a as nat,
            ) + "-"@ + text::decimal(i as nat) + "\r\n\r\n{}"@,
        ),
        distinct(a, i) == distinct(b, j) ==> a == b && i == j,
{
}

/// A segment number is accepted exactly if the time of its last record fits in 64 bits and its source
/// port in 16.
pub proof fn law_segment_numbers_that_are_accepted(segno: u64)
    ensures
        is_segno(segno) <==> 1_700_000_000_199 + 1000 * segno <= 0xffff_ffff_ffff_ffff && segno
            % 0x1_0000 <= 55535,
{
}

} // verus!
