//! What holds of the record format as a whole.
use crate::endian;
use crate::wal::header::{self, RecordView, WAL_HEADER_SIZE, WAL_MAGIC, WAL_VERSION};
use vstd::prelude::*;

verus! {

/// A record that the log can hold: IPv4 addresses, and a payload whose length has a place in the
/// header.
pub open spec fn storable(r: RecordView) -> bool {
    &&& r.src_ip.len() == 4
    &&& r.dst_ip.len() == 4
    &&& r.payload.len() < 0x1_0000_0000
}

/// The addresses of a record are IPv4 addresses.
pub open spec fn has_addresses(r: RecordView) -> bool {
    r.src_ip.len() == 4 && r.dst_ip.len() == 4
}

/// What the log keeps of a record: one byte of `proto`, and of the flags DEGRADED as given and
/// TRUNCATED as the two lengths say.
pub open spec fn recorded(r: RecordView) -> RecordView {
    RecordView {
        flags: header::flag_bits(
            header::has_degraded(r.flags),
            r.orig_payload_len > r.payload.len(),
        ),
        proto: r.proto % 0x100,
        ..r
    }
}

/// The bytes of records written one behind the other.
pub open spec fn log_bytes(rs: Seq<RecordView>) -> Seq<u8>
    decreases rs.len(),
{
    if rs.len() == 0 {
        Seq::empty()
    } else {
        header::encoded(rs[0]) + log_bytes(rs.drop_first())
    }
}

/// The bytes that records take in the log: 64 and the payload length for each.
pub open spec fn log_size(rs: Seq<RecordView>) -> int
    decreases rs.len(),
{
    if rs.len() == 0 {
        0
    } else {
        WAL_HEADER_SIZE + rs[0].payload.len() + log_size(rs.drop_first())
    }
}

/// Where each field of an encoded record stands.
pub proof fn lemma_layout(r: RecordView)
    requires
        storable(r),
    ensures
        ({
            let e = header::encoded(r);
            let crc = header::record_crc(e);
            &&& e.len() == WAL_HEADER_SIZE + r.payload.len()
            &&& e.subrange(0, 2) == endian::be16(WAL_MAGIC)
            &&& e[2] == WAL_VERSION
            &&& e[3] == r.tcp_flags
            &&& e.subrange(4, 8) == endian::be32(crc)
            &&& e.subrange(8, 16) == endian::be64(r.timestamp_ns)
            &&& e.subrange(16, 20) == r.src_ip
            &&& e.subrange(20, 24) == r.dst_ip
            &&& e.subrange(24, 26) == endian::be16(r.src_port)
            &&& e.subrange(26, 28) == endian::be16(r.dst_port)
            &&& e[28] == r.proto % 0x100
            &&& e.subrange(29, 33) == endian::be32(r.tcp_seq)
            &&& e.subrange(33, 37) == endian::be32(r.tcp_ack)
            &&& e.subrange(37, 39) == endian::be16(r.window_size)
            &&& e[39] == if header::has_degraded(r.flags) { 1u8 } else { 0u8 }
            &&& e.subrange(56, 60) == endian::be32(r.payload.len() as u32)
            &&& e.subrange(60, 64) == endian::be32(r.orig_payload_len)
            &&& e.subrange(64, e.len() as int) == r.payload
        }),
{
    reveal(header::encoded);
    header::lemma_header_len(r);
    let e = header::encoded(r);
    let front = header::header_front(r);
    let back = header::header_back(r);
    assert(e.subrange(0, 4) =~= front);
    assert(e.subrange(8, e.len() as int) =~= back + r.payload);
    assert(e.subrange(0, 4) + e.subrange(8, e.len() as int) =~= front + back + r.payload);
    assert(e.subrange(4, 8) =~= endian::be32(header::record_crc(e)));
    assert(e.subrange(0, 2) =~= front.subrange(0, 2));
    assert(e[2] == front[2]);
    assert(e[3] == front[3]);
    assert(front.subrange(0, 2) =~= endian::be16(WAL_MAGIC) && front[2] == WAL_VERSION
        && front[3] == r.tcp_flags) by {
        reveal(header::header_front);
    }
    assert forall|from: int, to: int| 8 <= from <= to <= 64 implies #[trigger] e.subrange(from, to)
        == back.subrange(from - 8, to - 8) by {
        assert(e.subrange(from, to) =~= back.subrange(from - 8, to - 8));
    }
    assert(e[28] == back[20]);
    assert(e[39] == back[31]);
    lemma_back_layout(r);
    assert(e.subrange(64, e.len() as int) =~= r.payload);
}

/// Where each field behind the checksum stands, counted from the checksum on.
proof fn lemma_back_layout(r: RecordView)
    requires
        storable(r),
    ensures
        ({
            let b = header::header_back(r);
            &&& b.subrange(0, 8) == endian::be64(r.timestamp_ns)
            &&& b.subrange(8, 12) == r.src_ip
            &&& b.subrange(12, 16) == r.dst_ip
            &&& b.subrange(16, 18) == endian::be16(r.src_port)
            &&& b.subrange(18, 20) == endian::be16(r.dst_port)
            &&& b[20] == r.proto % 0x100
            &&& b.subrange(21, 25) == endian::be32(r.tcp_seq)
            &&& b.subrange(25, 29) == endian::be32(r.tcp_ack)
            &&& b.subrange(29, 31) == endian::be16(r.window_size)
            &&& b[31] == if header::has_degraded(r.flags) { 1u8 } else { 0u8 }
            &&& b.subrange(48, 52) == endian::be32(r.payload.len() as u32)
            &&& b.subrange(52, 56) == endian::be32(r.orig_payload_len)
        }),
{
    reveal(header::header_back);
    let b = header::header_back(r);
    assert(b.subrange(0, 8) =~= endian::be64(r.timestamp_ns));
    assert(b.subrange(8, 12) =~= r.src_ip);
    assert(b.subrange(12, 16) =~= r.dst_ip);
    assert(b.subrange(16, 18) =~= endian::be16(r.src_port));
    assert(b.subrange(18, 20) =~= endian::be16(r.dst_port));
    assert(b.subrange(21, 25) =~= endian::be32(r.tcp_seq));
    assert(b.subrange(25, 29) =~= endian::be32(r.tcp_ack));
    assert(b.subrange(29, 31) =~= endian::be16(r.window_size));
    assert(b.subrange(48, 52) =~= endian::be32(r.payload.len() as u32));
    assert(b.subrange(52, 56) =~= endian::be32(r.orig_payload_len));
}

/// Reading depends only on the bytes from the reading position on.
proof fn lemma_read_from(buf: Seq<u8>, pos: int)
    requires
        0 <= pos <= buf.len(),
    ensures
        header::valid_at(buf, pos) == header::valid_at(
            buf.subrange(pos, buf.len() as int),
            0,
        ),
        header::valid_at(buf, pos) ==> header::record_at(buf, pos)
            == header::record_at(buf.subrange(pos, buf.len() as int), 0)
            && header::record_end(buf, pos) == pos + header::record_end(
            buf.subrange(pos, buf.len() as int),
            0,
        ),
{
    let t = buf.subrange(pos, buf.len() as int);
    if pos + WAL_HEADER_SIZE <= buf.len() {
        assert(forall|i: int| 0 <= i < 64 ==> #[trigger] t[i] == buf[pos + i]);
        let end = header::record_end(t, 0);
        assert(header::record_end(buf, pos) == pos + end);
        if end <= t.len() {
            assert(t.subrange(0, end) =~= buf.subrange(pos, pos + end));
            assert(t.subrange(16, 20) =~= buf.subrange(pos + 16, pos + 20));
            assert(t.subrange(20, 24) =~= buf.subrange(pos + 20, pos + 24));
            assert(t.subrange(64, end) =~= buf.subrange(pos + 64, pos + end));
            assert(header::record_at(buf, pos) =~= header::record_at(t, 0));
        }
    }
}

/// A written record reads back: wherever a storable record stands between other bytes, a whole
/// record is found there, it says what the log keeps of the one that was written, and reading goes
/// on right behind it.
pub proof fn law_record_reads_back(before: Seq<u8>, r: RecordView, after: Seq<u8>)
    requires
        storable(r),
    ensures
        ({
            let buf = before + header::encoded(r) + after;
            let pos = before.len() as int;
            &&& header::valid_at(buf, pos)
            &&& header::record_at(buf, pos) == recorded(r)
            &&& header::record_end(buf, pos) == pos + header::encoded(
                r,
            ).len()
        }),
{
    let e = header::encoded(r);
    let buf = before + e + after;
    let pos = before.len() as int;
    let t = e + after;
    assert(buf.subrange(pos, buf.len() as int) =~= t);
    lemma_read_from(buf, pos);
    lemma_layout(r);
    assert forall|from: int, to: int| 0 <= from <= to <= 64 implies #[trigger] t.subrange(from, to)
        == e.subrange(from, to) by {
        assert(t.subrange(from, to) =~= e.subrange(from, to));
    }
    endian::lemma_value16(t, 0, WAL_MAGIC);
    endian::lemma_value32(t, 4, header::record_crc(e));
    endian::lemma_value64(t, 8, r.timestamp_ns);
    endian::lemma_value16(t, 24, r.src_port);
    endian::lemma_value16(t, 26, r.dst_port);
    endian::lemma_value32(t, 29, r.tcp_seq);
    endian::lemma_value32(t, 33, r.tcp_ack);
    endian::lemma_value16(t, 37, r.window_size);
    endian::lemma_value32(t, 56, r.payload.len() as u32);
    endian::lemma_value32(t, 60, r.orig_payload_len);
    assert(t[2] == e[2] && t[3] == e[3] && t[28] == e[28] && t[39] == e[39]);
    assert(header::record_end(t, 0) == e.len());
    assert(t.subrange(0, e.len() as int) =~= e);
    assert(t.subrange(64, e.len() as int) =~= e.subrange(64, e.len() as int));
    assert(header::record_at(t, 0) =~= recorded(r));
}

/// What the log keeps of a record, it keeps unchanged when that is written again.
pub proof fn law_recorded_is_stable(r: RecordView)
    ensures
        recorded(recorded(r)) == recorded(r),
{
    header::lemma_flag_bits(
        header::has_degraded(r.flags),
        r.orig_payload_len > r.payload.len(),
    );
}

/// Behind `before`, the records of a log are found one by one, up to the tail.
proof fn lemma_stream(before: Seq<u8>, rs: Seq<RecordView>, tail: Seq<u8>)
    requires
        forall|i: int| 0 <= i < rs.len() ==> storable(#[trigger] rs[i]),
        !header::valid_at(tail, 0),
    ensures
        ({
            let buf = before + log_bytes(rs) + tail;
            let pos = before.len() as int;
            &&& header::stream_records(buf, pos) == rs.map_values(
                |r: RecordView| recorded(r),
            )
            &&& header::stream_end(buf, pos) == pos + log_bytes(rs).len()
        }),
    decreases rs.len(),
{
    let buf = before + log_bytes(rs) + tail;
    let pos = before.len() as int;
    if rs.len() == 0 {
        assert(buf.subrange(pos, buf.len() as int) =~= tail);
        lemma_read_from(buf, pos);
        assert(header::stream_records(buf, pos) =~= rs.map_values(
            |r: RecordView| recorded(r),
        ));
    } else {
        let e = header::encoded(rs[0]);
        let rest = rs.drop_first();
        assert(forall|i: int| 0 <= i < rest.len() ==> #[trigger] rest[i] == rs[i + 1]);
        lemma_stream(before + e, rest, tail);
        assert(buf =~= before + e + log_bytes(rest) + tail);
        assert(buf =~= before + e + (log_bytes(rest) + tail));
        law_record_reads_back(before, rs[0], log_bytes(rest) + tail);
        assert(header::stream_records(buf, pos) =~= seq![recorded(rs[0])]
            + rest.map_values(|r: RecordView| recorded(r)));
        assert(seq![recorded(rs[0])] + rest.map_values(|r: RecordView| recorded(r))
            =~= rs.map_values(|r: RecordView| recorded(r)));
    }
}

/// A log reads back: of records written one behind the other and followed by bytes at which no
/// whole record stands, reading the stream gives every record in order and leaves exactly those
/// bytes.
pub proof fn law_log_reads_back(rs: Seq<RecordView>, tail: Seq<u8>)
    requires
        forall|i: int| 0 <= i < rs.len() ==> storable(#[trigger] rs[i]),
        !header::valid_at(tail, 0),
    ensures
        header::stream_records(log_bytes(rs) + tail, 0) == rs.map_values(
            |r: RecordView| recorded(r),
        ),
        (log_bytes(rs) + tail).len() - header::stream_end(log_bytes(rs) + tail, 0)
            == tail.len(),
{
    lemma_stream(Seq::empty(), rs, tail);
    assert(Seq::<u8>::empty() + log_bytes(rs) + tail =~= log_bytes(rs) + tail);
}

/// The log only grows at its end: one more record appends its bytes to those of the others.
pub proof fn law_log_grows_at_its_end(rs: Seq<RecordView>, r: RecordView)
    ensures
        log_bytes(rs.push(r)) == log_bytes(rs) + header::encoded(r),
    decreases rs.len(),
{
    let longer = rs.push(r);
    if rs.len() == 0 {
        assert(longer.drop_first() =~= rs);
        assert(log_bytes(longer) =~= log_bytes(rs) + header::encoded(r));
    } else {
        assert(longer.drop_first() =~= rs.drop_first().push(r));
        law_log_grows_at_its_end(rs.drop_first(), r);
        assert(log_bytes(longer) =~= log_bytes(rs) + header::encoded(r));
    }
}

/// A record that was cut short anywhere is not taken for a whole one.
pub proof fn law_torn_record_is_not_read(r: RecordView, n: int)
    requires
        storable(r),
        0 <= n < header::encoded(r).len(),
    ensures
        !header::valid_at(header::encoded(r).take(n), 0),
{
    let e = header::encoded(r);
    let t = e.take(n);
    lemma_layout(r);
    if n >= WAL_HEADER_SIZE {
        assert(t.subrange(56, 60) =~= e.subrange(56, 60));
        endian::lemma_value32(t, 56, r.payload.len() as u32);
    }
}

/// A record that was damaged, in however many places but its payload length, is read only if its
/// checks agree: damage to magic or version is never read; damage to the stored checksum alone is
/// never read; and where the stored checksum is whole, the rest is read only if its checksum is that
/// of the record.
#[verifier::rlimit(60)]
#[verifier::spinoff_prover]
pub proof fn law_damage_is_read_only_by_equal_checksums(r: RecordView, t: Seq<u8>)
    requires
        storable(r),
        t.len() == header::encoded(r).len(),
        t.subrange(56, 60) == header::encoded(r).subrange(56, 60),
        header::valid_at(t, 0),
    ensures
        t.subrange(0, 3) == header::encoded(r).subrange(0, 3),
        header::checked_bytes(t) == header::checked_bytes(header::encoded(r)) ==> t
            == header::encoded(r),
        t.subrange(4, 8) == header::encoded(r).subrange(4, 8) ==> header::record_crc(t)
            == header::record_crc(header::encoded(r)),
{
    let e = header::encoded(r);
    law_record_reads_back(Seq::empty(), r, Seq::empty());
    assert(Seq::<u8>::empty() + e + Seq::<u8>::empty() =~= e);
    lemma_layout(r);
    assert forall|i: int| 56 <= i < 60 implies t[i] == e[i] by {
        assert(t.subrange(56, 60)[i - 56] == e.subrange(56, 60)[i - 56]);
    }
    assert(t.subrange(0, t.len() as int) =~= t);
    assert(e.subrange(0, e.len() as int) =~= e);
    assert(t.subrange(0, 3) =~= e.subrange(0, 3));
    if t.subrange(4, 8) == e.subrange(4, 8) {
        assert forall|i: int| 4 <= i < 8 implies t[i] == e[i] by {
            assert(t.subrange(4, 8)[i - 4] == e.subrange(4, 8)[i - 4]);
        }
    }
    let a = header::checked_bytes(t);
    let b = header::checked_bytes(e);
    if a == b {
        assert forall|i: int| 0 <= i < t.len() implies t[i] == e[i] by {
            if i < 4 {
                assert(a[i] == t[i] && b[i] == e[i]);
            } else if i >= 8 {
                assert(a[i - 4] == t[i] && b[i - 4] == e[i]);
            }
        }
        assert(t =~= e);
    }
}

/// A crash in the middle of a write loses at most the record being written: the stream gives every
/// record before it and leaves its torn bytes.
pub proof fn law_crash_loses_only_the_torn_record(rs: Seq<RecordView>, last: RecordView, n: int)
    requires
        forall|i: int| 0 <= i < rs.len() ==> storable(#[trigger] rs[i]),
        storable(last),
        0 <= n < header::encoded(last).len(),
    ensures
        ({
            let buf = log_bytes(rs) + header::encoded(last).take(n);
            &&& header::stream_records(buf, 0) == rs.map_values(
                |r: RecordView| recorded(r),
            )
            &&& buf.len() - header::stream_end(buf, 0) == n
        }),
{
    law_torn_record_is_not_read(last, n);
    law_log_reads_back(rs, header::encoded(last).take(n));
}

/// The records of a stream and what is left of it account for every byte: each record takes 64
/// bytes and its payload length.
pub proof fn law_stream_accounts_for_every_byte(buf: Seq<u8>, pos: int)
    requires
        0 <= pos <= buf.len(),
    ensures
        pos + log_size(header::stream_records(buf, pos))
            == header::stream_end(buf, pos),
        header::stream_end(buf, pos) <= buf.len(),
    decreases buf.len() - pos,
{
    if header::valid_at(buf, pos) {
        let next = header::record_end(buf, pos);
        law_stream_accounts_for_every_byte(buf, next);
        let rs = header::stream_records(buf, pos);
        assert(rs.drop_first() =~= header::stream_records(buf, next));
    }
}

/// Records take 64 bytes and their payload each, in the log as in what is counted of it.
pub proof fn law_log_takes_its_size(rs: Seq<RecordView>)
    requires
        forall|i: int| 0 <= i < rs.len() ==> has_addresses(#[trigger] rs[i]),
    ensures
        log_size(rs) == log_bytes(rs).len(),
        rs.len() > 0 ==> log_bytes(rs).len() == 64 + rs[0].payload.len() + log_bytes(
            rs.drop_first(),
        ).len(),
    decreases rs.len(),
{
    if rs.len() > 0 {
        assert(has_addresses(rs[0]));
        header::lemma_header_len(rs[0]);
        assert forall|i: int| 0 <= i < rs.drop_first().len() implies has_addresses(
            #[trigger] rs.drop_first()[i],
        ) by {
            assert(has_addresses(rs[i + 1]));
        }
        law_log_takes_its_size(rs.drop_first());
    }
}

} // verus!
