//! The bytes of a record, place by place, and what comes back of a record that was written.
use crate::endian;
use crate::wal::header::{self, RecordView};
use crate::wal::laws;
use vstd::prelude::*;

verus! {

/// Whether the lowest bit of a flag word is set.
proof fn lemma_lowest_bit(flags: u64)
    ensures
        header::has_degraded(flags) == (flags % 2 == 1),
{
    assert((flags & 1 != 0) == (flags % 2 == 1)) by (bit_vector);
}

/// The reserved bytes of a record are 0.
proof fn lemma_reserved(r: RecordView)
    requires
        r.src_ip.len() == 4,
        r.dst_ip.len() == 4,
    ensures
        forall|i: int| 40 <= i < 56 ==> #[trigger] header::encoded(r)[i] == 0,
{
    header::lemma_header_len(r);
    let e = header::encoded(r);
    let back = header::header_back(r);
    assert forall|i: int| 8 <= i < 64 implies #[trigger] e[i] == back[i - 8] by {
        reveal(header::encoded);
    }
    assert forall|i: int| 32 <= i < 48 implies #[trigger] back[i] == 0 by {
        reveal(header::header_back);
    }
}

/// Where each field of a record stands in its bytes: the magic 0x5350 at 0, the version 4 at 2, the
/// control bits at 3, the checksum of all other bytes at 4, and so on, with the payload from 64 on.
#[verifier::rlimit(60)]
#[verifier::spinoff_prover]
pub proof fn law_record_has_its_layout(r: RecordView)
    requires
        r.src_ip.len() == 4,
        r.dst_ip.len() == 4,
        r.payload.len() < 0x1_0000_0000,
    ensures
        ({
            let e = header::encoded(r);
            &&& e.len() == 64 + r.payload.len()
            &&& endian::value16(e, 0) == 0x5350
            &&& e[2] == 4
            &&& e[3] == r.tcp_flags
            &&& endian::value32(e, 4) == header::crc32_ieee(
                e.subrange(0, 4) + e.subrange(8, e.len() as int),
            )
            &&& endian::value64(e, 8) == r.timestamp_ns
            &&& e.subrange(16, 20) == r.src_ip
            &&& e.subrange(20, 24) == r.dst_ip
            &&& endian::value16(e, 24) == r.src_port
            &&& endian::value16(e, 26) == r.dst_port
            &&& e[28] == r.proto % 0x100
            &&& endian::value32(e, 29) == r.tcp_seq
            &&& endian::value32(e, 33) == r.tcp_ack
            &&& endian::value16(e, 37) == r.window_size
            &&& e[39] == r.flags % 2
            &&& forall|i: int| 40 <= i < 56 ==> #[trigger] e[i] == 0
            &&& endian::value32(e, 56) == r.payload.len()
            &&& endian::value32(e, 60) == r.orig_payload_len
            &&& e.subrange(64, e.len() as int) == r.payload
        }),
{
    let e = header::encoded(r);
    laws::lemma_layout(r);
    lemma_lowest_bit(r.flags);
    endian::lemma_value16(e, 0, header::WAL_MAGIC);
    endian::lemma_value32(e, 4, header::record_crc(e));
    endian::lemma_value64(e, 8, r.timestamp_ns);
    endian::lemma_value16(e, 24, r.src_port);
    endian::lemma_value16(e, 26, r.dst_port);
    endian::lemma_value32(e, 29, r.tcp_seq);
    endian::lemma_value32(e, 33, r.tcp_ack);
    endian::lemma_value16(e, 37, r.window_size);
    endian::lemma_value32(e, 56, r.payload.len() as u32);
    endian::lemma_value32(e, 60, r.orig_payload_len);
    lemma_reserved(r);
}

/// A whole record stands where its header and its stated payload fit, its magic is 0x5350, its version
/// 4, and the checksum it states is that of its other bytes; nothing else is asked of it. What is read
/// of it stands in its bytes.
pub proof fn law_record_is_read_where_it_stands(buf: Seq<u8>, pos: int)
    requires
        0 <= pos <= buf.len(),
    ensures
        header::valid_at(buf, pos) <==> {
            let end = pos + 64 + endian::value32(buf, pos + 56);
            &&& pos + 64 <= buf.len()
            &&& endian::value16(buf, pos) == 0x5350
            &&& buf[pos + 2] == 4
            &&& end <= buf.len()
            &&& endian::value32(buf, pos + 4) == header::crc32_ieee(
                buf.subrange(pos, pos + 4) + buf.subrange(pos + 8, end),
            )
        },
        header::valid_at(buf, pos) ==> {
            let r = header::record_at(buf, pos);
            let kept = endian::value32(buf, pos + 56);
            &&& header::record_end(buf, pos) == pos + 64 + kept
            &&& r.timestamp_ns == endian::value64(buf, pos + 8)
            &&& r.tcp_flags == buf[pos + 3]
            &&& r.tcp_seq == endian::value32(buf, pos + 29)
            &&& r.tcp_ack == endian::value32(buf, pos + 33)
            &&& r.window_size == endian::value16(buf, pos + 37)
            &&& r.src_ip == buf.subrange(pos + 16, pos + 20)
            &&& r.dst_ip == buf.subrange(pos + 20, pos + 24)
            &&& r.src_port == endian::value16(buf, pos + 24)
            &&& r.dst_port == endian::value16(buf, pos + 26)
            &&& r.proto == buf[pos + 28]
            &&& r.orig_payload_len == endian::value32(buf, pos + 60)
            &&& r.flags == buf[pos + 39] % 2 + (if endian::value32(buf, pos + 60) > kept {
                2int
            } else {
                0
            })
            &&& r.payload == buf.subrange(pos + 64, pos + 64 + kept)
        },
{
    let end = pos + 64 + endian::value32(buf, pos + 56);
    if pos + 64 <= buf.len() && end <= buf.len() {
        let rec = buf.subrange(pos, end);
        assert(rec.subrange(0, 4) =~= buf.subrange(pos, pos + 4));
        assert(rec.subrange(8, rec.len() as int) =~= buf.subrange(pos + 8, end));
    }
}

/// `read` is what the log keeps of `r`: everything as it was, but for the protocol, of which there is
/// room for one byte, and for the flags, of which DEGRADED is kept and TRUNCATED follows from the two
/// lengths.
pub open spec fn is_kept(r: RecordView, read: RecordView) -> bool {
    &&& read.timestamp_ns == r.timestamp_ns
    &&& read.tcp_flags == r.tcp_flags
    &&& read.tcp_seq == r.tcp_seq
    &&& read.tcp_ack == r.tcp_ack
    &&& read.window_size == r.window_size
    &&& read.src_ip == r.src_ip
    &&& read.dst_ip == r.dst_ip
    &&& read.src_port == r.src_port
    &&& read.dst_port == r.dst_port
    &&& read.proto == r.proto % 0x100
    &&& read.orig_payload_len == r.orig_payload_len
    &&& read.payload == r.payload
    &&& read.flags == r.flags % 2 + (if r.orig_payload_len > r.payload.len() {
        2int
    } else {
        0
    })
}

/// Every record that is written is read again, field by field, and nothing is lost: its sequence and
/// acknowledgment number, its ports, its time and all bytes of its payload come back.
pub proof fn law_record_comes_back_whole(before: Seq<u8>, r: RecordView, after: Seq<u8>)
    requires
        r.src_ip.len() == 4,
        r.dst_ip.len() == 4,
        r.payload.len() < 0x1_0000_0000,
    ensures
        ({
            let buf = before + header::encoded(r) + after;
            let pos = before.len() as int;
            let read = header::record_at(buf, pos);
            &&& header::valid_at(buf, pos)
            &&& header::record_end(buf, pos) == pos + 64 + r.payload.len()
            &&& is_kept(r, read)
        }),
{
    laws::law_record_reads_back(before, r, after);
    header::lemma_header_len(r);
    lemma_lowest_bit(r.flags);
}

/// A log of any number of records gives every one of them back, in order, with nothing left over.
pub proof fn law_log_comes_back_whole(rs: Seq<RecordView>)
    requires
        forall|i: int|
            0 <= i < rs.len() ==> (#[trigger] rs[i]).src_ip.len() == 4 && rs[i].dst_ip.len() == 4
                && rs[i].payload.len() < 0x1_0000_0000,
    ensures
        header::stream_records(laws::log_bytes(rs), 0).len() == rs.len(),
        forall|i: int|
            0 <= i < rs.len() ==> is_kept(
                rs[i],
                #[trigger] header::stream_records(laws::log_bytes(rs), 0)[i],
            ),
        header::stream_end(laws::log_bytes(rs), 0) == laws::log_bytes(rs).len(),
{
    assert forall|i: int| 0 <= i < rs.len() implies laws::storable(#[trigger] rs[i]) by {}
    laws::law_log_reads_back(rs, Seq::empty());
    assert(laws::log_bytes(rs) + Seq::<u8>::empty() =~= laws::log_bytes(rs));
    assert forall|i: int| 0 <= i < rs.len() implies is_kept(
        rs[i],
        #[trigger] header::stream_records(laws::log_bytes(rs), 0)[i],
    ) by {
        lemma_lowest_bit(rs[i].flags);
    }
}

/// Reading on behind the records that were read gives nothing more: at the end of the stream no whole
/// record stands, and each record read stood right behind the one before it.
pub proof fn law_stream_ends_where_no_record_stands(buf: Seq<u8>, pos: int)
    requires
        0 <= pos <= buf.len(),
    ensures
        pos <= header::stream_end(buf, pos) <= buf.len(),
        !header::valid_at(buf, header::stream_end(buf, pos)),
        header::valid_at(buf, pos) ==> {
            let next = pos + 64 + endian::value32(buf, pos + 56);
            &&& header::stream_records(buf, pos) == seq![header::record_at(buf, pos)]
                + header::stream_records(buf, next)
            &&& header::stream_end(buf, pos) == header::stream_end(buf, next)
        },
        !header::valid_at(buf, pos) ==> header::stream_records(buf, pos).len() == 0
            && header::stream_end(buf, pos) == pos,
    decreases buf.len() - pos,
{
    if header::valid_at(buf, pos) {
        law_stream_ends_where_no_record_stands(buf, header::record_end(buf, pos));
    }
}

} // verus!
