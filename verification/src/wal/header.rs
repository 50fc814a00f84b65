//! The record format of the write-ahead log.
//!
//! A record is a header of 64 bytes and the payload bytes as they are.
//!
//! ```text
//! Offset  Size  Field             Content
//! 0       2     magic             0x5350 ("SP")
//! 2       1     version           0x04
//! 3       1     tcp_flags         FIN=0x01 SYN=0x02 RST=0x04 PSH=0x08 ACK=0x10 URG=0x20
//! 4       4     crc32             over every other header byte and the payload
//! 8       8     timestamp_ns      nanoseconds
//! 16      4     src_ip            IPv4
//! 20      4     dst_ip            IPv4
//! 24      2     src_port
//! 26      2     dst_port
//! 28      1     proto             6=TCP, 17=UDP
//! 29      4     tcp_seq           sequence number on the wire
//! 33      4     tcp_ack           acknowledgment number on the wire
//! 37      2     window_size       window on the wire
//! 39      1     flags             bit 0 = DEGRADED, the rest 0
//! 40      16    reserved          0
//! 56      4     payload_len       bytes kept in this record
//! 60      4     orig_payload_len  bytes on the wire
//! ```
//!
//! All integers are big-endian. TRUNCATED is not stored: it holds exactly when
//! `orig_payload_len > payload_len`.
use crate::endian::{
    self, append_bytes, push_u16, push_u32, push_u64, read_u16, read_u32, read_u64, write_u32,
};
use crate::wal::laws;
use vstd::prelude::*;
use vstd::slice::{slice_subrange, slice_to_vec};

verus! {

pub const WAL_HEADER_SIZE: usize = 64;

pub const WAL_VERSION: u8 = 0x04;

pub const WAL_MAGIC: u16 = 0x5350;

pub const TCP_FIN: u8 = 0x01;

pub const TCP_SYN: u8 = 0x02;

pub const TCP_RST: u8 = 0x04;

pub const TCP_PSH: u8 = 0x08;

pub const TCP_ACK: u8 = 0x10;

pub const TCP_URG: u8 = 0x20;

/// The record was taken while the probe was shedding load.
pub const FLAG_DEGRADED: u64 = 0x1;

/// The record keeps fewer payload bytes than were on the wire.
pub const FLAG_TRUNCATED: u64 = 0x2;

/// One captured packet: its addressing, its TCP state and the head of its payload.
#[derive(Debug, Clone)]
pub struct WalRecord {
    pub timestamp_ns: u64,
    pub flags: u64,
    pub tcp_flags: u8,
    pub tcp_seq: u32,
    pub tcp_ack: u32,
    pub window_size: u16,
    pub src_ip: [u8; 4],
    pub dst_ip: [u8; 4],
    pub src_port: u16,
    pub dst_port: u16,
    pub proto: u16,
    pub orig_payload_len: u32,
    pub payload: Vec<u8>,
}

/// What a record says, with sequences for its byte fields.
#[verifier::ext_equal]
pub struct RecordView {
    pub timestamp_ns: u64,
    pub flags: u64,
    pub tcp_flags: u8,
    pub tcp_seq: u32,
    pub tcp_ack: u32,
    pub window_size: u16,
    pub src_ip: Seq<u8>,
    pub dst_ip: Seq<u8>,
    pub src_port: u16,
    pub dst_port: u16,
    pub proto: u16,
    pub orig_payload_len: u32,
    pub payload: Seq<u8>,
}

impl View for WalRecord {
    type V = RecordView;

    open spec fn view(&self) -> RecordView {
        RecordView {
            timestamp_ns: self.timestamp_ns,
            flags: self.flags,
            tcp_flags: self.tcp_flags,
            tcp_seq: self.tcp_seq,
            tcp_ack: self.tcp_ack,
            window_size: self.window_size,
            src_ip: self.src_ip@,
            dst_ip: self.dst_ip@,
            src_port: self.src_port,
            dst_port: self.dst_port,
            proto: self.proto,
            orig_payload_len: self.orig_payload_len,
            payload: self.payload@,
        }
    }
}

/// The flag word of a record.
pub open spec fn flag_bits(degraded: bool, truncated: bool) -> u64 {
    if degraded {
        if truncated {
            3
        } else {
            1
        }
    } else if truncated {
        2
    } else {
        0
    }
}

/// `FLAG_DEGRADED` is set in `flags`.
pub open spec fn has_degraded(flags: u64) -> bool {
    flags & FLAG_DEGRADED != 0
}

/// `FLAG_TRUNCATED` is set in `flags`.
pub open spec fn has_truncated(flags: u64) -> bool {
    flags & FLAG_TRUNCATED != 0
}

/// The flag word holds the two flags that it was made of.
pub proof fn lemma_flag_bits(degraded: bool, truncated: bool)
    ensures
        has_degraded(flag_bits(degraded, truncated)) == degraded,
        has_truncated(flag_bits(degraded, truncated)) == truncated,
{
    assert(0u64 & 1 == 0 && 1u64 & 1 == 1 && 2u64 & 1 == 0 && 3u64 & 1 == 1) by (bit_vector);
    assert(0u64 & 2 == 0 && 1u64 & 2 == 0 && 2u64 & 2 == 2 && 3u64 & 2 == 2) by (bit_vector);
}

/// The flag word with the given flags set.
pub fn make_flags(degraded: bool, truncated: bool) -> (r: u64)
    ensures
        r == flag_bits(degraded, truncated),
{
    let mut flags: u64 = 0;
    if degraded {
        flags = flags | FLAG_DEGRADED;
    }
    if truncated {
        flags = flags | FLAG_TRUNCATED;
    }
    assert(0u64 | 1 == 1 && 0u64 | 2 == 2 && 1u64 | 2 == 3) by (bit_vector);
    flags
}

/// The checksum that `crc32fast` computes of a byte sequence (CRC-32, IEEE polynomial).
pub uninterp spec fn crc32_ieee(bytes: Seq<u8>) -> u32;

/// The two differ in one byte and nowhere else.
pub open spec fn one_byte_apart(a: Seq<u8>, b: Seq<u8>) -> bool {
    &&& a.len() == b.len()
    &&& exists|i: int|
        0 <= i < a.len() && #[trigger] a[i] != b[i] && forall|j: int|
            0 <= j < a.len() && j != i ==> a[j] == b[j]
}

/// Feeds `head` and then `tail` to a `crc32fast::Hasher` and takes the checksum: the result is
/// the checksum of the two one after the other. Bytes that differ from them in one place have
/// another checksum: each byte takes the state of the hasher to a new one, different bytes take one
/// state to different ones, and one byte takes different states to different ones.
#[verifier::external_body]
fn crc32_two_parts(head: &[u8], tail: &[u8]) -> (r: u32)
    ensures
        r == crc32_ieee(head@ + tail@),
        forall|other: Seq<u8>|
            one_byte_apart(other, head@ + tail@) ==> #[trigger] crc32_ieee(other) != r,
{
    let mut hasher = crc32fast::Hasher::new();
    hasher.update(head);
    hasher.update(tail);
    hasher.finalize()
}

/// The bytes that the checksum of a record covers: its first four bytes, then all from the eighth
/// on.
pub open spec fn checked_bytes(record: Seq<u8>) -> Seq<u8> {
    record.subrange(0, 4) + record.subrange(8, record.len() as int)
}

/// The checksum of a record.
pub open spec fn record_crc(record: Seq<u8>) -> u32 {
    crc32_ieee(checked_bytes(record))
}

/// The checksum of the record in `buf`. The bytes that hold the stored checksum do not enter it.
/// Damage to one of the others changes it.
pub fn crc32_of(buf: &[u8]) -> (r: u32)
    requires
        buf@.len() >= 8,
    ensures
        r == record_crc(buf@),
        forall|other: Seq<u8>|
            one_byte_apart(other, checked_bytes(buf@)) ==> #[trigger] crc32_ieee(other) != r,
{
    crc32_two_parts(slice_subrange(buf, 0, 4), slice_subrange(buf, 8, buf.len()))
}

/// The header bytes before the checksum.
#[verifier::opaque]
pub open spec fn header_front(r: RecordView) -> Seq<u8> {
    endian::be16(WAL_MAGIC) + seq![WAL_VERSION, r.tcp_flags]
}

/// The header bytes after the checksum.
#[verifier::opaque]
pub open spec fn header_back(r: RecordView) -> Seq<u8> {
    endian::be64(r.timestamp_ns) + r.src_ip + r.dst_ip + endian::be16(r.src_port)
        + endian::be16(r.dst_port) + seq![(r.proto % 0x100) as u8] + endian::be32(
        r.tcp_seq,
    ) + endian::be32(r.tcp_ack) + endian::be16(r.window_size) + seq![
        if has_degraded(r.flags) {
            1u8
        } else {
            0u8
        },
    ] + Seq::new(16, |i: int| 0u8) + endian::be32(
        (r.payload.len() % 0x1_0000_0000) as u32,
    ) + endian::be32(r.orig_payload_len)
}

/// The bytes of a record in the log. A payload of four gigabytes or more, whose length has no
/// place in the header, is written with its length cut to 32 bits.
#[verifier::opaque]
pub open spec fn encoded(r: RecordView) -> Seq<u8> {
    header_front(r) + endian::be32(
        crc32_ieee(header_front(r) + header_back(r) + r.payload),
    ) + header_back(r) + r.payload
}

/// A header takes 64 bytes.
pub proof fn lemma_header_len(r: RecordView)
    requires
        r.src_ip.len() == 4,
        r.dst_ip.len() == 4,
    ensures
        header_front(r).len() == 4,
        header_back(r).len() == 56,
        encoded(r).len() == WAL_HEADER_SIZE + r.payload.len(),
{
    reveal(header_front);
    reveal(header_back);
    reveal(encoded);
}

/// The payload length that the header at `pos` states.
pub open spec fn stated_len(buf: Seq<u8>, pos: int) -> int {
    endian::value32(buf, pos + 56)
}

/// Where the record at `pos` ends.
pub open spec fn record_end(buf: Seq<u8>, pos: int) -> int {
    pos + WAL_HEADER_SIZE + stated_len(buf, pos)
}

/// A whole record stands at `pos`: a header fits, magic and version are right, the stated
/// payload fits, and the checksum matches.
pub open spec fn valid_at(buf: Seq<u8>, pos: int) -> bool {
    &&& pos + WAL_HEADER_SIZE <= buf.len()
    &&& endian::value16(buf, pos) == WAL_MAGIC
    &&& buf[pos + 2] == WAL_VERSION
    &&& record_end(buf, pos) <= buf.len()
    &&& endian::value32(buf, pos + 4) == record_crc(
        buf.subrange(pos, record_end(buf, pos)),
    )
}

/// The record whose header stands at `pos`.
pub open spec fn record_at(buf: Seq<u8>, pos: int) -> RecordView {
    let orig = endian::value32(buf, pos + 60) as u32;
    RecordView {
        timestamp_ns: endian::value64(buf, pos + 8) as u64,
        flags: flag_bits(buf[pos + 39] % 2 == 1, orig > stated_len(buf, pos)),
        tcp_flags: buf[pos + 3],
        tcp_seq: endian::value32(buf, pos + 29) as u32,
        tcp_ack: endian::value32(buf, pos + 33) as u32,
        window_size: endian::value16(buf, pos + 37) as u16,
        src_ip: buf.subrange(pos + 16, pos + 20),
        dst_ip: buf.subrange(pos + 20, pos + 24),
        src_port: endian::value16(buf, pos + 24) as u16,
        dst_port: endian::value16(buf, pos + 26) as u16,
        proto: buf[pos + 28] as u16,
        orig_payload_len: orig,
        payload: buf.subrange(pos + WAL_HEADER_SIZE, record_end(buf, pos)),
    }
}

/// `now` is the record `before` with one byte damaged, which is none of those that state the payload
/// length.
pub open spec fn is_damaged(before: Seq<u8>, now: Seq<u8>) -> bool {
    &&& before.len() == now.len()
    &&& exists|i: int|
        0 <= i < before.len() && !(56 <= i < 60) && #[trigger] now[i] != before[i] && forall|j: int|
            0 <= j < before.len() && j != i ==> now[j] == before[j]
}

/// A whole record that was damaged in one byte fails one of the checks.
proof fn lemma_damage_is_seen(before: Seq<u8>, now: Seq<u8>, crc: u32)
    requires
        valid_at(before, 0),
        record_end(before, 0) == before.len(),
        is_damaged(before, now),
        endian::value16(now, 0) == WAL_MAGIC,
        now[2] == WAL_VERSION,
        crc == record_crc(now),
        forall|other: Seq<u8>|
            one_byte_apart(other, checked_bytes(now)) ==> #[trigger] crc32_ieee(other) != crc,
    ensures
        endian::value32(now, 4) != crc,
{
    let i = choose|i: int|
        0 <= i < before.len() && !(56 <= i < 60) && #[trigger] now[i] != before[i] && forall|j: int|
            0 <= j < before.len() && j != i ==> now[j] == before[j];
    let a = checked_bytes(before);
    let b = checked_bytes(now);
    assert(before.subrange(0, before.len() as int) =~= before);
    if 4 <= i < 8 {
        assert(a =~= b);
    } else if i >= 3 {
        let k = if i < 4 {
            i
        } else {
            i - 4
        };
        assert(a[k] == before[i] && b[k] == now[i]);
        assert forall|j: int| 0 <= j < a.len() && j != k implies a[j] == b[j] by {
            let at = if j < 4 {
                j
            } else {
                j + 4
            };
            assert(a[j] == before[at] && b[j] == now[at]);
        }
        assert(one_byte_apart(a, b));
        assert(crc32_ieee(a) != crc);
    }
}

/// At `pos` stands a record that was written whole, with one byte damaged, which is none of those
/// that state the payload length.
pub open spec fn is_damaged_at(buf: Seq<u8>, pos: int, rec: RecordView) -> bool {
    &&& laws::storable(rec)
    &&& pos + encoded(rec).len() <= buf.len()
    &&& is_damaged(encoded(rec), buf.subrange(pos, pos + encoded(rec).len()))
}

/// Where all checks pass, no damaged record stands.
proof fn lemma_damaged_record_is_seen(buf: Seq<u8>, pos: int, crc: u32)
    requires
        0 <= pos,
        valid_at(buf, pos),
        crc == record_crc(buf.subrange(pos, record_end(buf, pos))),
        forall|other: Seq<u8>|
            one_byte_apart(other, checked_bytes(buf.subrange(pos, record_end(buf, pos))))
                ==> #[trigger] crc32_ieee(other) != crc,
    ensures
        forall|rec: RecordView| !(#[trigger] is_damaged_at(buf, pos, rec)),
{
    assert forall|rec: RecordView| !(#[trigger] is_damaged_at(buf, pos, rec)) by {
        if is_damaged_at(buf, pos, rec) {
            let before = encoded(rec);
            let now = buf.subrange(pos, pos + before.len());
            laws::law_record_reads_back(Seq::empty(), rec, Seq::empty());
            assert(Seq::<u8>::empty() + before + Seq::<u8>::empty() =~= before);
            assert(forall|j: int| 56 <= j < 60 ==> now[j] == before[j]);
            assert(forall|j: int| 0 <= j < 60 ==> now[j] == buf[pos + j]);
            assert(record_end(buf, pos) == pos + before.len());
            lemma_damage_is_seen(before, now, crc);
        }
    }
}

/// The records that stand one behind the other from `pos` on.
pub open spec fn stream_records(buf: Seq<u8>, pos: int) -> Seq<RecordView>
    decreases buf.len() - pos,
{
    if 0 <= pos && valid_at(buf, pos) {
        seq![record_at(buf, pos)] + stream_records(buf, record_end(buf, pos))
    } else {
        Seq::empty()
    }
}

/// Where the run of records from `pos` on ends.
pub open spec fn stream_end(buf: Seq<u8>, pos: int) -> int
    decreases buf.len() - pos,
{
    if 0 <= pos && valid_at(buf, pos) {
        stream_end(buf, record_end(buf, pos))
    } else {
        pos
    }
}

/// The views of a list of records.
pub open spec fn views(records: Seq<WalRecord>) -> Seq<RecordView> {
    Seq::new(records.len(), |i: int| records[i]@)
}

impl WalRecord {
    /// Appends the header bytes that follow the checksum.
    fn push_header_back(&self, out: &mut Vec<u8>)
        ensures
            final(out)@ == old(out)@ + header_back(self@),
    {
        reveal(header_back);
        let ghost before = out@;
        let ghost mut done = endian::be64(self.timestamp_ns);
        push_u64(out, self.timestamp_ns);
        append_bytes(out, self.src_ip.as_slice());
        proof {
            assert(out@ =~= before + (done + self.src_ip@));
            done = done + self.src_ip@;
        }
        append_bytes(out, self.dst_ip.as_slice());
        proof {
            assert(out@ =~= before + (done + self.dst_ip@));
            done = done + self.dst_ip@;
        }
        push_u16(out, self.src_port);
        proof {
            assert(out@ =~= before + (done + endian::be16(self.src_port)));
            done = done + endian::be16(self.src_port);
        }
        push_u16(out, self.dst_port);
        proof {
            assert(out@ =~= before + (done + endian::be16(self.dst_port)));
            done = done + endian::be16(self.dst_port);
        }
        out.push((self.proto % 0x100) as u8);
        proof {
            assert(out@ =~= before + (done + seq![(self.proto % 0x100) as u8]));
            done = done + seq![(self.proto % 0x100) as u8];
        }
        push_u32(out, self.tcp_seq);
        proof {
            assert(out@ =~= before + (done + endian::be32(self.tcp_seq)));
            done = done + endian::be32(self.tcp_seq);
        }
        push_u32(out, self.tcp_ack);
        proof {
            assert(out@ =~= before + (done + endian::be32(self.tcp_ack)));
            done = done + endian::be32(self.tcp_ack);
        }
        push_u16(out, self.window_size);
        proof {
            assert(out@ =~= before + (done + endian::be16(self.window_size)));
            done = done + endian::be16(self.window_size);
        }
        let flag_byte: u8 = if self.flags & FLAG_DEGRADED != 0 {
            0x01
        } else {
            0x00
        };
        out.push(flag_byte);
        proof {
            assert(out@ =~= before + (done + seq![flag_byte]));
            done = done + seq![flag_byte];
        }
        append_bytes(out, &[0, 0, 0, 0, 0, 0, 0, 0, 0, 0, 0, 0, 0, 0, 0, 0]);
        proof {
            assert(out@ =~= before + (done + Seq::new(16, |i: int| 0u8)));
            done = done + Seq::new(16, |i: int| 0u8);
        }
        let kept: u32 = (self.payload.len() as u64 % 0x1_0000_0000) as u32;
        push_u32(out, kept);
        proof {
            assert(out@ =~= before + (done + endian::be32(kept)));
            done = done + endian::be32(kept);
        }
        push_u32(out, self.orig_payload_len);
        assert(out@ =~= before + (done + endian::be32(self.orig_payload_len)));
    }

    /// Appends the record's header and payload to `out`.
    pub fn encode(&self, out: &mut Vec<u8>)
        ensures
            final(out)@ == old(out)@ + encoded(self@),
    {
        proof {
            reveal(header_front);
            reveal(encoded);
            lemma_header_len(self@);
        }
        let start: usize = out.len();
        let ghost before = out@;
        push_u16(out, WAL_MAGIC);
        out.push(WAL_VERSION);
        out.push(self.tcp_flags);
        assert(out@ =~= before + header_front(self@));
        push_u32(out, 0);
        let ghost mid = out@;
        self.push_header_back(out);
        append_bytes(out, self.payload.as_slice());

        let ghost plain = out@;
        let ghost rec = header_front(self@) + endian::be32(0) + header_back(self@)
            + self.payload@;
        assert(plain =~= before + rec);
        let crc: u32 = crc32_of(slice_subrange(out.as_slice(), start, out.len()));
        proof {
            assert(plain.subrange(start as int, plain.len() as int) =~= rec);
            assert(rec.subrange(0, 4) =~= header_front(self@));
            assert(rec.subrange(8, rec.len() as int) =~= header_back(self@) + self.payload@);
            assert(rec.subrange(0, 4) + rec.subrange(8, rec.len() as int) =~= header_front(self@)
                + header_back(self@) + self.payload@);
        }
        write_u32(out, start + 4, crc);
        assert(out@ =~= before + encoded(self@));
    }

    /// The record at `pos` and the position behind it, if a whole record stands there. The checks
    /// run in the order magic, version, length, checksum; a record that fails one is not read. So no
    /// record is read of which one byte was damaged, wherever, but for its payload length.
    pub fn try_decode(buf: &[u8], pos: usize) -> (r: Option<(WalRecord, usize)>)
        requires
            pos <= buf@.len(),
        ensures
            r is Some <==> valid_at(buf@, pos as int),
            r matches Some((record, next)) ==> {
                &&& record@ == record_at(buf@, pos as int)
                &&& next == record_end(buf@, pos as int)
            },
            forall|rec: RecordView| #[trigger] is_damaged_at(buf@, pos as int, rec) ==> r is None,
    {
        if buf.len() - pos < WAL_HEADER_SIZE {
            return None;
        }
        if read_u16(buf, pos) != WAL_MAGIC {
            return None;
        }
        if buf[pos + 2] != WAL_VERSION {
            return None;
        }
        let payload_len: u32 = read_u32(buf, pos + 56);
        let rest: usize = buf.len() - pos - WAL_HEADER_SIZE;
        if (rest as u64) < payload_len as u64 {
            return None;
        }
        let body: usize = pos + WAL_HEADER_SIZE;
        let next: usize = body + payload_len as usize;
        let expected: u32 = read_u32(buf, pos + 4);
        let actual: u32 = crc32_of(slice_subrange(buf, pos, next));
        if actual != expected {
            return None;
        }
        let orig_len: u32 = read_u32(buf, pos + 60);
        let flag_byte: u8 = buf[pos + 39];
        let src_ip: [u8; 4] = [buf[pos + 16], buf[pos + 17], buf[pos + 18], buf[pos + 19]];
        let dst_ip: [u8; 4] = [buf[pos + 20], buf[pos + 21], buf[pos + 22], buf[pos + 23]];
        let record = WalRecord {
            timestamp_ns: read_u64(buf, pos + 8),
            flags: make_flags(flag_byte & 0x01 != 0, orig_len > payload_len),
            tcp_flags: buf[pos + 3],
            tcp_seq: read_u32(buf, pos + 29),
            tcp_ack: read_u32(buf, pos + 33),
            window_size: read_u16(buf, pos + 37),
            src_ip,
            dst_ip,
            src_port: read_u16(buf, pos + 24),
            dst_port: read_u16(buf, pos + 26),
            proto: buf[pos + 28] as u16,
            orig_payload_len: orig_len,
            payload: slice_to_vec(slice_subrange(buf, body, next)),
        };
        proof {
            assert((flag_byte & 0x01 != 0) == (flag_byte % 2 == 1)) by (bit_vector);
            assert(src_ip@ =~= buf@.subrange(pos + 16, pos + 20));
            assert(dst_ip@ =~= buf@.subrange(pos + 20, pos + 24));
            assert(record@ =~= record_at(buf@, pos as int));
            lemma_damaged_record_is_seen(buf@, pos as int, actual);
        }
        Some((record, next))
    }

    /// All records from the start of `buf` on, up to the first position where none stands, and
    /// the number of bytes left from there on.
    pub fn decode_stream(buf: &[u8]) -> (r: (Vec<WalRecord>, usize))
        ensures
            views(r.0@) == stream_records(buf@, 0),
            r.1 == buf@.len() - stream_end(buf@, 0),
    {
        let mut records: Vec<WalRecord> = Vec::new();
        let mut pos: usize = 0;
        assert(views(records@) + stream_records(buf@, 0) =~= stream_records(buf@, 0));
        loop
            invariant
                pos <= buf@.len(),
                views(records@) + stream_records(buf@, pos as int) == stream_records(buf@, 0),
                stream_end(buf@, pos as int) == stream_end(buf@, 0),
            decreases buf@.len() - pos,
        {
            match Self::try_decode(buf, pos) {
                Some((record, next)) => {
                    proof {
                        assert(views(records@.push(record)) =~= views(records@).push(record@));
                        assert(views(records@).push(record@) + stream_records(buf@, next as int)
                            =~= views(records@) + stream_records(buf@, pos as int));
                    }
                    records.push(record);
                    pos = next;
                },
                None => {
                    assert(views(records@) + Seq::<RecordView>::empty() =~= views(records@));
                    return (records, buf.len() - pos);
                },
            }
        }
    }
}

} // verus!
