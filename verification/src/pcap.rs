//! From records back to packets: the frames of a capture file.
use crate::endian::{self, append_bytes, push_u16, push_u32};
use crate::parse::frame;
use crate::parse::slicer;
use crate::wal::header::{self, RecordView, WalRecord};
use crate::wal::rotate::{self, join};
use vstd::prelude::*;
use vstd::string::StringExecFns;

verus! {

/// The bytes of the transport header of a record.
pub open spec fn l4_header_len(proto: u16) -> int {
    if proto == 6 {
        20
    } else {
        8
    }
}

/// The Ethernet header of every frame.
pub open spec fn ethernet_bytes() -> Seq<u8> {
    seq![0x02u8, 0, 0, 0, 0, 2, 0x02, 0, 0, 0, 0, 1, 0x08, 0x00]
}

/// The IPv4 header for a record. The checksum is 0.
pub open spec fn ipv4_bytes(r: RecordView) -> Seq<u8> {
    seq![0x45u8, 0x00] + endian::be16(
        ((20 + l4_header_len(r.proto) + r.payload.len()) % 0x1_0000) as u16,
    ) + seq![0x00u8, 0x01, 0x40, 0x00, 0x40, (r.proto % 0x100) as u8, 0x00, 0x00] + r.src_ip
        + r.dst_ip
}

/// The TCP header for a record, with the sequence number, acknowledgment number, flags and window
/// of the wire. The checksum is 0.
pub open spec fn tcp_bytes(r: RecordView) -> Seq<u8> {
    endian::be16(r.src_port) + endian::be16(r.dst_port) + endian::be32(r.tcp_seq) + endian::be32(
        r.tcp_ack,
    ) + seq![0x50u8, r.tcp_flags] + endian::be16(r.window_size) + seq![0u8, 0, 0, 0]
}

/// The UDP header for a record. The checksum is 0.
pub open spec fn udp_bytes(r: RecordView) -> Seq<u8> {
    endian::be16(r.src_port) + endian::be16(r.dst_port) + endian::be16(
        ((8 + r.payload.len()) % 0x1_0000) as u16,
    ) + seq![0u8, 0]
}

/// The frame for a record: Ethernet, IPv4, TCP or UDP, and the payload that was kept.
pub open spec fn synthesized(r: RecordView) -> Seq<u8> {
    ethernet_bytes() + ipv4_bytes(r) + (if r.proto == 6 {
        tcp_bytes(r)
    } else {
        udp_bytes(r)
    }) + r.payload
}

/// The low 16 bits of the length of a header and a payload.
fn length_field(header: u16, payload: usize) -> (r: u16)
    requires
        header <= 40,
    ensures
        r == (header + payload) % 0x1_0000,
{
    let low: u32 = (payload as u64 % 0x1_0000) as u32;
    ((header as u32 + low) % 0x1_0000) as u16
}

/// Appends the IPv4 header for a record.
fn push_ipv4(rec: &WalRecord, out: &mut Vec<u8>)
    ensures
        final(out)@ == old(out)@ + ipv4_bytes(rec@),
{
    let ghost before = out@;
    let headers: u16 = if rec.proto == 6 {
        40
    } else {
        28
    };
    append_bytes(out, &[0x45, 0x00]);
    push_u16(out, length_field(headers, rec.payload.len()));
    append_bytes(
        out,
        &[0x00, 0x01, 0x40, 0x00, 0x40, (rec.proto % 0x100) as u8, 0x00, 0x00],
    );
    append_bytes(out, rec.src_ip.as_slice());
    append_bytes(out, rec.dst_ip.as_slice());
    assert(out@ =~= before + ipv4_bytes(rec@));
}

/// Appends the TCP header for a record.
fn push_tcp(rec: &WalRecord, out: &mut Vec<u8>)
    ensures
        final(out)@ == old(out)@ + tcp_bytes(rec@),
{
    let ghost before = out@;
    push_u16(out, rec.src_port);
    push_u16(out, rec.dst_port);
    push_u32(out, rec.tcp_seq);
    push_u32(out, rec.tcp_ack);
    append_bytes(out, &[0x50, rec.tcp_flags]);
    push_u16(out, rec.window_size);
    append_bytes(out, &[0, 0, 0, 0]);
    assert(out@ =~= before + tcp_bytes(rec@));
}

/// Appends the UDP header for a record.
fn push_udp(rec: &WalRecord, out: &mut Vec<u8>)
    ensures
        final(out)@ == old(out)@ + udp_bytes(rec@),
{
    let ghost before = out@;
    push_u16(out, rec.src_port);
    push_u16(out, rec.dst_port);
    push_u16(out, length_field(8, rec.payload.len()));
    append_bytes(out, &[0, 0]);
    assert(out@ =~= before + udp_bytes(rec@));
}

/// The frame for a record.
pub fn synthesize(rec: &WalRecord) -> (r: Vec<u8>)
    ensures
        r@ == synthesized(rec@),
{
    let mut out: Vec<u8> = Vec::new();
    append_bytes(&mut out, &[0x02, 0, 0, 0, 0, 2, 0x02, 0, 0, 0, 0, 1, 0x08, 0x00]);
    assert(out@ =~= ethernet_bytes());
    push_ipv4(rec, &mut out);
    if rec.proto == 6 {
        push_tcp(rec, &mut out);
    } else {
        push_udp(rec, &mut out);
    }
    append_bytes(&mut out, rec.payload.as_slice());
    out
}

/// One packet of a capture file: its time, its length on the wire, and the bytes that are kept.
#[derive(Debug)]
pub struct PcapEntry {
    pub timestamp_ns: u64,
    pub orig_len: u32,
    pub data: Vec<u8>,
}

/// What a packet of a capture file says.
#[verifier::ext_equal]
pub struct EntryView {
    pub timestamp_ns: u64,
    pub orig_len: u32,
    pub data: Seq<u8>,
}

impl View for PcapEntry {
    type V = EntryView;

    open spec fn view(&self) -> EntryView {
        EntryView {
            timestamp_ns: self.timestamp_ns,
            orig_len: self.orig_len,
            data: self.data@,
        }
    }
}

/// The packet for a record. Its length on the wire is that of the headers and of the payload on
/// the wire, in 32 bits.
pub open spec fn entry_of(r: RecordView) -> EntryView {
    EntryView {
        timestamp_ns: r.timestamp_ns,
        orig_len: ((14 + 20 + l4_header_len(r.proto) + r.orig_payload_len) % 0x1_0000_0000) as u32,
        data: synthesized(r),
    }
}

/// A record passes the filter if there is none, or if one of its ports is the filter's.
pub open spec fn passes(r: RecordView, filter_port: Option<u16>) -> bool {
    filter_port matches Some(port) ==> r.src_port == port || r.dst_port == port
}

/// The packets for records: one for each that passes the filter, in order.
pub open spec fn entries_of(rs: Seq<RecordView>, filter_port: Option<u16>) -> Seq<EntryView>
    decreases rs.len(),
{
    if rs.len() == 0 {
        Seq::empty()
    } else if passes(rs.last(), filter_port) {
        entries_of(rs.drop_last(), filter_port).push(entry_of(rs.last()))
    } else {
        entries_of(rs.drop_last(), filter_port)
    }
}

/// The views of packets.
pub open spec fn entry_views(v: Seq<PcapEntry>) -> Seq<EntryView> {
    Seq::new(v.len(), |i: int| v[i]@)
}

/// The packet for a record.
pub fn pcap_entry(rec: &WalRecord) -> (r: PcapEntry)
    ensures
        r@ == entry_of(rec@),
{
    let l4: u64 = if rec.proto == 6 {
        20
    } else {
        8
    };
    let orig_len: u64 = (14 + 20 + l4 + rec.orig_payload_len as u64) % 0x1_0000_0000;
    PcapEntry {
        timestamp_ns: rec.timestamp_ns,
        orig_len: orig_len as u32,
        data: synthesize(rec),
    }
}

/// The packets for the records that pass the filter.
pub fn convert(records: &Vec<WalRecord>, filter_port: Option<u16>) -> (r: Vec<PcapEntry>)
    ensures
        entry_views(r@) == entries_of(header::views(records@), filter_port),
        filter_port is None ==> entry_views(r@) == header::views(records@).map_values(
            |v: RecordView| entry_of(v),
        ),
        filter_port matches Some(port) ==> entry_views(r@) == header::views(records@).filter(
            |v: RecordView| v.src_port == port || v.dst_port == port,
        ).map_values(|v: RecordView| entry_of(v)),
{
    proof {
        law_no_filter_keeps_every_record(header::views(records@));
        if let Some(port) = filter_port {
            law_filter_goes_by_the_ports(header::views(records@), port);
        }
    }
    let mut out: Vec<PcapEntry> = Vec::new();
    let mut i: usize = 0;
    assert(entry_views(out@) =~= entries_of(header::views(records@).take(0), filter_port));
    while i < records.len()
        invariant
            i <= records@.len(),
            entry_views(out@) == entries_of(header::views(records@).take(i as int), filter_port),
        decreases records@.len() - i,
    {
        let rec: &WalRecord = &records[i];
        let ghost now = header::views(records@).take(i + 1);
        proof {
            assert(now.drop_last() =~= header::views(records@).take(i as int));
            assert(now.last() == rec@);
        }
        let keep: bool = match filter_port {
            Some(port) => rec.dst_port == port || rec.src_port == port,
            None => true,
        };
        if keep {
            let ghost before = entry_views(out@);
            let entry: PcapEntry = pcap_entry(rec);
            let ghost e = entry@;
            out.push(entry);
            assert(entry_views(out@) =~= before.push(e));
        }
        i = i + 1;
    }
    assert(header::views(records@).take(records@.len() as int) =~= header::views(records@));
    out
}

/// Where the capture file for the log file at `file` goes: into the output directory under the
/// file's `stem`, or else to the given path, or else beside the log file.
pub fn output_path(output: Option<&str>, out_dir: Option<&str>, file: &str, stem: &str) -> (r:
    String)
    ensures
        r@ == match (out_dir, output) {
            (Some(dir), _) => rotate::joined(dir@, stem@ + ".pcap"@),
            (None, Some(path)) => path@,
            (None, None) => file@ + ".pcap"@,
        },
{
    match out_dir {
        Some(dir) => {
            let mut name: String = String::from_str(stem);
            name.append(".pcap");
            join(dir, name.as_str())
        },
        None => match output {
            Some(path) => String::from_str(path),
            None => {
                let mut path: String = String::from_str(file);
                path.append(".pcap");
                path
            },
        },
    }
}

/// The six control bits of a TCP header, read one by one and put together, are the low bits of the
/// flag byte.
proof fn lemma_flags(h: Seq<u8>)
    ensures
        slicer::flags_of(frame::tcp_fields_of(h)) == (h[13] & 0x3f) as int,
{
    let b = h[13];
    assert((if b & 0x01 != 0 { 0x01int } else { 0 }) + (if b & 0x02 != 0 { 0x02int } else { 0 })
        + (if b & 0x04 != 0 { 0x04int } else { 0 }) + (if b & 0x08 != 0 { 0x08int } else { 0 })
        + (if b & 0x10 != 0 { 0x10int } else { 0 }) + (if b & 0x20 != 0 { 0x20int } else { 0 })
        == (b & 0x3f)) by (bit_vector);
}

/// Where the fields in front of the transport header stand in a frame.
proof fn lemma_front(r: RecordView)
    requires
        r.src_ip.len() == 4,
        r.dst_ip.len() == 4,
        20 + l4_header_len(r.proto) + r.payload.len() < 0x1_0000,
        r.proto < 0x100,
    ensures
        ({
            let f = synthesized(r);
            &&& f.len() == 34 + l4_header_len(r.proto) + r.payload.len()
            &&& frame::is_plain_ipv4(f)
            &&& f[23] == r.proto
            &&& f.subrange(26, 30) == r.src_ip
            &&& f.subrange(30, 34) == r.dst_ip
            &&& f.subrange(34, f.len() as int) == (if r.proto == 6 {
                tcp_bytes(r)
            } else {
                udp_bytes(r)
            }) + r.payload
        }),
{
    let f = synthesized(r);
    let l4 = if r.proto == 6 {
        tcp_bytes(r)
    } else {
        udp_bytes(r)
    };
    let eth = ethernet_bytes();
    let ip = ipv4_bytes(r);
    assert(l4.len() == l4_header_len(r.proto));
    assert(eth.len() == 14);
    assert(ip.len() == 20);
    assert(f == eth + ip + l4 + r.payload);
    assert forall|i: int| 0 <= i < 14 implies #[trigger] f[i] == eth[i] by {}
    assert forall|i: int| 14 <= i < 34 implies #[trigger] f[i] == ip[i - 14] by {}
    let total = (20 + l4_header_len(r.proto) + r.payload.len()) as u16;
    assert(f.subrange(16, 18) =~= endian::be16(total));
    endian::lemma_value16(f, 16, total);
    assert(f[20] == 0x40);
    assert(0x40u8 & 0x3f == 0) by (bit_vector);
    assert(f.subrange(26, 30) =~= r.src_ip);
    assert(f.subrange(30, 34) =~= r.dst_ip);
    assert(f.subrange(34, f.len() as int) =~= l4 + r.payload);
}

/// The TCP frame made from a record slices back to the record: addresses, ports, sequence and
/// acknowledgment number, window, control bits and the payload that was kept.
#[verifier::rlimit(60)]
#[verifier::spinoff_prover]
pub proof fn law_tcp_frame_slices_back(r: RecordView, max_payload: int, ts_ns: u64, degraded: bool)
    requires
        r.src_ip.len() == 4,
        r.dst_ip.len() == 4,
        r.proto == 6,
        40 + r.payload.len() < 0x1_0000,
        r.payload.len() <= max_payload,
    ensures
        frame::is_plain_ipv4(synthesized(r)),
        synthesized(r)[23] == 6,
        frame::has_tcp_header(synthesized(r).subrange(34, synthesized(r).len() as int)),
        slicer::sliced_record(frame::plain_tcp(synthesized(r)), max_payload, ts_ns, degraded)
            == Some(
            RecordView {
                timestamp_ns: ts_ns,
                flags: header::flag_bits(degraded, false),
                tcp_flags: r.tcp_flags & 0x3f,
                orig_payload_len: r.payload.len() as u32,
                ..r
            },
        ),
{
    lemma_front(r);
    let f = synthesized(r);
    let h = tcp_bytes(r);
    let rest = f.subrange(34, f.len() as int);
    assert(rest == h + r.payload);
    assert(h.len() == 20);
    assert(rest[12] == 0x50);
    let head = rest.subrange(0, 20);
    assert(head =~= h);
    assert(rest.subrange(20, rest.len() as int) =~= r.payload);
    assert(h.subrange(0, 2) =~= endian::be16(r.src_port));
    assert(h.subrange(2, 4) =~= endian::be16(r.dst_port));
    assert(h.subrange(4, 8) =~= endian::be32(r.tcp_seq));
    assert(h.subrange(8, 12) =~= endian::be32(r.tcp_ack));
    assert(h.subrange(14, 16) =~= endian::be16(r.window_size));
    endian::lemma_value16(h, 0, r.src_port);
    endian::lemma_value16(h, 2, r.dst_port);
    endian::lemma_value32(h, 4, r.tcp_seq);
    endian::lemma_value32(h, 8, r.tcp_ack);
    endian::lemma_value16(h, 14, r.window_size);
    lemma_flags(h);
    assert(h[13] == r.tcp_flags);
}

/// The UDP frame made from a record slices back to the record's addresses, ports and payload.
#[verifier::rlimit(60)]
#[verifier::spinoff_prover]
pub proof fn law_udp_frame_slices_back(r: RecordView, max_payload: int, ts_ns: u64, degraded: bool)
    requires
        r.src_ip.len() == 4,
        r.dst_ip.len() == 4,
        r.proto == 17,
        28 + r.payload.len() < 0x1_0000,
        r.payload.len() <= max_payload,
    ensures
        frame::is_plain_ipv4(synthesized(r)),
        synthesized(r)[23] == 17,
        synthesized(r).len() >= 42,
        slicer::sliced_record(frame::plain_udp(synthesized(r)), max_payload, ts_ns, degraded)
            == Some(
            RecordView {
                timestamp_ns: ts_ns,
                flags: header::flag_bits(degraded, false),
                tcp_flags: 0,
                tcp_seq: 0,
                tcp_ack: 0,
                window_size: 0,
                orig_payload_len: r.payload.len() as u32,
                ..r
            },
        ),
{
    lemma_front(r);
    let f = synthesized(r);
    let h = udp_bytes(r);
    let rest = f.subrange(34, f.len() as int);
    assert(rest == h + r.payload);
    assert(h.len() == 8);
    assert(f.subrange(42, f.len() as int) =~= rest.subrange(8, rest.len() as int));
    assert(rest.subrange(8, rest.len() as int) =~= r.payload);
    assert(f.subrange(34, 36) =~= rest.subrange(0, 2));
    assert(f.subrange(36, 38) =~= rest.subrange(2, 4));
    assert(rest.subrange(0, 2) =~= endian::be16(r.src_port));
    assert(rest.subrange(2, 4) =~= endian::be16(r.dst_port));
    endian::lemma_value16(f, 34, r.src_port);
    endian::lemma_value16(f, 36, r.dst_port);
}

/// Without a filter there is one packet for each record, in the order of the records.
pub proof fn law_no_filter_keeps_every_record(rs: Seq<RecordView>)
    ensures
        entries_of(rs, None) == rs.map_values(|v: RecordView| entry_of(v)),
        entries_of(rs, None).len() == rs.len(),
        forall|i: int|
            0 <= i < rs.len() ==> #[trigger] entries_of(rs, None)[i] == entry_of(rs[i]),
    decreases rs.len(),
{
    if rs.len() > 0 {
        law_no_filter_keeps_every_record(rs.drop_last());
    }
    assert(entries_of(rs, None) =~= rs.map_values(|v: RecordView| entry_of(v)));
}

/// With a filter there is one packet for each record that has the port on either side, whatever its
/// protocol, and none for any other, in the order of the records.
#[verifier::rlimit(60)]
#[verifier::spinoff_prover]
pub proof fn law_filter_goes_by_the_ports(rs: Seq<RecordView>, port: u16)
    ensures
        entries_of(rs, Some(port)) == rs.filter(
            |v: RecordView| v.src_port == port || v.dst_port == port,
        ).map_values(|v: RecordView| entry_of(v)),
    decreases rs.len(),
{
    let keep = |v: RecordView| v.src_port == port || v.dst_port == port;
    let packet = |v: RecordView| entry_of(v);
    reveal(Seq::filter);
    if rs.len() > 0 {
        law_filter_goes_by_the_ports(rs.drop_last(), port);
        let front = rs.drop_last().filter(keep);
        if keep(rs.last()) {
            assert(rs.filter(keep) == front.push(rs.last()));
            assert(front.push(rs.last()).map_values(packet) =~= front.map_values(packet).push(
                packet(rs.last()),
            ));
        }
    }
    assert(entries_of(rs, Some(port)) =~= rs.filter(keep).map_values(packet));
}

/// The records before a record decide where its packet stands. A record with the filter's port on
/// either side has its packet right behind those of the records before it, and a record without the
/// port has none.
pub proof fn law_each_record_has_its_packet(rs: Seq<RecordView>, port: u16, i: int)
    requires
        0 <= i < rs.len(),
    ensures
        ({
            let all = entries_of(rs, Some(port));
            let before = entries_of(rs.take(i), Some(port));
            let upto = entries_of(rs.take(i + 1), Some(port));
            &&& before.is_prefix_of(all)
            &&& upto.is_prefix_of(all)
            &&& rs[i].src_port == port || rs[i].dst_port == port ==> {
                &&& before.len() < all.len()
                &&& all[before.len() as int] == entry_of(rs[i])
                &&& upto.len() == before.len() + 1
            }
            &&& rs[i].src_port != port && rs[i].dst_port != port ==> upto == before
        }),
    decreases rs.len(),
{
    let all = entries_of(rs, Some(port));
    let last = rs.len() - 1;
    assert(rs.take(rs.len() as int) =~= rs);
    assert(rs.drop_last() =~= rs.take(last));
    let front = entries_of(rs.take(last), Some(port));
    assert(front =~= all.subrange(0, front.len() as int));
    if i < last {
        law_each_record_has_its_packet(rs.drop_last(), port, i);
        assert(rs.drop_last().take(i) =~= rs.take(i));
        assert(rs.drop_last().take(i + 1) =~= rs.take(i + 1));
        let before = entries_of(rs.take(i), Some(port));
        let upto = entries_of(rs.take(i + 1), Some(port));
        assert(before =~= all.subrange(0, before.len() as int));
        assert(upto =~= all.subrange(0, upto.len() as int));
    } else {
        assert(all =~= all.subrange(0, all.len() as int));
    }
}

/// A packet carries the time of its record. On the wire it had the headers, of 54 bytes for TCP and
/// 42 for anything else, and the payload on the wire; in the file it has the same headers and the
/// payload that was kept. So the two lengths differ by what was cut.
pub proof fn law_packet_has_time_and_lengths(r: RecordView)
    requires
        r.src_ip.len() == 4,
        r.dst_ip.len() == 4,
    ensures
        entry_of(r).timestamp_ns == r.timestamp_ns,
        entry_of(r).orig_len == ((if r.proto == 6 {
            54int
        } else {
            42
        }) + r.orig_payload_len) % 0x1_0000_0000,
        entry_of(r).data.len() == (if r.proto == 6 {
            54int
        } else {
            42
        }) + r.payload.len(),
        r.orig_payload_len + 54 < 0x1_0000_0000 ==> entry_of(r).orig_len - entry_of(r).data.len()
            == r.orig_payload_len - r.payload.len(),
{
}

/// Where the fields of a record stand in its frame, whatever its protocol and however long it is.
#[verifier::rlimit(60)]
#[verifier::spinoff_prover]
pub proof fn law_frame_holds_the_record(r: RecordView)
    requires
        r.src_ip.len() == 4,
        r.dst_ip.len() == 4,
    ensures
        ({
            let f = entry_of(r).data;
            let l4: int = if r.proto == 6 {
                20
            } else {
                8
            };
            &&& f.len() == 34 + l4 + r.payload.len()
            &&& f.take(6) == seq![0x02u8, 0, 0, 0, 0, 2]
            &&& f.subrange(6, 12) == seq![0x02u8, 0, 0, 0, 0, 1]
            &&& endian::value16(f, 12) == 0x0800
            &&& f[14] == 0x45
            &&& f[15] == 0
            &&& endian::value16(f, 18) == 1
            &&& endian::value16(f, 20) == 0x4000
            &&& endian::value16(f, 24) == 0
            &&& endian::value16(f, 16) == (20 + l4 + r.payload.len()) % 0x1_0000
            &&& f[22] == 0x40
            &&& f[23] == r.proto % 0x100
            &&& f.subrange(26, 30) == r.src_ip
            &&& f.subrange(30, 34) == r.dst_ip
            &&& endian::value16(f, 34) == r.src_port
            &&& endian::value16(f, 36) == r.dst_port
            &&& r.proto == 6 ==> {
                &&& endian::value32(f, 38) == r.tcp_seq
                &&& endian::value32(f, 42) == r.tcp_ack
                &&& f[46] == 0x50
                &&& f[47] == r.tcp_flags
                &&& endian::value16(f, 48) == r.window_size
                &&& endian::value32(f, 50) == 0
            }
            &&& r.proto != 6 ==> {
                &&& endian::value16(f, 38) == (8 + r.payload.len()) % 0x1_0000
                &&& endian::value16(f, 40) == 0
            }
            &&& f.subrange(34 + l4, f.len() as int) == r.payload
        }),
{
    let f = synthesized(r);
    let eth = ethernet_bytes();
    let ip = ipv4_bytes(r);
    let l4 = if r.proto == 6 {
        tcp_bytes(r)
    } else {
        udp_bytes(r)
    };
    assert(eth.len() == 14 && ip.len() == 20 && l4.len() == l4_header_len(r.proto));
    assert(f == eth + ip + l4 + r.payload);
    assert forall|i: int| 0 <= i < 14 implies #[trigger] f[i] == eth[i] by {}
    assert forall|i: int| 14 <= i < 34 implies #[trigger] f[i] == ip[i - 14] by {}
    assert(f.subrange(34, (34 + l4.len()) as int) =~= l4);
    let total = ((20 + l4_header_len(r.proto) + r.payload.len()) % 0x1_0000) as u16;
    assert(f.subrange(16, 18) =~= endian::be16(total));
    endian::lemma_value16(f, 16, total);
    assert(f.subrange(26, 30) =~= r.src_ip);
    assert(f.subrange(30, 34) =~= r.dst_ip);
    assert(f.subrange((34 + l4.len()) as int, f.len() as int) =~= r.payload);
    assert(f.take(6) =~= seq![0x02u8, 0, 0, 0, 0, 2]);
    assert(f.subrange(6, 12) =~= seq![0x02u8, 0, 0, 0, 0, 1]);
    assert(f.subrange(34, 36) =~= l4.subrange(0, 2));
    assert(f.subrange(36, 38) =~= l4.subrange(2, 4));
    assert(l4.subrange(0, 2) =~= endian::be16(r.src_port));
    assert(l4.subrange(2, 4) =~= endian::be16(r.dst_port));
    endian::lemma_value16(f, 34, r.src_port);
    endian::lemma_value16(f, 36, r.dst_port);
    if r.proto == 6 {
        assert(f.subrange(38, 42) =~= endian::be32(r.tcp_seq));
        assert(f.subrange(42, 46) =~= endian::be32(r.tcp_ack));
        assert(f.subrange(48, 50) =~= endian::be16(r.window_size));
        endian::lemma_value32(f, 38, r.tcp_seq);
        endian::lemma_value32(f, 42, r.tcp_ack);
        endian::lemma_value16(f, 48, r.window_size);
        assert(f[50] == 0 && f[51] == 0 && f[52] == 0 && f[53] == 0);
    } else {
        let len = ((8 + r.payload.len()) % 0x1_0000) as u16;
        assert(f.subrange(38, 40) =~= endian::be16(len));
        endian::lemma_value16(f, 38, len);
    }
}

} // verus!
