//! What a record says of a frame, read from the bytes of the frame.
use crate::endian;
use crate::parse::frame::{self, FrameView, NetView, TransportView};
use crate::parse::slicer;
use crate::wal::header;
use vstd::prelude::*;

verus! {

/// The six control bits, taken one by one and put together, are the low bits of the flag byte.
proof fn lemma_control_bits(b: u8)
    ensures
        (if b & 0x01 != 0 { 0x01int } else { 0 }) + (if b & 0x02 != 0 { 0x02int } else { 0 }) + (
        if b & 0x04 != 0 { 0x04int } else { 0 }) + (if b & 0x08 != 0 { 0x08int } else { 0 }) + (
        if b & 0x10 != 0 { 0x10int } else { 0 }) + (if b & 0x20 != 0 { 0x20int } else { 0 }) == (b
            & 0x3f),
{
    assert((if b & 0x01 != 0 { 0x01int } else { 0 }) + (if b & 0x02 != 0 { 0x02int } else { 0 })
        + (if b & 0x04 != 0 { 0x04int } else { 0 }) + (if b & 0x08 != 0 { 0x08int } else { 0 })
        + (if b & 0x10 != 0 { 0x10int } else { 0 }) + (if b & 0x20 != 0 { 0x20int } else { 0 })
        == (b & 0x3f)) by (bit_vector);
}

/// A TCP header is read at the same places whether options follow its first 20 bytes or not: the
/// ports at 0 and 2, the sequence number at 4, the acknowledgment number at 8, the control bits in
/// the low six bits of byte 13, the window at 14.
pub proof fn law_tcp_header_is_read_in_place(h: Seq<u8>)
    requires
        h.len() >= 20,
    ensures
        slicer::meta_of(TransportView::Tcp(h)) matches Some(meta) && {
            &&& meta.src_port == endian::value16(h, 0)
            &&& meta.dst_port == endian::value16(h, 2)
            &&& meta.seq == endian::value32(h, 4)
            &&& meta.ack == endian::value32(h, 8)
            &&& meta.flags == h[13] & 0x3f
            &&& meta.window == endian::value16(h, 14)
        },
{
    lemma_control_bits(h[13]);
}

/// A UDP header gives its two ports and nothing else.
pub proof fn law_udp_header_gives_its_ports(src_port: u16, dst_port: u16)
    ensures
        slicer::meta_of(TransportView::Udp { src_port, dst_port }) matches Some(meta) && {
            &&& meta.src_port == src_port
            &&& meta.dst_port == dst_port
            &&& meta.seq == 0
            &&& meta.ack == 0
            &&& meta.flags == 0
            &&& meta.window == 0
        },
{
}

/// A frame gives a record exactly if it has an IPv4 header and a TCP or UDP header. The record's
/// addresses and protocol are those of the IPv4 header, its ports and numbers those of the transport
/// header, its time the one that it was given. The payload on the wire counts in full, and as much
/// of it is kept as fits in `max_payload` bytes.
pub proof fn law_record_says_what_the_headers_say(
    s: FrameView,
    max_payload: int,
    ts_ns: u64,
    degraded: bool,
)
    requires
        0 <= max_payload,
        s.transport matches TransportView::Tcp(h) ==> h.len() >= 20,
    ensures
        slicer::sliced_record(s, max_payload, ts_ns, degraded) is Some <==> s.net is Ipv4
            && s.transport !is Other,
        slicer::sliced_record(s, max_payload, ts_ns, degraded) matches Some(r) ==> {
            &&& s.net == NetView::Ipv4 { src: r.src_ip, dst: r.dst_ip, protocol: r.proto as u8 }
            &&& r.proto < 0x100
            &&& r.timestamp_ns == ts_ns
            &&& r.payload == s.payload.take(
                if s.payload.len() < max_payload {
                    s.payload.len() as int
                } else {
                    max_payload
                },
            )
            &&& r.orig_payload_len == s.payload.len() % 0x1_0000_0000
            &&& r.flags % 2 == (if degraded {
                1int
            } else {
                0
            })
            &&& r.flags / 2 == (if s.payload.len() > max_payload {
                1int
            } else {
                0
            })
            &&& match s.transport {
                TransportView::Tcp(h) => {
                    &&& r.src_port == endian::value16(h, 0)
                    &&& r.dst_port == endian::value16(h, 2)
                    &&& r.tcp_seq == endian::value32(h, 4)
                    &&& r.tcp_ack == endian::value32(h, 8)
                    &&& r.tcp_flags == h[13] & 0x3f
                    &&& r.window_size == endian::value16(h, 14)
                },
                TransportView::Udp { src_port, dst_port } => {
                    &&& r.src_port == src_port
                    &&& r.dst_port == dst_port
                    &&& r.tcp_seq == 0
                    &&& r.tcp_ack == 0
                    &&& r.tcp_flags == 0
                    &&& r.window_size == 0
                },
                TransportView::Other => true,
            }
        },
{
    if let TransportView::Tcp(h) = s.transport {
        law_tcp_header_is_read_in_place(h);
    }
    assert(s.payload.take(s.payload.len() as int) =~= s.payload);
}

/// The bytes of a plain TCP frame tell its record: the addresses stand at 26 and 30, the ports at 34
/// and 36, the sequence number at 38, the acknowledgment number at 42, the control bits in byte 47,
/// the window at 48, and the payload behind the header, whose length in words is the high half of
/// byte 46.
pub proof fn law_plain_tcp_frame_is_read_in_place(
    frame: Seq<u8>,
    max_payload: int,
    ts_ns: u64,
    degraded: bool,
)
    requires
        0 <= max_payload,
        frame.len() >= 54,
        5 <= frame[46] / 16,
        34 + 4 * (frame[46] / 16) <= frame.len(),
    ensures
        frame::has_tcp_header(frame.subrange(34, frame.len() as int)),
        slicer::sliced_record(
            frame::plain_tcp(frame),
            max_payload,
            ts_ns,
            degraded,
        ) matches Some(r) && {
            let at = 34 + 4 * (frame[46] / 16);
            &&& r.timestamp_ns == ts_ns
            &&& r.src_ip == frame.subrange(26, 30)
            &&& r.dst_ip == frame.subrange(30, 34)
            &&& r.proto == frame[23]
            &&& r.src_port == endian::value16(frame, 34)
            &&& r.dst_port == endian::value16(frame, 36)
            &&& r.tcp_seq == endian::value32(frame, 38)
            &&& r.tcp_ack == endian::value32(frame, 42)
            &&& r.tcp_flags == frame[47] & 0x3f
            &&& r.window_size == endian::value16(frame, 48)
            &&& r.orig_payload_len == (frame.len() - at) % 0x1_0000_0000
            &&& r.payload == frame.subrange(
                at,
                if frame.len() - at < max_payload {
                    frame.len() as int
                } else {
                    at + max_payload
                },
            )
        },
{
    let rest = frame.subrange(34, frame.len() as int);
    let s = frame::plain_tcp(frame);
    assert(rest[12] == frame[46]);
    let h = rest.subrange(0, frame::tcp_header_len(rest));
    assert(s.transport == TransportView::Tcp(h));
    assert(h.len() >= 20);
    assert forall|i: int| 0 <= i < 20 implies #[trigger] h[i] == frame[i + 34] by {}
    law_record_says_what_the_headers_say(s, max_payload, ts_ns, degraded);
    let r = slicer::sliced_record(s, max_payload, ts_ns, degraded)->0;
    let at: int = 34 + 4 * (frame[46] / 16);
    assert(s.payload =~= frame.subrange(at, frame.len() as int));
    assert(r.payload =~= frame.subrange(
        at,
        if frame.len() - at < max_payload {
            frame.len() as int
        } else {
            at + max_payload
        },
    ));
}

/// The bytes of a plain UDP frame tell its record: the addresses stand at 26 and 30, the ports at 34
/// and 36, and the payload from 42 on.
pub proof fn law_plain_udp_frame_is_read_in_place(
    frame: Seq<u8>,
    max_payload: int,
    ts_ns: u64,
    degraded: bool,
)
    requires
        0 <= max_payload,
        frame.len() >= 42,
    ensures
        slicer::sliced_record(
            frame::plain_udp(frame),
            max_payload,
            ts_ns,
            degraded,
        ) matches Some(r) && {
            &&& r.timestamp_ns == ts_ns
            &&& r.src_ip == frame.subrange(26, 30)
            &&& r.dst_ip == frame.subrange(30, 34)
            &&& r.proto == frame[23]
            &&& r.src_port == endian::value16(frame, 34)
            &&& r.dst_port == endian::value16(frame, 36)
            &&& r.tcp_seq == 0
            &&& r.tcp_ack == 0
            &&& r.tcp_flags == 0
            &&& r.window_size == 0
            &&& r.orig_payload_len == (frame.len() - 42) % 0x1_0000_0000
            &&& r.payload == frame.subrange(
                42,
                if frame.len() - 42 < max_payload {
                    frame.len() as int
                } else {
                    42 + max_payload
                },
            )
        },
{
    let s = frame::plain_udp(frame);
    law_record_says_what_the_headers_say(s, max_payload, ts_ns, degraded);
    let r = slicer::sliced_record(s, max_payload, ts_ns, degraded)->0;
    assert(r.payload =~= frame.subrange(
        42,
        if frame.len() - 42 < max_payload {
            frame.len() as int
        } else {
            42 + max_payload
        },
    ));
}

/// Where less is kept of a payload, it is the beginning of what would have been kept: a smaller limit
/// changes the payload and the mark that it was cut, and nothing else.
pub proof fn law_smaller_limit_keeps_a_beginning(
    s: FrameView,
    less: int,
    more: int,
    ts_ns: u64,
    degraded: bool,
)
    requires
        0 <= less <= more,
    ensures
        slicer::sliced_record(s, less, ts_ns, degraded) is Some <==> slicer::sliced_record(
            s,
            more,
            ts_ns,
            degraded,
        ) is Some,
        slicer::sliced_record(s, less, ts_ns, degraded) matches Some(a) ==> {
            let b = slicer::sliced_record(s, more, ts_ns, degraded)->0;
            &&& a.payload.is_prefix_of(b.payload)
            &&& a == (header::RecordView { payload: a.payload, flags: a.flags, ..b })
        },
{
    if let Some(a) = slicer::sliced_record(s, less, ts_ns, degraded) {
        let b = slicer::sliced_record(s, more, ts_ns, degraded)->0;
        assert(a.payload =~= b.payload.subrange(0, a.payload.len() as int));
    }
}

} // verus!
