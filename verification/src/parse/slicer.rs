//! The head slicer: it keeps the addressing of a packet and the first bytes of its payload.
use crate::endian;
use crate::parse;
use crate::parse::frame::{
    self, slice_ethernet, tcp_fields, FrameView, NetLayer, NetView, SlicedFrame, TcpFields,
    TransportLayer, TransportView,
};
use crate::wal::header::{
    self, make_flags, RecordView, WalRecord, TCP_ACK, TCP_FIN, TCP_PSH, TCP_RST, TCP_SYN, TCP_URG,
};
use crate::wal::laws;
use vstd::prelude::*;
use vstd::slice::{slice_subrange, slice_to_vec};

verus! {

/// What a transport header says. A UDP header has no flags, numbers or window: they are 0.
#[derive(Debug, Clone, Copy, PartialEq, Eq)]
pub struct TransportMeta {
    pub src_port: u16,
    pub dst_port: u16,
    pub flags: u8,
    pub seq: u32,
    pub ack: u32,
    pub window: u16,
}

/// The flag byte of a TCP header's six control bits.
pub open spec fn flags_of(f: TcpFields) -> int {
    (if f.fin {
        TCP_FIN as int
    } else {
        0
    }) + (if f.syn {
        TCP_SYN as int
    } else {
        0
    }) + (if f.rst {
        TCP_RST as int
    } else {
        0
    }) + (if f.psh {
        TCP_PSH as int
    } else {
        0
    }) + (if f.ack {
        TCP_ACK as int
    } else {
        0
    }) + (if f.urg {
        TCP_URG as int
    } else {
        0
    })
}

/// What a transport layer says, if it is TCP or UDP.
pub open spec fn meta_of(t: TransportView) -> Option<TransportMeta> {
    match t {
        TransportView::Tcp(h) => {
            let f = frame::tcp_fields_of(h);
            Some(
                TransportMeta {
                    src_port: f.src_port,
                    dst_port: f.dst_port,
                    flags: flags_of(f) as u8,
                    seq: f.seq,
                    ack: f.ack_no,
                    window: f.window,
                },
            )
        },
        TransportView::Udp { src_port, dst_port } => Some(
            TransportMeta { src_port, dst_port, flags: 0, seq: 0, ack: 0, window: 0 },
        ),
        TransportView::Other => None,
    }
}

/// The record of a frame that was cut into its layers: none unless the frame is IPv4 and TCP or
/// UDP. The payload is kept up to `max_payload` bytes; its length on the wire is kept in 32 bits.
pub open spec fn sliced_record(
    s: FrameView,
    max_payload: int,
    ts_ns: u64,
    degraded: bool,
) -> Option<RecordView> {
    match (s.net, meta_of(s.transport)) {
        (NetView::Ipv4 { src, dst, protocol }, Some(meta)) => {
            let truncated = s.payload.len() > max_payload;
            Some(
                RecordView {
                    timestamp_ns: ts_ns,
                    flags: header::flag_bits(degraded, truncated),
                    tcp_flags: meta.flags,
                    tcp_seq: meta.seq,
                    tcp_ack: meta.ack,
                    window_size: meta.window,
                    src_ip: src,
                    dst_ip: dst,
                    src_port: meta.src_port,
                    dst_port: meta.dst_port,
                    proto: protocol as u16,
                    orig_payload_len: (s.payload.len() % 0x1_0000_0000) as u32,
                    payload: if truncated {
                        s.payload.take(max_payload)
                    } else {
                        s.payload
                    },
                },
            )
        },
        _ => None,
    }
}

/// The view of an optional record.
pub open spec fn record_view(r: Option<WalRecord>) -> Option<RecordView> {
    match r {
        Some(record) => Some(record@),
        None => None,
    }
}

/// The six control bits of a TCP header as one byte.
pub fn extract_tcp_flags(tcp: &TcpFields) -> (r: u8)
    ensures
        r == flags_of(*tcp),
        r == (if tcp.fin { 1int } else { 0 }) + (if tcp.syn { 2int } else { 0 }) + (
        if tcp.rst { 4int } else { 0 }) + (if tcp.psh { 8int } else { 0 }) + (
        if tcp.ack { 16int } else { 0 }) + (if tcp.urg { 32int } else { 0 }),
{
    let mut f: u8 = 0;
    if tcp.fin {
        f = f + TCP_FIN;
    }
    if tcp.syn {
        f = f + TCP_SYN;
    }
    if tcp.rst {
        f = f + TCP_RST;
    }
    if tcp.psh {
        f = f + TCP_PSH;
    }
    if tcp.ack {
        f = f + TCP_ACK;
    }
    if tcp.urg {
        f = f + TCP_URG;
    }
    f
}

/// What the transport layer of a frame says, if it is TCP or UDP.
pub fn transport_header(packet: &SlicedFrame) -> (r: Option<TransportMeta>)
    requires
        packet.transport@ matches TransportView::Tcp(h) ==> frame::has_tcp_header(h),
    ensures
        r == meta_of(packet.transport@),
        packet.transport@ matches TransportView::Tcp(h) ==> {
            &&& r is Some
            &&& r->0.src_port == endian::value16(h, 0)
            &&& r->0.dst_port == endian::value16(h, 2)
            &&& r->0.seq == endian::value32(h, 4)
            &&& r->0.ack == endian::value32(h, 8)
            &&& r->0.flags == h[13] & 0x3f
            &&& r->0.window == endian::value16(h, 14)
        },
{
    proof {
        if let TransportView::Tcp(h) = packet.transport@ {
            parse::laws::law_tcp_header_is_read_in_place(h);
        }
    }
    match packet.transport {
        TransportLayer::Tcp(bytes) => match tcp_fields(bytes) {
            Some(tcp) => Some(
                TransportMeta {
                    src_port: tcp.src_port,
                    dst_port: tcp.dst_port,
                    flags: extract_tcp_flags(&tcp),
                    seq: tcp.seq,
                    ack: tcp.ack_no,
                    window: tcp.window,
                },
            ),
            None => None,
        },
        TransportLayer::Udp { src_port, dst_port } => Some(
            TransportMeta { src_port, dst_port, flags: 0, seq: 0, ack: 0, window: 0 },
        ),
        TransportLayer::Other => None,
    }
}

/// Cuts payloads to their first `max_payload` bytes.
#[derive(Debug, Clone, Copy)]
pub struct Slicer {
    pub max_payload: usize,
}

impl Slicer {
    pub fn new(max_payload: usize) -> (r: Self)
        ensures
            r.max_payload == max_payload,
    {
        Slicer { max_payload }
    }

    /// The record of a frame that was cut into its layers.
    pub fn record_of(&self, packet: &SlicedFrame, ts_ns: u64, degraded: bool) -> (r: Option<
        WalRecord,
    >)
        requires
            packet.transport@ matches TransportView::Tcp(h) ==> frame::has_tcp_header(h),
        ensures
            record_view(r) == sliced_record(packet@, self.max_payload as int, ts_ns, degraded),
    {
        let (src_ip, dst_ip, protocol) = match packet.net {
            NetLayer::Ipv4 { src, dst, protocol } => (src, dst, protocol),
            NetLayer::Other => return None,
        };
        let meta: TransportMeta = match transport_header(packet) {
            Some(meta) => meta,
            None => return None,
        };
        let app: &[u8] = packet.payload;
        let truncated: bool = app.len() > self.max_payload;
        let sliced: Vec<u8> = if truncated {
            slice_to_vec(slice_subrange(app, 0, self.max_payload))
        } else {
            slice_to_vec(app)
        };
        let record = WalRecord {
            timestamp_ns: ts_ns,
            flags: make_flags(degraded, truncated),
            tcp_flags: meta.flags,
            tcp_seq: meta.seq,
            tcp_ack: meta.ack,
            window_size: meta.window,
            src_ip,
            dst_ip,
            src_port: meta.src_port,
            dst_port: meta.dst_port,
            proto: protocol as u16,
            orig_payload_len: (app.len() as u64 % 0x1_0000_0000) as u32,
            payload: sliced,
        };
        assert(Some(record@) =~= sliced_record(
            packet@,
            self.max_payload as int,
            ts_ns,
            degraded,
        ));
        Some(record)
    }

    /// The record of a raw frame that starts with an Ethernet header. There is none if the frame
    /// is refused, or is not IPv4, or is neither TCP nor UDP.
    pub fn process(&self, frame: &[u8], ts_ns: u64, degraded: bool) -> (r: Option<WalRecord>)
        ensures
            match frame::ethernet_layers(frame@) {
                Some(s) => record_view(r) == sliced_record(
                    s,
                    self.max_payload as int,
                    ts_ns,
                    degraded,
                ),
                None => r is None,
            },
            frame@.len() < 14 ==> r is None,
            14 <= frame@.len() < 34 && frame::ether_type(frame@) == 0x0800 ==> r is None,
            r is Some ==> frame::may_carry_ipv4(frame::ether_type(frame@)),
            frame::is_plain_ipv4(frame@) && frame@[23] == 6 ==> record_view(r)
                == if frame::has_tcp_header(frame@.subrange(34, frame@.len() as int)) {
                sliced_record(frame::plain_tcp(frame@), self.max_payload as int, ts_ns, degraded)
            } else {
                None
            },
            frame::is_plain_ipv4(frame@) && frame@[23] == 17 ==> record_view(r)
                == if frame@.len() >= 42 {
                sliced_record(frame::plain_udp(frame@), self.max_payload as int, ts_ns, degraded)
            } else {
                None
            },
            frame::is_plain_ipv4(frame@) && frame@[23] != 6 && frame@[23] != 17 && frame@[23]
                != frame::AUTHENTICATION_HEADER ==> r is None,
            frame::is_plain_ipv4(frame@) && frame@[23] == 6 && frame@.len() >= 54 && 5 <= frame@[46]
                / 16 && 34 + 4 * (frame@[46] / 16) <= frame@.len() ==> {
                &&& r is Some
                &&& r->0.timestamp_ns == ts_ns
                &&& r->0.src_ip@ == frame@.subrange(26, 30)
                &&& r->0.dst_ip@ == frame@.subrange(30, 34)
                &&& r->0.proto == 6
                &&& r->0.src_port == endian::value16(frame@, 34)
                &&& r->0.dst_port == endian::value16(frame@, 36)
                &&& r->0.tcp_seq == endian::value32(frame@, 38)
                &&& r->0.tcp_ack == endian::value32(frame@, 42)
                &&& r->0.tcp_flags == frame@[47] & 0x3f
                &&& r->0.window_size == endian::value16(frame@, 48)
            },
    {
        proof {
            if frame@.len() >= 54 && 5 <= frame@[46] / 16 && 34 + 4 * (frame@[46] / 16)
                <= frame@.len() {
                parse::laws::law_plain_tcp_frame_is_read_in_place(
                    frame@,
                    self.max_payload as int,
                    ts_ns,
                    degraded,
                );
            }
        }
        match slice_ethernet(frame) {
            Some(packet) => self.record_of(&packet, ts_ns, degraded),
            None => None,
        }
    }
}

/// A record that the slicer makes keeps no more than `max_payload` bytes, and they are the first
/// bytes of the payload on the wire; it is marked TRUNCATED exactly if bytes were left out.
pub proof fn law_slicing_keeps_the_head(
    s: FrameView,
    max_payload: int,
    ts_ns: u64,
    degraded: bool,
)
    requires
        0 <= max_payload,
        sliced_record(s, max_payload, ts_ns, degraded) is Some,
    ensures
        ({
            let r = sliced_record(s, max_payload, ts_ns, degraded)->0;
            &&& r.payload.len() <= max_payload
            &&& r.payload.len() == s.payload.len() || r.payload.len() == max_payload
            &&& r.payload == s.payload.take(r.payload.len() as int)
            &&& header::has_truncated(r.flags) <==> r.payload.len() < s.payload.len()
            &&& header::has_degraded(r.flags) <==> degraded
        }),
{
    header::lemma_flag_bits(degraded, s.payload.len() > max_payload);
    assert(s.payload.take(s.payload.len() as int) =~= s.payload);
    let r = sliced_record(s, max_payload, ts_ns, degraded)->0;
    assert(r.payload =~= s.payload.take(r.payload.len() as int));
}

/// What the slicer makes of a frame, the log gives back unchanged: flags, lengths and all.
pub proof fn law_sliced_record_survives_the_log(
    s: FrameView,
    max_payload: int,
    ts_ns: u64,
    degraded: bool,
)
    requires
        0 <= max_payload,
        s.payload.len() < 0x1_0000_0000,
        sliced_record(s, max_payload, ts_ns, degraded) is Some,
    ensures
        laws::recorded(sliced_record(s, max_payload, ts_ns, degraded)->0) == sliced_record(
            s,
            max_payload,
            ts_ns,
            degraded,
        )->0,
{
    header::lemma_flag_bits(degraded, s.payload.len() > max_payload);
}

} // verus!
