//! The layers of an Ethernet frame, as `etherparse` finds them.
use crate::endian;
use etherparse::{InternetSlice, SlicedPacket, TcpHeaderSlice, TransportSlice};
use vstd::prelude::*;

verus! {

/// The network layer of a frame: an IPv4 header, or anything else.
#[derive(Debug, Clone, Copy)]
pub enum NetLayer {
    Ipv4 { src: [u8; 4], dst: [u8; 4], protocol: u8 },
    Other,
}

/// The transport layer of a frame: the bytes of a TCP header, the ports of a UDP header, or
/// anything else.
#[derive(Debug, Clone, Copy)]
pub enum TransportLayer<'a> {
    Tcp(&'a [u8]),
    Udp { src_port: u16, dst_port: u16 },
    Other,
}

/// A frame cut into its layers and what follows them.
#[derive(Debug, Clone, Copy)]
pub struct SlicedFrame<'a> {
    pub net: NetLayer,
    pub transport: TransportLayer<'a>,
    pub payload: &'a [u8],
}

/// The network layer, with sequences for the addresses.
#[verifier::ext_equal]
pub enum NetView {
    Ipv4 { src: Seq<u8>, dst: Seq<u8>, protocol: u8 },
    Other,
}

/// The transport layer, with a sequence for the TCP header.
#[verifier::ext_equal]
pub enum TransportView {
    Tcp(Seq<u8>),
    Udp { src_port: u16, dst_port: u16 },
    Other,
}

/// A frame cut into its layers.
#[verifier::ext_equal]
pub struct FrameView {
    pub net: NetView,
    pub transport: TransportView,
    pub payload: Seq<u8>,
}

impl View for NetLayer {
    type V = NetView;

    open spec fn view(&self) -> NetView {
        match *self {
            NetLayer::Ipv4 { src, dst, protocol } => NetView::Ipv4 {
                src: src@,
                dst: dst@,
                protocol,
            },
            NetLayer::Other => NetView::Other,
        }
    }
}

impl<'a> View for TransportLayer<'a> {
    type V = TransportView;

    open spec fn view(&self) -> TransportView {
        match *self {
            TransportLayer::Tcp(header) => TransportView::Tcp(header@),
            TransportLayer::Udp { src_port, dst_port } => TransportView::Udp {
                src_port,
                dst_port,
            },
            TransportLayer::Other => TransportView::Other,
        }
    }
}

impl<'a> View for SlicedFrame<'a> {
    type V = FrameView;

    open spec fn view(&self) -> FrameView {
        FrameView {
            net: self.net@,
            transport: self.transport@,
            payload: self.payload@,
        }
    }
}

/// The fields of a TCP header.
#[derive(Debug, Clone, Copy)]
pub struct TcpFields {
    pub src_port: u16,
    pub dst_port: u16,
    pub seq: u32,
    pub ack_no: u32,
    pub window: u16,
    pub fin: bool,
    pub syn: bool,
    pub rst: bool,
    pub psh: bool,
    pub ack: bool,
    pub urg: bool,
}

/// The length in bytes that a TCP header states of itself.
pub open spec fn tcp_header_len(header: Seq<u8>) -> int {
    4 * (header[12] / 16)
}

/// `bytes` starts with a whole TCP header.
pub open spec fn has_tcp_header(bytes: Seq<u8>) -> bool {
    &&& bytes.len() >= 20
    &&& 20 <= tcp_header_len(bytes) <= bytes.len()
}

/// The fields of the TCP header at the start of `h`.
pub open spec fn tcp_fields_of(h: Seq<u8>) -> TcpFields {
    TcpFields {
        src_port: endian::value16(h, 0) as u16,
        dst_port: endian::value16(h, 2) as u16,
        seq: endian::value32(h, 4) as u32,
        ack_no: endian::value32(h, 8) as u32,
        window: endian::value16(h, 14) as u16,
        fin: h[13] & 0x01 != 0,
        syn: h[13] & 0x02 != 0,
        rst: h[13] & 0x04 != 0,
        psh: h[13] & 0x08 != 0,
        ack: h[13] & 0x10 != 0,
        urg: h[13] & 0x20 != 0,
    }
}

/// The ether type of a frame.
pub open spec fn ether_type(frame: Seq<u8>) -> int {
    endian::value16(frame, 12)
}

/// An ether type behind which an IPv4 header can stand: IPv4 itself, or a VLAN tag.
pub open spec fn may_carry_ipv4(ether_type: int) -> bool {
    ether_type == 0x0800 || ether_type == 0x8100 || ether_type == 0x88a8 || ether_type == 0x9100
}

/// The frame is an Ethernet II header, an IPv4 header of 20 bytes for a packet that is not
/// fragmented, and whatever follows.
pub open spec fn is_plain_ipv4(frame: Seq<u8>) -> bool {
    &&& frame.len() >= 34
    &&& ether_type(frame) == 0x0800
    &&& frame[14] == 0x45
    &&& endian::value16(frame, 16) >= 20
    &&& frame[20] & 0x3f == 0
    &&& frame[21] == 0
}

/// The IPv4 layer of a plain frame.
pub open spec fn plain_net(frame: Seq<u8>) -> NetView {
    NetView::Ipv4 {
        src: frame.subrange(26, 30),
        dst: frame.subrange(30, 34),
        protocol: frame[23],
    }
}

/// A plain frame that carries TCP, cut into its layers.
pub open spec fn plain_tcp(frame: Seq<u8>) -> FrameView {
    let rest = frame.subrange(34, frame.len() as int);
    FrameView {
        net: plain_net(frame),
        transport: TransportView::Tcp(rest.subrange(0, tcp_header_len(rest))),
        payload: rest.subrange(tcp_header_len(rest), rest.len() as int),
    }
}

/// A plain frame that carries UDP, cut into its layers.
pub open spec fn plain_udp(frame: Seq<u8>) -> FrameView {
    FrameView {
        net: plain_net(frame),
        transport: TransportView::Udp {
            src_port: endian::value16(frame, 34) as u16,
            dst_port: endian::value16(frame, 36) as u16,
        },
        payload: frame.subrange(42, frame.len() as int),
    }
}

/// The layers that `etherparse::SlicedPacket::from_ethernet` finds in a frame; none if it refuses
/// the frame.
pub uninterp spec fn ethernet_layers(frame: Seq<u8>) -> Option<FrameView>;

/// The view of a frame that may have been refused.
pub open spec fn layers_view(r: Option<SlicedFrame>) -> Option<FrameView> {
    match r {
        Some(s) => Some(s@),
        None => None,
    }
}

/// The protocol of an authentication header, behind which another header stands.
pub const AUTHENTICATION_HEADER: u8 = 51;

/// The layers found in a frame are those that its headers call for. A frame shorter than an
/// Ethernet header is refused, and one that has no room for the IPv4 header that it announces. No
/// IPv4 header is found behind an ether type that is neither IPv4 nor a VLAN tag. A TCP header that
/// is found is whole. A plain IPv4 frame that carries TCP or UDP is cut at the lengths that its
/// headers state, or refused if the header is not whole; one that carries another protocol has
/// neither a TCP nor a UDP header, unless an authentication header stands before it.
pub open spec fn agrees_with_headers(layers: Option<FrameView>, frame: Seq<u8>) -> bool {
    let rest = frame.subrange(34, frame.len() as int);
    &&& frame.len() < 14 ==> layers is None
    &&& 14 <= frame.len() < 34 && ether_type(frame) == 0x0800 ==> layers is None
    &&& layers matches Some(s) ==> {
        &&& s.net is Ipv4 ==> may_carry_ipv4(ether_type(frame))
        &&& s.transport matches TransportView::Tcp(h) ==> has_tcp_header(h)
    }
    &&& is_plain_ipv4(frame) && frame[23] == 6 ==> layers == if has_tcp_header(rest) {
        Some(plain_tcp(frame))
    } else {
        None
    }
    &&& is_plain_ipv4(frame) && frame[23] == 17 ==> layers == if frame.len() >= 42 {
        Some(plain_udp(frame))
    } else {
        None
    }
    &&& is_plain_ipv4(frame) && frame[23] != 6 && frame[23] != 17 && frame[23]
        != AUTHENTICATION_HEADER ==> (layers matches Some(s) ==> s.transport is Other)
}

/// Calls `etherparse::SlicedPacket::from_ethernet` and moves the layers that it found into the
/// types of this module. What is found depends on the frame alone, and agrees with the frame's
/// headers as `agrees_with_headers` says.
#[verifier::external_body]
pub(crate) fn slice_ethernet<'a>(frame: &'a [u8]) -> (r: Option<SlicedFrame<'a>>)
    ensures
        layers_view(r) == ethernet_layers(frame@),
        agrees_with_headers(layers_view(r), frame@),
{
    let packet = SlicedPacket::from_ethernet(frame).ok()?;
    let net = match packet.ip {
        Some(InternetSlice::Ipv4(h, _)) => NetLayer::Ipv4 { src: h.source(), dst: h.destination(), protocol: h.protocol() },
        _ => NetLayer::Other,
    };
    let transport = match packet.transport {
        Some(TransportSlice::Tcp(t)) => TransportLayer::Tcp(t.slice()),
        Some(TransportSlice::Udp(u)) => TransportLayer::Udp { src_port: u.source_port(), dst_port: u.destination_port() },
        _ => TransportLayer::Other,
    };
    Some(SlicedFrame { net, transport, payload: packet.payload })
}

/// Calls `etherparse::TcpHeaderSlice::from_slice` and reads the header's fields: there is a header
/// exactly where `bytes` starts with a whole one, and its fields are the big-endian integers and
/// the bits at their places in it.
#[verifier::external_body]
pub(crate) fn tcp_fields(bytes: &[u8]) -> (r: Option<TcpFields>)
    ensures
        r is Some <==> has_tcp_header(bytes@),
        r is Some ==> r == Some(tcp_fields_of(bytes@)),
{
    let t = TcpHeaderSlice::from_slice(bytes).ok()?;
    Some(TcpFields {
        src_port: t.source_port(),
        dst_port: t.destination_port(),
        seq: t.sequence_number(),
        ack_no: t.acknowledgment_number(),
        window: t.window_size(),
        fin: t.fin(),
        syn: t.syn(),
        rst: t.rst(),
        psh: t.psh(),
        ack: t.ack(),
        urg: t.urg(),
    })
}

} // verus!
