use etherparse::PacketBuilder;
use sov_probe::capture::{timestamp_ns, Capture, FrameStep};
use sov_probe::guard::breaker::Breaker;
use sov_probe::parse::frame::{NetLayer, SlicedFrame, TcpFields, TransportLayer};
use sov_probe::parse::slicer::{extract_tcp_flags, transport_header, Slicer};
use sov_probe::wal::header::{
    WalRecord, FLAG_DEGRADED, FLAG_TRUNCATED, TCP_ACK, TCP_FIN, TCP_PSH, TCP_RST, TCP_SYN, TCP_URG,
};

const SRC_MAC: [u8; 6] = [0x02, 0x00, 0x00, 0x00, 0x00, 0x01];
const DST_MAC: [u8; 6] = [0x02, 0x00, 0x00, 0x00, 0x00, 0x02];

/// TCP over IPv4, SYN and ACK, seq 100, ack 50, window 65535.
fn tcp_v4_frame(payload: &[u8]) -> Vec<u8> {
    let mut buf = Vec::new();
    PacketBuilder::ethernet2(SRC_MAC, DST_MAC)
        .ipv4([192, 168, 1, 10], [10, 0, 0, 1], 64)
        .tcp(12345, 443, 100, 65535)
        .syn()
        .ack(50)
        .write(&mut buf, payload)
        .unwrap();
    buf
}

/// UDP over IPv4.
fn udp_v4_frame(payload: &[u8]) -> Vec<u8> {
    let mut buf = Vec::new();
    PacketBuilder::ethernet2(SRC_MAC, DST_MAC)
        .ipv4([192, 168, 1, 10], [10, 0, 0, 1], 64)
        .udp(12345, 53)
        .write(&mut buf, payload)
        .unwrap();
    buf
}

#[test]
fn tcp_v4_slice_truncates_payload() {
    let payload = vec![0xAAu8; 100];
    let rec = Slicer::new(40).process(&tcp_v4_frame(&payload), 1234, false).unwrap();
    assert_eq!(rec.payload.len(), 40);
    assert_eq!(rec.payload, payload[..40]);
    assert_eq!(rec.orig_payload_len, 100);
    assert_ne!(rec.flags & FLAG_TRUNCATED, 0);
}

#[test]
fn tcp_v4_exact_boundary_not_truncated() {
    let payload = vec![0xBBu8; 40];
    let rec = Slicer::new(40).process(&tcp_v4_frame(&payload), 1, false).unwrap();
    assert_eq!(rec.payload, payload);
    assert_eq!(rec.flags & FLAG_TRUNCATED, 0);
}

#[test]
fn tcp_v4_preserves_flags_ports_and_addr() {
    let rec = Slicer::new(4096).process(&tcp_v4_frame(b"GET / HTTP/1.1"), 999, false).unwrap();
    assert_eq!(rec.proto, 6);
    assert_eq!(rec.src_port, 12345);
    assert_eq!(rec.dst_port, 443);
    assert_eq!(rec.tcp_flags & TCP_SYN, TCP_SYN);
    assert_eq!(rec.tcp_flags & TCP_ACK, TCP_ACK);
    assert_eq!(rec.src_ip, [192, 168, 1, 10]);
    assert_eq!(rec.dst_ip, [10, 0, 0, 1]);
    assert_eq!(rec.timestamp_ns, 999);
}

/// The numbers and the window of the wire are kept.
#[test]
fn tcp_v4_preserves_seq_ack_window() {
    let rec = Slicer::new(4096)
        .process(&tcp_v4_frame(b"GET /api HTTP/1.1"), 1, false)
        .unwrap();
    assert_eq!(rec.tcp_seq, 100);
    assert_eq!(rec.tcp_ack, 50);
    assert_eq!(rec.window_size, 65535);
}

#[test]
fn udp_v4_zeroed_tcp_fields() {
    let rec = Slicer::new(4096).process(&udp_v4_frame(b"query"), 5, false).unwrap();
    assert_eq!(rec.proto, 17);
    assert_eq!(rec.tcp_flags, 0);
    assert_eq!(rec.tcp_seq, 0);
    assert_eq!(rec.tcp_ack, 0);
    assert_eq!(rec.window_size, 0);
    assert_eq!(rec.dst_port, 53);
}

/// IPv6 frames are not recorded.
#[test]
fn ipv6_frame_rejected_in_v04() {
    let src: [u8; 16] = [0x20, 0x01, 0x0d, 0xb8, 0, 0, 0, 0, 0, 0, 0, 0, 0, 0, 0, 1];
    let dst: [u8; 16] = [0xfe, 0x80, 0, 0, 0, 0, 0, 0, 0, 0, 0, 0, 0, 0, 0, 1];
    let mut frame = Vec::new();
    PacketBuilder::ethernet2(SRC_MAC, DST_MAC)
        .ipv6(src, dst, 64)
        .tcp(80, 443, 1, 65535)
        .write(&mut frame, b"v6")
        .unwrap();
    assert!(Slicer::new(4096).process(&frame, 7, false).is_none());
}

#[test]
fn rejects_non_ip_frame() {
    // ARP
    let frame = [
        0x02, 0x00, 0x00, 0x00, 0x00, 0x02, // dst mac
        0x02, 0x00, 0x00, 0x00, 0x00, 0x01, // src mac
        0x08, 0x06, // ethertype ARP
        0x00, 0x01, 0x08, 0x00, 0x06, 0x04, 0x00, 0x01,
    ];
    assert!(Slicer::new(4096).process(&frame, 0, false).is_none());
}

#[test]
fn rejects_non_tcp_udp_transport() {
    // ICMP echo request
    let mut frame = Vec::new();
    PacketBuilder::ethernet2(SRC_MAC, DST_MAC)
        .ipv4([192, 168, 1, 10], [10, 0, 0, 1], 64)
        .icmpv4_echo_request(1, 2)
        .write(&mut frame, b"ping")
        .unwrap();
    assert!(Slicer::new(4096).process(&frame, 0, false).is_none());
}

#[test]
fn garbage_returns_none() {
    assert!(Slicer::new(4096).process(&[0x00, 0x01, 0x02, 0x03], 0, false).is_none());
    assert!(Slicer::new(4096).process(&[], 0, false).is_none());
}

#[test]
fn degraded_sets_flag() {
    let rec = Slicer::new(4096).process(&tcp_v4_frame(b"x"), 1, true).unwrap();
    assert_ne!(rec.flags & FLAG_DEGRADED, 0);
}

#[test]
fn v4_truncated_record_is_roundtrip_consistent() {
    // TRUNCATED is not stored; it follows from the two lengths
    let payload = vec![0xCCu8; 200];
    let rec = Slicer::new(64).process(&tcp_v4_frame(&payload), 42, false).unwrap();
    let mut buf = Vec::new();
    rec.encode(&mut buf);
    let (decoded, residual) = WalRecord::decode_stream(&buf);
    assert_eq!(residual, 0);
    assert_eq!(decoded.len(), 1);
    assert_ne!(decoded[0].flags & FLAG_TRUNCATED, 0);
    assert_eq!(decoded[0].payload.len(), 64);
    assert_eq!(decoded[0].orig_payload_len, 200);
}

/// Slicing and encoding keep up with the packet rate that the probe is made for.
#[test]
fn hot_path_userspace_throughput() {
    let payload = vec![0xAAu8; 512];
    let frame = tcp_v4_frame(&payload);
    let slicer = Slicer::new(4096);
    let n = 300_000u64;
    let mut scratch = Vec::new();
    let mut checksum: u64 = 0;

    for _ in 0..10_000 {
        if let Some(rec) = slicer.process(&frame, 1, false) {
            scratch.clear();
            rec.encode(&mut scratch);
        }
    }
    scratch.clear();

    let t0 = std::time::Instant::now();
    for i in 0..n {
        if let Some(rec) = slicer.process(&frame, i, false) {
            scratch.clear();
            rec.encode(&mut scratch);
            checksum = checksum.wrapping_add(rec.payload.len() as u64);
        }
    }
    let dt = t0.elapsed().as_secs_f64();
    let pps = n as f64 / dt;
    println!("slicing and encoding, 512 bytes of payload: {:.0} packets per second", pps);
    assert!(pps > 200_000.0, "hot path too slow: {:.0} pps", pps);
    assert!(checksum > 0);
}

/// Every control bit has its place in the flag byte.
#[test]
fn flag_bits_of_a_tcp_header() {
    let none = TcpFields {
        src_port: 1,
        dst_port: 2,
        seq: 3,
        ack_no: 4,
        window: 5,
        fin: false,
        syn: false,
        rst: false,
        psh: false,
        ack: false,
        urg: false,
    };
    assert_eq!(extract_tcp_flags(&none), 0);
    assert_eq!(extract_tcp_flags(&TcpFields { fin: true, ..none }), TCP_FIN);
    assert_eq!(extract_tcp_flags(&TcpFields { syn: true, ..none }), TCP_SYN);
    assert_eq!(extract_tcp_flags(&TcpFields { rst: true, ..none }), TCP_RST);
    assert_eq!(extract_tcp_flags(&TcpFields { psh: true, ..none }), TCP_PSH);
    assert_eq!(extract_tcp_flags(&TcpFields { ack: true, ..none }), TCP_ACK);
    assert_eq!(extract_tcp_flags(&TcpFields { urg: true, ..none }), TCP_URG);
    let all = TcpFields {
        fin: true,
        syn: true,
        rst: true,
        psh: true,
        ack: true,
        urg: true,
        ..none
    };
    assert_eq!(extract_tcp_flags(&all), 0x3F);
}

/// The fields of a header are read at their places.
#[test]
fn transport_header_fields() {
    let header = [
        0x30, 0x39, 0x01, 0xBB, 0x11, 0x22, 0x33, 0x44, 0x55, 0x66, 0x77, 0x88, 0x50, 0x18, 0x20,
        0x00, 0, 0, 0, 0,
    ];
    let packet = SlicedFrame {
        net: NetLayer::Other,
        transport: TransportLayer::Tcp(&header),
        payload: &[],
    };
    let meta = transport_header(&packet).unwrap();
    assert_eq!((meta.src_port, meta.dst_port), (12345, 443));
    assert_eq!((meta.seq, meta.ack, meta.window), (0x1122_3344, 0x5566_7788, 8192));
    assert_eq!(meta.flags, TCP_ACK | TCP_PSH);
    let other = SlicedFrame { transport: TransportLayer::Other, ..packet };
    assert!(transport_header(&other).is_none());
}

/// A frame that was cut into its layers gives a record only with IPv4 and TCP or UDP.
#[test]
fn record_of_layers() {
    let net = NetLayer::Ipv4 { src: [1, 2, 3, 4], dst: [5, 6, 7, 8], protocol: 17 };
    let udp = TransportLayer::Udp { src_port: 9, dst_port: 10 };
    let packet = SlicedFrame { net, transport: udp, payload: b"abcdef" };
    let rec = Slicer::new(4).record_of(&packet, 77, true).unwrap();
    assert_eq!(rec.src_ip, [1, 2, 3, 4]);
    assert_eq!(rec.dst_ip, [5, 6, 7, 8]);
    assert_eq!((rec.src_port, rec.dst_port, rec.proto), (9, 10, 17));
    assert_eq!(rec.payload, b"abcd");
    assert_eq!(rec.orig_payload_len, 6);
    assert_eq!(rec.flags, FLAG_DEGRADED | FLAG_TRUNCATED);
    assert_eq!(rec.timestamp_ns, 77);
    let v6 = SlicedFrame { net: NetLayer::Other, ..packet };
    assert!(Slicer::new(4).record_of(&v6, 77, true).is_none());
    let icmp = SlicedFrame { transport: TransportLayer::Other, ..packet };
    assert!(Slicer::new(4).record_of(&icmp, 77, true).is_none());
}

/// Behind a VLAN tag the addresses are found as well.
#[test]
fn vlan_frame_is_recorded() {
    let mut frame = Vec::new();
    PacketBuilder::ethernet2(SRC_MAC, DST_MAC)
        .single_vlan(5)
        .ipv4([1, 2, 3, 4], [5, 6, 7, 8], 64)
        .udp(53, 5353)
        .write(&mut frame, b"dns")
        .unwrap();
    let rec = Slicer::new(4096).process(&frame, 1, false).unwrap();
    assert_eq!(rec.src_ip, [1, 2, 3, 4]);
    assert_eq!(rec.payload, b"dns");
}

/// A frame whose headers are not whole gives no record, wherever it is cut.
#[test]
fn cut_headers_give_no_record() {
    let slicer = Slicer::new(4096);
    let tcp = tcp_v4_frame(b"");
    assert_eq!(tcp.len(), 54);
    for n in 0..54 {
        assert!(slicer.process(&tcp[..n], 0, false).is_none(), "{}", n);
    }
    assert!(slicer.process(&tcp, 0, false).is_some());
    let udp = udp_v4_frame(b"");
    assert_eq!(udp.len(), 42);
    for n in 0..42 {
        assert!(slicer.process(&udp[..n], 0, false).is_none(), "{}", n);
    }
    assert!(slicer.process(&udp, 0, false).is_some());
    // a TCP header that says it is longer than the frame
    let mut long = tcp.clone();
    long[34 + 12] = 0x60;
    assert!(slicer.process(&long, 0, false).is_none());
    // protocols that are neither TCP nor UDP
    for protocol in [0u8, 1, 2, 41, 47, 50, 58, 132, 255] {
        let mut other = tcp.clone();
        other[23] = protocol;
        assert!(slicer.process(&other, 0, false).is_none(), "{}", protocol);
    }
    // a fragment has no transport header of its own
    let mut fragment = tcp.clone();
    fragment[20] = 0x20;
    assert!(slicer.process(&fragment, 0, false).is_none());
}

/// While load is shed, a frame is dropped and counted without being looked at.
#[test]
fn consume_sheds_skips_and_sends() {
    let capture = Capture::new(4096);
    let mut b = Breaker::new();
    b.degraded = true;
    assert!(matches!(capture.consume(&mut b, &tcp_v4_frame(b"x"), 5), FrameStep::Dropped));
    assert_eq!(b.dropped, 1);
    b.degraded = false;
    assert!(matches!(capture.consume(&mut b, &[0; 4], 5), FrameStep::Skipped));
    match capture.consume(&mut b, &tcp_v4_frame(b"x"), 5) {
        FrameStep::Send(rec) => {
            assert_eq!(rec.timestamp_ns, 5);
            assert_eq!(rec.flags, 0);
            assert_eq!(rec.payload, b"x");
        }
        _ => panic!("the frame should have been sent"),
    }
    assert_eq!(b.dropped, 1);
}

/// A time that does not fit is recorded as 0.
#[test]
fn timestamps_beyond_64_bits() {
    assert_eq!(timestamp_ns(123), 123);
    assert_eq!(timestamp_ns(u64::MAX as u128), u64::MAX);
    assert_eq!(timestamp_ns(u64::MAX as u128 + 1), 0);
}
