use sov_probe::parse::slicer::Slicer;
use sov_probe::pcap::{convert, output_path, pcap_entry, synthesize};
use sov_probe::wal::header::{WalRecord, TCP_ACK, TCP_SYN};

fn record(proto: u16, tcp_flags: u8) -> WalRecord {
    WalRecord {
        timestamp_ns: 1_700_000_000_000,
        flags: 0,
        tcp_flags,
        tcp_seq: 0x1122_3344,
        tcp_ack: 0x5566_7788,
        window_size: 8192,
        src_ip: [192, 168, 1, 10],
        dst_ip: [10, 0, 0, 1],
        src_port: 12345,
        dst_port: 443,
        proto,
        orig_payload_len: 5,
        payload: b"hello".to_vec(),
    }
}

#[test]
fn synthesize_tcp_ipv4_layout() {
    let rec = record(6, TCP_SYN | TCP_ACK);
    let packet = synthesize(&rec);
    let expect_len = 14 + 20 + (20 + rec.payload.len());
    assert_eq!(packet.len(), expect_len);
    // Ethernet II: both addresses and the ether type
    assert_eq!(&packet[0..6], &[0x02, 0, 0, 0, 0, 2]);
    assert_eq!(&packet[6..12], &[0x02, 0, 0, 0, 0, 1]);
    assert_eq!(&packet[12..14], &[0x08, 0x00]);
    // IPv4: version and header length, protocol, addresses
    assert_eq!(packet[14], 0x45);
    assert_eq!(packet[14 + 9], 6);
    assert_eq!(&packet[14 + 12..14 + 16], &[192, 168, 1, 10]);
    assert_eq!(&packet[14 + 16..14 + 20], &[10, 0, 0, 1]);
    // TCP: ports and flags
    let tcp = 14 + 20;
    assert_eq!(&packet[tcp..tcp + 2], &[48, 57]);
    assert_eq!(&packet[tcp + 2..tcp + 4], &[1, 187]);
    assert_eq!(packet[tcp + 13], TCP_SYN | TCP_ACK);
    // payload at the end
    assert_eq!(&packet[expect_len - 5..], b"hello");
}

/// The numbers and the window of the wire are in the TCP header.
#[test]
fn synthesize_tcp_preserves_seq_ack_window() {
    let rec = record(6, TCP_SYN | TCP_ACK);
    let packet = synthesize(&rec);
    let tcp = 14 + 20;
    assert_eq!(
        u32::from_be_bytes([packet[tcp + 4], packet[tcp + 5], packet[tcp + 6], packet[tcp + 7]]),
        rec.tcp_seq
    );
    assert_eq!(
        u32::from_be_bytes([packet[tcp + 8], packet[tcp + 9], packet[tcp + 10], packet[tcp + 11]]),
        rec.tcp_ack
    );
    assert_eq!(u16::from_be_bytes([packet[tcp + 14], packet[tcp + 15]]), rec.window_size);
}

#[test]
fn synthesize_udp_ipv4_layout() {
    let rec = record(17, 0);
    let packet = synthesize(&rec);
    let expect_len = 14 + 20 + (8 + rec.payload.len());
    assert_eq!(packet.len(), expect_len);
    assert_eq!(packet[14 + 9], 17);
    // UDP length: header and payload
    let udp = 14 + 20;
    let ulen = u16::from_be_bytes([packet[udp + 4], packet[udp + 5]]);
    assert_eq!(ulen, 8 + rec.payload.len() as u16);
}

#[test]
fn output_path_single_file() {
    let p = output_path(Some("/tmp/out.pcap"), None, "/tmp/a.wal", "a");
    assert_eq!(p, "/tmp/out.pcap");
}

#[test]
fn output_path_out_dir() {
    let p = output_path(None, Some("/tmp/converted"), "/tmp/seg_0005.wal", "seg_0005");
    assert_eq!(p, "/tmp/converted/seg_0005.pcap");
}

#[test]
fn output_path_default() {
    let p = output_path(None, None, "/tmp/seg_0000.wal", "seg_0000");
    assert_eq!(p, "/tmp/seg_0000.wal.pcap");
}

/// The directory goes before the file name.
#[test]
fn output_directory_wins() {
    let p = output_path(Some("/tmp/out.pcap"), Some("/tmp/d"), "/tmp/a.wal", "a");
    assert_eq!(p, "/tmp/d/a.pcap");
}

/// What is synthesized is sliced back to the record.
#[test]
fn synthesized_frames_slice_back() {
    let rec = record(6, TCP_SYN | TCP_ACK);
    let back = Slicer::new(4096).process(&synthesize(&rec), rec.timestamp_ns, false).unwrap();
    assert_eq!(back.src_ip, rec.src_ip);
    assert_eq!(back.dst_ip, rec.dst_ip);
    assert_eq!((back.src_port, back.dst_port), (rec.src_port, rec.dst_port));
    assert_eq!((back.tcp_seq, back.tcp_ack), (rec.tcp_seq, rec.tcp_ack));
    assert_eq!((back.tcp_flags, back.window_size), (rec.tcp_flags, rec.window_size));
    assert_eq!(back.payload, rec.payload);
    assert_eq!(back.proto, 6);
    let udp = record(17, 0);
    let back = Slicer::new(4096).process(&synthesize(&udp), 1, false).unwrap();
    assert_eq!((back.src_port, back.dst_port, back.proto), (12345, 443, 17));
    assert_eq!(back.payload, b"hello");
}

/// The length on the wire is that of the headers and the whole payload.
#[test]
fn entry_lengths() {
    let mut rec = record(6, 0);
    rec.orig_payload_len = 1000;
    let e = pcap_entry(&rec);
    assert_eq!(e.orig_len, 1054);
    assert_eq!(e.data.len(), 59);
    assert_eq!(e.timestamp_ns, 1_700_000_000_000);
    rec.proto = 17;
    assert_eq!(pcap_entry(&rec).orig_len, 1042);
    rec.orig_payload_len = u32::MAX;
    assert_eq!(pcap_entry(&rec).orig_len, 41);
}

/// The filter takes either port and keeps the order.
#[test]
fn conversion_filters_by_port() {
    let mut records = Vec::new();
    for (i, (src, dst)) in [(1u16, 443u16), (443, 1), (1, 2), (443, 443)].into_iter().enumerate() {
        let mut rec = record(6, 0);
        rec.timestamp_ns = i as u64;
        rec.src_port = src;
        rec.dst_port = dst;
        records.push(rec);
    }
    let times = |f: Option<u16>| -> Vec<u64> {
        convert(&records, f).iter().map(|e| e.timestamp_ns).collect()
    };
    assert_eq!(times(None), [0, 1, 2, 3]);
    assert_eq!(times(Some(443)), [0, 1, 3]);
    assert_eq!(times(Some(2)), [2]);
    assert!(times(Some(9)).is_empty());
}
