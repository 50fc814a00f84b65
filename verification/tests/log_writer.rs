use crossbeam_channel::{bounded, RecvTimeoutError};
use sov_probe::config::ConfigError;
use sov_probe::guard::breaker::Breaker;
use sov_probe::parse::slicer::Slicer;
use sov_probe::wal::header::WalRecord;
use sov_probe::wal::writer::{Received, Step, WalWriter, WriterParams};
use std::time::{Duration, Instant};

/// A TCP frame over IPv4 with 512 bytes of payload.
fn tcp_v4_frame() -> Vec<u8> {
    let payload = vec![0xAAu8; 512];
    let mut buf = Vec::new();
    etherparse::PacketBuilder::ethernet2([0x02, 0, 0, 0, 0, 1], [0x02, 0, 0, 0, 0, 2])
        .ipv4([192, 168, 1, 10], [10, 0, 0, 1], 64)
        .tcp(12345, 443, 100, 65535)
        .syn()
        .write(&mut buf, &payload)
        .unwrap();
    buf
}

fn params(segment_size: u64) -> WriterParams {
    WriterParams {
        shm_path: "/dev/shm/sov-probe".to_string(),
        max_segments: 8,
        segment_size,
        rotate_interval_ns: 5_000_000_000,
        queue_watermark: 100,
        written_records: 0,
        dropped_records: 0,
    }
}

fn record(payload: usize, tag: u64) -> WalRecord {
    WalRecord {
        timestamp_ns: tag,
        flags: 0,
        tcp_flags: 0,
        tcp_seq: 0,
        tcp_ack: 0,
        window_size: 0,
        src_ip: [10, 0, 0, 1],
        dst_ip: [10, 0, 0, 2],
        src_port: 1,
        dst_port: 2,
        proto: 6,
        orig_payload_len: payload as u32,
        payload: vec![tag as u8; payload],
    }
}

/// Segments in memory.
struct Disk {
    segments: Vec<(String, Vec<u8>)>,
}

impl Disk {
    fn open(&mut self, w: &mut WalWriter, now: u128) {
        let path = w.rotator.next_segment();
        self.segments.push((path.clone(), Vec::new()));
        w.segment_opened(path, now);
    }

    fn step(&mut self, w: &mut WalWriter, step: Step, now: u128) {
        if let Step::Write { rotate_first } = step {
            if rotate_first {
                self.open(w, now);
            }
            assert!(w.can_count());
            self.segments.last_mut().unwrap().1.extend_from_slice(&w.scratch);
            w.record_written();
        }
        if w.maybe_rotate(now) {
            self.open(w, now);
        }
    }
}

/// Slicer, bounded channel and writer together, all records in memory.
#[test]
fn full_pipeline_throughput_bench() {
    const N: u64 = 200_000;
    let mut breaker = Breaker::new();
    let (tx, rx) = bounded::<WalRecord>(1_000_000);
    let mut writer = WalWriter::new(params(256 * 1024 * 1024), &Vec::new(), 0).unwrap();
    let frame = tcp_v4_frame();
    let slicer = Slicer::new(4096);
    let mut bytes: u64 = 0;
    let mut sent: u64 = 0;
    let path = writer.rotator.next_segment();
    writer.segment_opened(path, 0);
    let t0 = Instant::now();
    while sent < N {
        for _ in 0..1000 {
            if let Some(rec) = slicer.process(&frame, sent, false) {
                tx.send(rec).unwrap();
            }
            sent += 1;
        }
        loop {
            breaker.hot_path_check(&rx, writer.queue_watermark);
            let received = match rx.recv_timeout(Duration::from_millis(0)) {
                Ok(rec) => Received::Record(rec),
                Err(RecvTimeoutError::Timeout) => Received::Timeout,
                Err(_) => Received::Disconnected,
            };
            match writer.on_received(&breaker, received, 0) {
                Step::Write { rotate_first } => {
                    assert!(!rotate_first);
                    bytes += writer.scratch.len() as u64;
                    writer.record_written();
                }
                _ => break,
            }
        }
    }
    let dt = t0.elapsed().as_secs_f64();
    let n_written = writer.written_records;
    println!("whole path, 512 bytes of payload: {:.0} records per second", n_written as f64 / dt);
    assert!(n_written > 0, "nothing was written");
    assert_eq!(n_written, N);
    assert_eq!(writer.dropped_records, 0);
    assert_eq!(bytes, N * (64 + 512));
    assert_eq!(writer.written, bytes);
}

/// A record that does not fit opens the next segment; one that fits exactly does not.
#[test]
fn size_decides_the_rotation() {
    let mut w = WalWriter::new(params(200), &Vec::new(), 0).unwrap();
    let mut disk = Disk { segments: Vec::new() };
    disk.open(&mut w, 0);
    for (i, len) in [36usize, 36, 0, 10].into_iter().enumerate() {
        let step = w.handle_record(false, &record(len, i as u64));
        assert_eq!(step, Step::Write { rotate_first: i == 2 });
        disk.step(&mut w, step, 0);
    }
    assert_eq!(disk.segments.len(), 2);
    assert_eq!(disk.segments[0].0, "/dev/shm/sov-probe/segment_0000.wal");
    assert_eq!(disk.segments[0].1.len(), 200);
    assert_eq!(disk.segments[1].1.len(), 64 + 74);
    assert_eq!(w.current_path, "/dev/shm/sov-probe/segment_0001.wal");
    assert_eq!(w.written, 138);
    assert_eq!(w.written_records, 4);
}

/// A record larger than a segment is dropped and counted; one that fills it is written.
#[test]
fn oversized_record_is_dropped() {
    let mut w = WalWriter::new(params(100), &Vec::new(), 0).unwrap();
    let mut disk = Disk { segments: Vec::new() };
    disk.open(&mut w, 0);
    for (i, len) in [37usize, 5, 200, 36].into_iter().enumerate() {
        let step = w.handle_record(false, &record(len, i as u64));
        assert_eq!(step == Step::Dropped, len > 36);
        disk.step(&mut w, step, 0);
    }
    let sizes: Vec<usize> = disk.segments.iter().map(|s| s.1.len()).collect();
    assert_eq!(sizes, [69, 100]);
    assert_eq!((w.written_records, w.dropped_records), (2, 2));
}

/// Over all segments the records come back in the order in which they were written, and no segment
/// is larger than its size.
#[test]
fn segments_hold_every_record_in_order() {
    let mut w = WalWriter::new(params(1000), &Vec::new(), 0).unwrap();
    let mut disk = Disk { segments: Vec::new() };
    disk.open(&mut w, 0);
    for i in 0..200u64 {
        let step = w.handle_record(false, &record((i * 37 % 300) as usize, i));
        disk.step(&mut w, step, i as u128 * 1_000_000_000);
    }
    let mut seen: Vec<u64> = Vec::new();
    for (_, bytes) in &disk.segments {
        assert!(bytes.len() <= 1000);
        let (records, residual) = WalRecord::decode_stream(bytes);
        assert_eq!(residual, 0);
        seen.extend(records.iter().map(|r| r.timestamp_ns));
    }
    assert_eq!(seen, (0..200).collect::<Vec<u64>>());
}

/// While load is shed, records are dropped and counted, and nothing else changes.
#[test]
fn shed_records_are_counted() {
    let mut w = WalWriter::new(params(1000), &Vec::new(), 0).unwrap();
    let mut b = Breaker::new();
    b.degraded = true;
    assert_eq!(w.on_received(&b, Received::Record(record(1, 1)), 0), Step::Dropped);
    assert_eq!(w.dropped_records, 1);
    assert!(w.scratch.is_empty());
    assert_eq!(w.on_received(&b, Received::Timeout, 0), Step::Idle);
    assert_eq!(w.on_received(&b, Received::Disconnected, 0), Step::Finish);
    b.degraded = false;
    let step = w.on_received(&b, Received::Record(record(1, 1)), 0);
    assert_eq!(step, Step::Write { rotate_first: false });
    assert_eq!(w.scratch.len(), 65);
    w.record_written();
    assert_eq!((w.written, w.written_records), (0, 0), "no segment is open");
}

/// The time of a segment is over only once something was written to it.
#[test]
fn time_decides_the_rotation() {
    let mut w = WalWriter::new(params(1000), &Vec::new(), 7).unwrap();
    assert_eq!(w.next_rotate_ns, 5_000_000_007);
    let path = w.rotator.next_segment();
    w.segment_opened(path, 100);
    assert_eq!(w.next_rotate_ns, 5_000_000_100);
    assert!(!w.maybe_rotate(6_000_000_000));
    w.handle_record(false, &record(1, 1));
    w.record_written();
    assert!(!w.maybe_rotate(5_000_000_099));
    assert!(w.maybe_rotate(5_000_000_100));
    // without any further record
    let b = Breaker::new();
    assert_eq!(w.on_received(&b, Received::Timeout, 5_000_000_099), Step::Idle);
    assert_eq!(w.on_received(&b, Received::Timeout, 5_000_000_100), Step::Rotate);
}

#[test]
fn writer_refuses_no_segments() {
    let mut p = params(1);
    p.max_segments = 0;
    assert_eq!(WalWriter::new(p, &Vec::new(), 0).err(), Some(ConfigError::MaxSegments));
}
