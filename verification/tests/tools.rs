use sov_probe::config::{Config, ConfigError, Overrides};
use sov_probe::genwal::{accepts_segno, genwal, genwal_distinct, wal_path};
use sov_probe::metrics::{http_response, Metrics};
use sov_probe::text::{
    char_is_digit, char_is_space, chars_of, parse_u64, push_decimal, push_decimal4, second_word,
    split_list, text_of,
};
use sov_probe::wal::header::WalRecord;

fn valid() -> Config {
    let mut c = Config::default();
    c.interfaces = vec!["eth0".to_string()];
    c
}

#[test]
fn defaults_of_the_configuration() {
    let c = Config::default();
    assert_eq!(c.slice_bytes, 4096);
    assert_eq!(c.segment_size, 64 * 1024 * 1024);
    assert_eq!(c.rotate_interval_secs, 5);
    assert_eq!(c.max_segments, 8);
    assert_eq!(c.queue_capacity, 100_000);
    assert_eq!(c.queue_high_watermark, 80);
    assert_eq!(c.ram_limit_mb, 64);
    assert_eq!(c.host_cpu_limit_pct, 85);
    assert_eq!(c.shm_path, "/dev/shm/sov-probe");
    assert_eq!(c.metrics_addr, "0.0.0.0:9101");
    assert_eq!(c.sampler_interval_secs, 1);
    assert!(c.interfaces.is_empty() && c.capture_ports.is_empty());
}

/// Each fault has its error, and the first one counts.
#[test]
fn configuration_faults() {
    assert_eq!(valid().validate(), Ok(()));
    assert_eq!(Config::default().validate(), Err(ConfigError::NoInterface));
    let mut c = valid();
    c.queue_high_watermark = 101;
    assert_eq!(c.validate(), Err(ConfigError::QueueHighWatermark));
    c.max_segments = 0;
    assert_eq!(c.validate(), Err(ConfigError::MaxSegments));
    c.segment_size = 0;
    assert_eq!(c.validate(), Err(ConfigError::SegmentSize));
    c.slice_bytes = 65537;
    assert_eq!(c.validate(), Err(ConfigError::SliceBytes));
    c.slice_bytes = 0;
    assert_eq!(c.validate(), Err(ConfigError::SliceBytes));
    let mut c = valid();
    c.slice_bytes = 65536;
    c.queue_high_watermark = 100;
    assert_eq!(c.validate(), Ok(()));
    assert_eq!(ConfigError::MaxSegments.message(), "max_segments >= 1");
    assert_eq!(ConfigError::SliceBytes.message(), "slice_bytes 非法");
    assert_eq!(ConfigError::SegmentSize.message(), "segment_size 非法");
    assert_eq!(ConfigError::NoInterface.message(), "至少需要一个接口 --interface");
    assert_eq!(ConfigError::QueueHighWatermark.message(), "queue_high_watermark 应在 0-100");
}

/// The command line goes before the file, where it says something.
#[test]
fn command_line_overrides() {
    let cli = Overrides {
        interface: "eth0, eth1".to_string(),
        capture_ports: Some(vec![80, 443]),
        slice_bytes: None,
        segment_size: Some(7),
        rotate_interval: None,
        shm_path: Some("/tmp/x".to_string()),
    };
    let c = Config::default().overridden(cli);
    assert_eq!(c.interfaces, ["eth0", "eth1"]);
    assert_eq!(c.capture_ports, [80, 443]);
    assert_eq!(c.slice_bytes, 4096);
    assert_eq!(c.segment_size, 7);
    assert_eq!(c.rotate_interval_secs, 5);
    assert_eq!(c.shm_path, "/tmp/x");
    assert_eq!(c.max_segments, 8);
}

#[test]
fn metrics_text() {
    let m = Metrics { captured: 1, written: 22, dropped: 333, degraded: 4, slicer_dropped: 0 };
    let expect = "# HELP sovprobe_captured_total 捕获帧数\n\
        # TYPE sovprobe_captured_total counter\nsovprobe_captured_total 1\n\
        # TYPE sovprobe_written_total counter\nsovprobe_written_total 22\n\
        # TYPE sovprobe_dropped_total counter\nsovprobe_dropped_total 333\n\
        # TYPE sovprobe_degraded_total counter\nsovprobe_degraded_total 4\n\
        # TYPE sovprobe_degraded_now gauge\nsovprobe_degraded_now 1\n\
        # TYPE sovprobe_slicer_dropped_total counter\nsovprobe_slicer_dropped_total 0\n";
    assert_eq!(m.render(true), expect);
    assert!(Metrics::default().render(false).contains("sovprobe_degraded_now 0\n"));
}

/// The length in the response is in bytes, not in characters.
#[test]
fn metrics_response() {
    assert_eq!(
        http_response("数a"),
        "HTTP/1.1 200 OK\r\nContent-Type: text/plain\r\nContent-Length: 4\r\nConnection: close\r\n\r\n数a"
    );
}

#[test]
fn decimal_texts() {
    for n in [0u64, 7, 10, 99, 1000, 12345, u64::MAX] {
        let mut s = String::new();
        push_decimal(&mut s, n);
        assert_eq!(s, format!("{}", n));
        let chars = chars_of(&s);
        assert_eq!(parse_u64(&chars, 0, chars.len()), Some(n));
        let mut s = String::from("x");
        push_decimal4(&mut s, n);
        assert_eq!(s, format!("x{:04}", n));
    }
}

/// Text is read as a number as the standard library reads it.
#[test]
fn parsing_numbers() {
    for s in ["", "+", "+5", "-5", "007", "18446744073709551615", "18446744073709551616", "5 ", "5a"] {
        let chars = chars_of(s);
        assert_eq!(parse_u64(&chars, 0, chars.len()), s.parse::<u64>().ok(), "{:?}", s);
    }
    assert!(char_is_digit('0') && char_is_digit('9') && !char_is_digit('a'));
}

#[test]
fn words_and_lists() {
    for s in ["", "a", "a b", "  a\tb c", "a\u{3000}b", "a\u{a0}bc d", "a "] {
        let chars = chars_of(s);
        let second = second_word(&chars).map(|(from, to)| text_of(&chars, from, to));
        let expect = s.split_whitespace().nth(1).map(|w| w.to_string());
        assert_eq!(second, expect, "{:?}", s);
    }
    for s in ["", "eth0", "eth0,eth1", " eth0 , eth1 ", ",", "a,,b", "a\u{3000},b"] {
        let expect: Vec<String> = s.split(',').map(|p| p.trim().to_string()).collect();
        assert_eq!(split_list(s), expect, "{:?}", s);
    }
    for u in 0..0x11_0000u32 {
        if let Some(c) = char::from_u32(u) {
            assert_eq!(char_is_space(c), c.is_whitespace(), "{:?}", c);
        }
    }
}

#[test]
fn generated_log() {
    let log = genwal();
    let (records, residual) = WalRecord::decode_stream(&log);
    assert_eq!((records.len(), residual), (50, 0));
    let r = &records[49];
    assert_eq!(r.payload, b"GET /api/orders/49 HTTP/1.1\r\nHost: api.example.com\r\n");
    assert_eq!(r.timestamp_ns, 1_700_000_000_049);
    assert_eq!(r.src_ip, [192, 168, 1, 10]);
    assert_eq!(r.dst_ip, [10, 0, 0, 1]);
    assert_eq!((r.src_port, r.dst_port, r.proto, r.tcp_flags), (12345, 443, 6, 0x02));
    assert_eq!(r.orig_payload_len as usize, r.payload.len());
    assert_eq!(r.flags, 0);
}

#[test]
fn generated_segment() {
    let log = genwal_distinct(257);
    let (records, residual) = WalRecord::decode_stream(&log);
    assert_eq!((records.len(), residual), (200, 0));
    let r = &records[3];
    let expect = "POST /api/orders/3 HTTP/1.1\r\nHost: seg257-example.com\r\nContent-Length: 64\r\nX-Test: distinct-257-3\r\n\r\n{}";
    assert_eq!(r.payload, expect.as_bytes());
    assert_eq!(r.timestamp_ns, 1_700_000_257_003);
    assert_eq!(r.src_ip, [10, 0, 0, 1]);
    assert_eq!(r.src_port, 10257);
    assert_eq!((r.dst_port, r.tcp_flags), (8080, 0x10));
    assert!(accepts_segno(0) && accepts_segno(55535) && accepts_segno(65536));
    assert!(!accepts_segno(55536) && !accepts_segno(u64::MAX));
    assert_eq!(wal_path("/tmp/w", 257), "/tmp/w/segment_0257.wal");
}
