use crossbeam_channel::{bounded, unbounded, Receiver, Sender};
use sov_probe::config::Config;
use sov_probe::guard::breaker::Breaker;
use sov_probe::wal::header::WalRecord;

fn sample_record() -> WalRecord {
    WalRecord {
        timestamp_ns: 1,
        flags: 0,
        tcp_flags: 0x02,
        tcp_seq: 0,
        tcp_ack: 0,
        window_size: 0,
        src_ip: [192, 168, 1, 10],
        dst_ip: [10, 0, 0, 1],
        src_port: 12345,
        dst_port: 443,
        proto: 6,
        orig_payload_len: 10,
        payload: b"0123456789".to_vec(),
    }
}

fn fill(tx: &Sender<WalRecord>, n: usize) {
    for _ in 0..n {
        let _ = tx.send(sample_record());
    }
}

fn drain(rx: &Receiver<WalRecord>, n: usize) {
    for _ in 0..n {
        let _ = rx.try_recv();
    }
}

#[test]
fn fresh_breaker_not_degraded() {
    let b = Breaker::new();
    assert!(!b.is_degraded());
    assert_eq!(b.dropped, 0);
}

/// From the watermark on, load is shed.
#[test]
fn watermark_triggers_degradation() {
    let (tx, rx) = bounded::<WalRecord>(100);
    fill(&tx, 80);
    let mut b = Breaker::new();
    b.hot_path_check(&rx, 80);
    assert!(b.is_degraded(), "80% is at the watermark");
}

/// Just below the watermark nothing changes.
#[test]
fn just_below_watermark_keeps_healthy() {
    let (tx, rx) = bounded::<WalRecord>(100);
    fill(&tx, 79);
    let mut b = Breaker::new();
    b.hot_path_check(&rx, 80);
    assert!(!b.is_degraded());
}

/// Below half the watermark the breaker recovers.
#[test]
fn below_half_recovers() {
    let (tx, rx) = bounded::<WalRecord>(100);
    fill(&tx, 80);
    let mut b = Breaker::new();
    b.hot_path_check(&rx, 80);
    assert!(b.is_degraded());
    drain(&rx, 50); // 30% is left, below 40%
    b.hot_path_check(&rx, 80);
    assert!(!b.is_degraded(), "30% is below 40%");
}

/// Between half the watermark and the watermark, the state is kept.
#[test]
fn hysteresis_zone_holds_state() {
    let (tx, rx) = bounded::<WalRecord>(100);
    fill(&tx, 60);
    let mut b = Breaker::new();
    b.hot_path_check(&rx, 80);
    assert!(!b.is_degraded());

    let (tx2, rx2) = bounded::<WalRecord>(100);
    fill(&tx2, 80);
    b.hot_path_check(&rx2, 80);
    assert!(b.is_degraded());
    drain(&rx2, 20); // 60% is left
    b.hot_path_check(&rx2, 80);
    assert!(b.is_degraded(), "60% keeps the state");
}

/// A channel without bound has no watermark.
#[test]
fn unbounded_channel_noop() {
    let (tx, rx) = unbounded::<WalRecord>();
    let mut b = Breaker::new();
    fill(&tx, 10_000);
    b.hot_path_check(&rx, 80);
    assert!(!b.is_degraded());
}

/// A channel without any place has no fill in percent.
#[test]
fn rendezvous_channel_is_not_checked() {
    let (_tx, rx) = bounded::<WalRecord>(0);
    let mut b = Breaker::default();
    b.degraded = true;
    assert!(!b.try_hot_path_check(&rx, 80));
    assert!(b.is_degraded());
    let (tx, rx) = bounded::<WalRecord>(4);
    assert!(b.try_hot_path_check(&rx, 80));
    assert!(!b.is_degraded());
    fill(&tx, 4);
    assert!(b.try_hot_path_check(&rx, 80));
    assert!(b.is_degraded());
}

/// Percents are whole: 3 of 4 is 75, and at the limits of the type nothing overflows.
#[test]
fn fill_in_whole_percent() {
    let mut b = Breaker::new();
    b.watermark_check(Some(4), 3, 75);
    assert!(b.is_degraded());
    let mut b = Breaker::new();
    b.watermark_check(Some(1000), 759, 76);
    assert!(!b.is_degraded());
    b.watermark_check(Some(usize::MAX), usize::MAX, 100);
    assert!(b.is_degraded());
    b.watermark_check(None, usize::MAX, 0);
    assert!(b.is_degraded());
}

/// A look at the same fill twice is as one.
#[test]
fn same_fill_does_not_flicker() {
    for fill in 0..=100usize {
        for start in [false, true] {
            let mut b = Breaker { degraded: start, dropped: 0 };
            b.watermark_check(Some(100), fill, 80);
            let once = b.is_degraded();
            b.watermark_check(Some(100), fill, 80);
            assert_eq!(b.is_degraded(), once);
            let expect = if fill >= 80 {
                true
            } else if fill < 40 {
                false
            } else {
                start
            };
            assert_eq!(once, expect);
        }
    }
}

#[test]
fn drops_are_counted() {
    let mut b = Breaker::new();
    b.count_drop();
    b.count_drop();
    assert_eq!(b.dropped, 2);
    let mut b = Breaker { degraded: true, dropped: u64::MAX };
    b.count_drop();
    assert_eq!(b.dropped, 0);
    assert!(b.is_degraded());
}

/// 64 MB are 16384 pages, and four fifths of them 13107.2; a load of 85 percent has 68 for its
/// four fifths.
#[test]
fn sampler_limits() {
    let cfg = Config::default();
    let mut b = Breaker::new();
    b.background_sample(&cfg, Some(16384), Some(0), None);
    assert!(!b.is_degraded());
    b.background_sample(&cfg, Some(16385), Some(0), None);
    assert!(b.is_degraded());
    b.background_sample(&cfg, Some(13108), Some(0), None);
    assert!(b.is_degraded(), "above four fifths it stays");
    b.background_sample(&cfg, Some(13107), Some(0), None);
    assert!(!b.is_degraded(), "at four fifths it recovers");
    b.background_sample(&cfg, Some(1), Some(86), None);
    assert!(b.is_degraded());
    b.background_sample(&cfg, Some(1), Some(69), None);
    assert!(b.is_degraded());
    b.background_sample(&cfg, Some(1), Some(68), None);
    assert!(!b.is_degraded());
    b.background_sample(&cfg, Some(1), Some(85), None);
    assert!(!b.is_degraded());
    b.degraded = true;
    b.background_sample(&cfg, None, None, None);
    assert!(!b.is_degraded(), "samples that could not be taken hold nothing up");
}

/// CPU use above its limit trips the breaker by itself; use within it holds nothing up.
#[test]
fn cpu_use_trips_the_breaker() {
    let cfg = Config::default();
    let mut b = Breaker::new();
    b.background_sample(&cfg, Some(1), Some(1), Some(true));
    assert!(b.is_degraded());
    b.background_sample(&cfg, Some(1), Some(1), Some(false));
    assert!(!b.is_degraded());
    b.background_sample(&cfg, None, None, Some(true));
    assert!(b.is_degraded());
    b.background_sample(&cfg, Some(13108), Some(1), Some(false));
    assert!(b.is_degraded(), "memory keeps it");
}
