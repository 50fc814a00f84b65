use sov_probe::config::ConfigError;
use sov_probe::wal::rotate::{join, ledger_line, segment_no, Rotator};

const DIR: &str = "/dev/shm/sov-probe";

/// A directory in memory.
struct Dir {
    names: Vec<String>,
    ledger: Option<String>,
}

impl Dir {
    fn with(names: &[&str]) -> Dir {
        Dir { names: names.iter().map(|n| n.to_string()).collect(), ledger: None }
    }

    fn name_of(path: &str) -> String {
        path.rsplit('/').next().unwrap().to_string()
    }

    /// Opens the next segment, removes the oldest ones above the budget, and writes the ledger.
    fn next(&mut self, r: &mut Rotator) -> String {
        let no = r.seg_no;
        let path = r.next_segment();
        let name = Dir::name_of(&path);
        assert!(!self.names.contains(&name), "a name is used once");
        self.names.push(name);
        let removal = r.enforce_budget(&self.names);
        for oldest in &removal.paths {
            let oldest = Dir::name_of(oldest);
            self.names.retain(|n| *n != oldest);
        }
        if removal.ledger.is_some() {
            self.ledger = removal.ledger;
        }
        self.ledger = Some(ledger_line(no, None, self.ledger.as_deref()));
        path
    }
}

#[test]
fn segments_monotonic_unique() {
    let mut dir = Dir::with(&[]);
    let mut r = Rotator::new(DIR, 2, &dir.names).unwrap();
    let s1 = dir.next(&mut r);
    let s2 = dir.next(&mut r);
    let s3 = dir.next(&mut r);
    let s4 = dir.next(&mut r);
    assert!(s1.ends_with("segment_0000.wal"));
    assert!(s2.ends_with("segment_0001.wal"));
    assert!(s3.ends_with("segment_0002.wal"));
    assert!(s4.ends_with("segment_0003.wal"));
    assert_ne!(s1, s3);
    assert_ne!(s2, s4);
}

#[test]
fn unlink_oldest_keeps_budget() {
    let mut dir = Dir::with(&[]);
    let mut r = Rotator::new(DIR, 2, &dir.names).unwrap();
    for _ in 0..5 {
        dir.next(&mut r);
    }
    assert_eq!(r.existing_count(&dir.names), 2);
    assert!(r.min_existing_no(&dir.names) >= 3);
    assert_eq!(dir.names, ["segment_0003.wal", "segment_0004.wal"]);
    assert_eq!(r.min_no(), 3);
    assert_eq!(dir.ledger.as_deref(), Some("4 3\n"));
}

#[test]
fn restart_skips_existing_segments() {
    let mut dir = Dir::with(&["segment_0003.wal", "segment_0007.wal"]);
    let (next, min) = Rotator::scan_existing(&dir.names);
    assert_eq!(next, 8);
    assert_eq!(min, 3);
    let mut r = Rotator::new(DIR, 8, &dir.names).unwrap();
    let p = dir.next(&mut r);
    assert!(p.ends_with("segment_0008.wal"));
}

/// Only a name of the right form has a number.
#[test]
fn segment_numbers() {
    assert_eq!(segment_no("segment_0007.wal"), Some(7));
    assert_eq!(segment_no("segment_7.wal"), Some(7));
    assert_eq!(segment_no("segment_+7.wal"), Some(7));
    assert_eq!(segment_no("segment_12345.wal"), Some(12345));
    assert_eq!(segment_no("segment_18446744073709551615.wal"), Some(u64::MAX));
    assert_eq!(segment_no("segment_18446744073709551616.wal"), None);
    assert_eq!(segment_no("segment_.wal"), None);
    assert_eq!(segment_no("segment_x.wal"), None);
    assert_eq!(segment_no("segment_0007"), None);
    assert_eq!(segment_no("ledger"), None);
    assert_eq!(segment_no(""), None);
}

/// A name gives its number back, whatever the number.
#[test]
fn segment_names_read_back() {
    let r = Rotator { shm_path: DIR.to_string(), max_segments: 1, seg_no: 0, min_no: 0 };
    for no in [0u64, 9, 42, 999, 9999, 10_000, 123_456, u64::MAX] {
        let path = r.seg_path(no);
        assert_eq!(path, format!("{}/segment_{:04}.wal", DIR, no));
        assert_eq!(segment_no(&Dir::name_of(&path)), Some(no));
    }
    assert_eq!(r.ledger_path(), "/dev/shm/sov-probe/ledger");
}

#[test]
fn no_segment_allowed_is_refused() {
    assert_eq!(Rotator::new(DIR, 0, &Vec::new()).err(), Some(ConfigError::MaxSegments));
}

/// Other files are no segments, whatever their names start with.
#[test]
fn only_segments_are_counted() {
    let dir = Dir::with(&["segment_0000.wal", "segment_notes.txt", "ledger"]);
    let r = Rotator::new(DIR, 2, &dir.names).unwrap();
    assert_eq!(r.existing_count(&dir.names), 1);
    let dir = Dir::with(&["ledger", "segment_0001.wal", "segment_x", ".segment_0002.wal"]);
    assert_eq!(Rotator::scan_existing(&dir.names), (2, 1));
    assert_eq!(Rotator::scan_existing(&Vec::new()), (0, 0));
    let r = Rotator::new(DIR, 3, &dir.names).unwrap();
    assert_eq!(r.existing_count(&dir.names), 1);
    assert_eq!(r.min_existing_no(&dir.names), 1);
    assert_eq!(r.min_existing_no(&Vec::new()), 2);
}

/// As many other files as segments are allowed take no segment's place.
#[test]
fn other_files_take_no_place() {
    let mut dir = Dir::with(&["segment_a.wal", "segment_b", "segment_notes.txt"]);
    let mut r = Rotator::new(DIR, 2, &dir.names).unwrap();
    for _ in 0..3 {
        dir.next(&mut r);
    }
    assert_eq!(r.existing_count(&dir.names), 2);
    assert_eq!(
        dir.names,
        ["segment_a.wal", "segment_b", "segment_notes.txt", "segment_0001.wal", "segment_0002.wal"]
    );
}

/// A restart over a full directory removes the oldest and uses no name again.
#[test]
fn restart_over_a_full_directory() {
    let mut dir = Dir::with(&["segment_0004.wal", "segment_0005.wal", "segment_0006.wal"]);
    let mut r = Rotator::new(DIR, 3, &dir.names).unwrap();
    assert_eq!((r.seg_no, r.min_no()), (7, 4));
    dir.next(&mut r);
    assert_eq!(dir.names, ["segment_0005.wal", "segment_0006.wal", "segment_0007.wal"]);
    assert_eq!(r.min_no(), 5);
}

/// The ledger keeps its read cursor; without one it starts at the write cursor.
#[test]
fn ledger_lines() {
    assert_eq!(ledger_line(7, Some(3), None), "7 3\n");
    assert_eq!(ledger_line(7, None, Some("5 2\n")), "7 2\n");
    assert_eq!(ledger_line(7, None, Some("5   2   9")), "7 2\n");
    assert_eq!(ledger_line(7, None, Some("5")), "7 7\n");
    assert_eq!(ledger_line(7, None, Some("5 two")), "7 7\n");
    assert_eq!(ledger_line(7, None, Some("")), "7 7\n");
    assert_eq!(ledger_line(7, None, None), "7 7\n");
    let r = Rotator { shm_path: DIR.to_string(), max_segments: 8, seg_no: 9, min_no: 2 };
    assert_eq!(r.mark_read(6), "9 6\n");
}

#[test]
fn joined_paths() {
    assert_eq!(join("/a", "b"), "/a/b");
    assert_eq!(join("/a/", "b"), "/a/b");
    assert_eq!(join("", "b"), "b");
}

/// Within the budget nothing is removed; above it the oldest go, over gaps in the numbers.
#[test]
fn removal_starts_above_the_budget() {
    let mut r = Rotator { shm_path: DIR.to_string(), max_segments: 2, seg_no: 9, min_no: 3 };
    let dir = Dir::with(&["segment_0008.wal", "segment_0003.wal", "x"]);
    let none = r.enforce_budget(&dir.names);
    assert!(none.paths.is_empty() && none.ledger.is_none());
    assert_eq!(r.min_no(), 3);
    let dir = Dir::with(&["segment_0008.wal", "segment_0003.wal", "segment_0006.wal", "segment_7.wal"]);
    let two = r.enforce_budget(&dir.names);
    assert_eq!(
        two.paths,
        ["/dev/shm/sov-probe/segment_0003.wal", "/dev/shm/sov-probe/segment_0006.wal"]
    );
    assert_eq!(two.ledger.as_deref(), Some("9 7\n"));
    assert_eq!(r.min_no(), 7);
    r.max_segments = 1;
    let one = r.enforce_budget(&Dir::with(&["segment_7.wal", "segment_0008.wal"]).names);
    assert_eq!(one.paths, ["/dev/shm/sov-probe/segment_7.wal"]);
}

/// Segments that someone else put there go as well, until no more are left than allowed.
#[test]
fn segments_of_others_go_too() {
    let mut r = Rotator { shm_path: DIR.to_string(), max_segments: 1, seg_no: 1, min_no: 0 };
    let dir = Dir::with(&["segment_0000.wal", "segment_0005.wal", "segment_0006.wal"]);
    let removal = r.enforce_budget(&dir.names);
    assert_eq!(
        removal.paths,
        ["/dev/shm/sov-probe/segment_0000.wal", "/dev/shm/sov-probe/segment_0005.wal"]
    );
    assert_eq!(removal.ledger.as_deref(), Some("1 6\n"));
    assert_eq!((r.min_no(), r.seg_no), (6, 1));
    // far numbers are reached at once
    let mut r = Rotator { shm_path: DIR.to_string(), max_segments: 1, seg_no: 1, min_no: 0 };
    let far = Dir::with(&["segment_18446744073709551613.wal", "segment_18446744073709551614.wal"]);
    assert_eq!(r.enforce_budget(&far.names).paths.len(), 1);
    assert_eq!(r.min_no(), u64::MAX - 1);
    // segments below those that went before do not come up again
    let mut r = Rotator { shm_path: DIR.to_string(), max_segments: 1, seg_no: 9, min_no: 5 };
    let stale = Dir::with(&["segment_0001.wal", "segment_0002.wal", "segment_0008.wal"]);
    assert_eq!(
        r.enforce_budget(&stale.names).paths,
        ["/dev/shm/sov-probe/segment_0008.wal"]
    );
    assert_eq!(r.min_no(), 9);
}
