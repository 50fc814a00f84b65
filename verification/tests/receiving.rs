use chacha20poly1305::aead::{AeadInPlace, KeyInit};
use chacha20poly1305::{ChaCha20Poly1305, Key, Nonce};
use sov_probe::reassembly::blind::{id_key, BlindCache, BLIND_CACHE_BUDGET};
use sov_probe::reassembly::cipher::{counting_nonce, decrypt, encrypt};
use sov_probe::reassembly::hexid::{blind_id_from_key, parse_key, KeyError};
use sov_probe::reassembly::reassembler::{
    ChunkFrame, Incoming, Reassembler, SealFrame, SealReport, PENDING_BUDGET,
};
use sov_probe::reassembly::segment::{least_offset, segment_file, SegmentBuf};
use sov_probe::wal::header::{WalRecord, TCP_ACK};
use std::collections::BTreeMap;

fn key() -> [u8; 32] {
    [0x11; 32]
}

/// A nonce that counts from 0, and the ciphertext behind it.
fn enc(data: &[u8]) -> Vec<u8> {
    let cipher = ChaCha20Poly1305::new(Key::from_slice(&key()));
    let mut nonce = [0u8; 12];
    for (i, b) in nonce.iter_mut().enumerate() {
        *b = i as u8;
    }
    let mut ct = data.to_vec();
    cipher.encrypt_in_place(Nonce::from_slice(&nonce), &[], &mut ct).unwrap();
    [nonce.as_slice(), ct.as_slice()].concat()
}

fn header(dev_id: u32, seg: u32, offset: u64, len: usize, ref_only: bool) -> ChunkFrame {
    ChunkFrame {
        dev_id,
        segment_seq: seg,
        start_offset: offset,
        chunk_len: len as u32,
        ref_only,
    }
}

fn frame(seg: u32, offset: u64, data: &[u8]) -> (ChunkFrame, Vec<u8>) {
    (header(1, seg, offset, data.len(), false), enc(data))
}

fn blind_key(prefix: &[u8; 16]) -> String {
    format!("slim/sync/chunks/{}", hex::encode(prefix))
}

/// The receiving end with its files in memory.
struct Site {
    r: Reassembler,
    files: BTreeMap<String, Vec<u8>>,
}

impl Site {
    fn new() -> Site {
        Site { r: Reassembler::new(), files: BTreeMap::new() }
    }

    fn chunk(&mut self, key_expr: &str, message: (ChunkFrame, Vec<u8>)) {
        let (frame, body) = message;
        if let Incoming::Chunk { plaintext, .. } =
            self.r.on_chunk_frame(key_expr, Some(frame), &body, &key())
        {
            let name = segment_file(frame.dev_id, frame.segment_seq);
            let file = self.files.entry(name).or_default();
            let len = file.len() as u64;
            let (dev, seq) = (frame.dev_id, frame.segment_seq);
            assert!(self.r.has_room(dev, seq, len, plaintext.len()));
            let placement = self.r.place(&frame, &plaintext, len);
            file.extend_from_slice(&placement.append);
        }
    }

    fn seal(&mut self, dev_id: u32, segment_seq: u32, sealed_size: u64) -> Option<SealReport> {
        let file = self.files.get(&segment_file(dev_id, segment_seq));
        self.r.on_seal_frame(&SealFrame { dev_id, segment_seq, sealed_size }, file)
    }

    fn segment(&self, dev_id: u32, seq: u32) -> &SegmentBuf {
        &self.r.segments[self.r.index_of(dev_id, seq).unwrap()].buf
    }
}

/// A later chunk first, then the one before it, then that one again.
#[test]
fn place_in_order_and_out_of_order() {
    let mut s = Site::new();
    s.chunk(&blind_key(b"aaaaaaaaaaaaaaaa"), frame(3, 5, b"world"));
    s.chunk(&blind_key(b"bbbbbbbbbbbbbbbb"), frame(3, 0, b"hello"));
    s.chunk(&blind_key(b"bbbbbbbbbbbbbbbb"), frame(3, 0, b"hello"));
    assert_eq!(s.files["segment_0003.wal"], b"helloworld");
}

/// A chunk beyond the water mark waits until the mark comes to it.
#[test]
fn out_of_order_backfill() {
    let mut s = Site::new();
    s.chunk(&blind_key(b"aaaaaaaaaaaaaaaa"), frame(0, 6, b"data"));
    s.chunk(&blind_key(b"bbbbbbbbbbbbbbbb"), frame(0, 0, b"prefix"));
    assert_eq!(s.files["segment_0000.wal"], b"prefixdata");
    assert!(s.segment(1, 0).pending.is_empty());
}

/// A seal reports the bytes that are missing.
#[test]
fn seal_reports_missing_gap() {
    let mut s = Site::new();
    s.chunk(&blind_key(b"cccccccccccccccc"), frame(2, 0, b"0123456789"));
    s.seal(1, 2, 25);
    assert_eq!(s.segment(1, 2).missing_on_seal, 15);
    assert_eq!(s.r.gaps, 1);
}

/// A whole log in three chunks, out of order: every record is found.
#[test]
fn seal_counts_records() {
    let mut s = Site::new();
    let mut wal = Vec::new();
    for i in 0..3u32 {
        let rec = WalRecord {
            timestamp_ns: 1_700_000_000_000 + i as u64,
            flags: 0,
            tcp_flags: TCP_ACK,
            tcp_seq: 0,
            tcp_ack: 0,
            window_size: 0,
            src_ip: [10, 0, 0, 1],
            dst_ip: [10, 0, 0, 2],
            src_port: 1000,
            dst_port: 8080,
            proto: 6,
            orig_payload_len: 4,
            payload: b"req!".to_vec(),
        };
        rec.encode(&mut wal);
    }
    let seg = 1u32;
    let third = wal.len() / 3;
    s.chunk(&blind_key(b"aaaaaaaaaaaaaaaa"), frame(seg, (third * 2) as u64, &wal[third * 2..]));
    s.chunk(&blind_key(b"bbbbbbbbbbbbbbbb"), frame(seg, 0, &wal[..third]));
    s.chunk(&blind_key(b"cccccccccccccccc"), frame(seg, third as u64, &wal[third..third * 2]));
    s.seal(1, seg, wal.len() as u64);
    assert_eq!(s.r.gaps, 0);
    assert_eq!(s.files["segment_0001.wal"], wal);
    assert_eq!(s.segment(1, seg).records, 3);
    assert_eq!(s.segment(1, seg).residual, 0);
}

/// A reference is filled in from the cache; one to an unknown chunk is counted.
#[test]
fn ref_only_materialization() {
    let mut s = Site::new();
    let key_expr = format!("slim/sync/chunks/{}", hex::encode([0xdd; 16]));
    s.chunk(&key_expr, frame(5, 0, b"secret"));
    s.chunk(&key_expr, (header(1, 6, 0, 6, true), Vec::new()));
    assert_eq!(s.files["segment_0005.wal"], b"secret");
    assert_eq!(s.files["segment_0006.wal"], b"secret");
    assert_eq!(s.r.total_refs, 1);
    assert_eq!(s.r.cache_miss, 0);
    let miss_key = format!("slim/sync/chunks/{}", hex::encode([0xee; 16]));
    s.chunk(&miss_key, (header(1, 7, 0, 6, true), Vec::new()));
    assert_eq!(s.r.cache_miss, 1);
}

/// Two devices with the same segment number have two files.
#[test]
fn dev_id_isolation() {
    let mut s = Site::new();
    s.chunk(&blind_key(b"aaaaaaaaaaaaaaaa"), (header(1, 0, 0, 4, false), enc(b"dev1")));
    s.chunk(&blind_key(b"bbbbbbbbbbbbbbbb"), (header(2, 0, 0, 4, false), enc(b"dev2")));
    assert_eq!(s.files["segment_0000.wal"], b"dev1");
    assert_eq!(s.files["dev2_segment_0000.wal"], b"dev2");
    assert_eq!(s.r.segments.len(), 2);
}

/// Four chunks in every order, with one of them twice, give the same file.
#[test]
fn every_order_gives_the_source() {
    let source = b"abcdefghij";
    let cuts = [0usize, 3, 4, 8, 10];
    for n in 0..256usize {
        let order = [n & 3, (n >> 2) & 3, (n >> 4) & 3, (n >> 6) & 3];
        let mut buf = SegmentBuf::open(0);
        let mut file = Vec::new();
        for i in order {
            let p = buf.place(cuts[i] as u64, &source[cuts[i]..cuts[i + 1]]);
            file.extend_from_slice(&p.append);
        }
        let mut reached = 0;
        while reached < 4 && order.contains(&reached) {
            reached += 1;
        }
        assert_eq!(file, &source[..cuts[reached]], "{:?}", order);
        assert_eq!(buf.next_expected, file.len() as u64);
        let waiting: u64 = buf.pending.values().map(|b| b.len() as u64).sum();
        assert_eq!(buf.pending_bytes, waiting);
    }
}

/// Chunks of several segments in one another's way: each file is its own source.
#[test]
fn interleaved_segments_do_not_mix() {
    let mut s = Site::new();
    let sources: Vec<Vec<u8>> = (0..3u8).map(|d| (0..40u8).map(|i| d * 50 + i).collect()).collect();
    for step in 0..24usize {
        let which = step % 3;
        let i = (step / 3 * 5 + which * 3) % 8;
        let chunk = &sources[which][i * 5..i * 5 + 5];
        let head = header(which as u32, 7, i as u64 * 5, 5, false);
        s.chunk("a", (head, enc(chunk)));
    }
    assert_eq!(s.files["dev0_segment_0007.wal"], sources[0]);
    assert_eq!(s.files["segment_0007.wal"], sources[1]);
    assert_eq!(s.files["dev2_segment_0007.wal"], sources[2]);
    assert_eq!(s.r.pending_total(), 0);
}

/// An empty chunk is not taken, nor one whose place is written; both change nothing.
#[test]
fn chunks_that_are_not_taken() {
    let mut buf = SegmentBuf::open(4);
    assert!(!buf.place(4, b"").placed);
    let p = buf.place(1, b"xyz");
    assert!(!p.placed && p.append.is_empty());
    assert_eq!((buf.next_expected, buf.dup_dropped, buf.placed_chunks), (4, 1, 0));
    assert!(buf.place(9, b"later").placed);
    assert_eq!(least_offset(&buf.pending), Some(9));
    let p = buf.place(4, b"12345");
    assert!(p.placed);
    assert_eq!(p.append, b"12345later");
    assert_eq!((buf.next_expected, buf.placed_chunks), (14, 2));
    assert_eq!(least_offset(&buf.pending), None);
}

/// A chunk that waits is replaced by one with its offset, and its bytes are counted once.
#[test]
fn waiting_chunk_is_replaced() {
    let mut buf = SegmentBuf::open(0);
    buf.place(10, b"abc");
    buf.place(10, b"abcde");
    assert_eq!(buf.pending_bytes, 5);
    assert_eq!(buf.pending.len(), 1);
    assert!(buf.drop_first());
    assert_eq!(buf.pending_bytes, 0);
    assert!(!buf.drop_first());
}

/// A chunk that covers waiting ones, or parts of them, holds nothing up.
#[test]
fn overlapping_chunks_are_merged() {
    let mut buf = SegmentBuf::open(0);
    buf.place(4, b"e");
    buf.place(6, b"gh");
    let p = buf.place(0, b"abcdef");
    assert!(p.placed);
    assert_eq!(p.append, b"abcdefgh");
    assert_eq!((buf.next_expected, buf.pending_bytes), (8, 0));
    assert_eq!((buf.placed_chunks, buf.dup_dropped), (2, 1));
    assert!(buf.pending.is_empty());
    // the tail of a chunk that starts before the mark
    let p = buf.place(6, b"ghij");
    assert!(p.placed);
    assert_eq!(p.append, b"ij");
    assert_eq!(buf.next_expected, 10);
    // the tail of a waiting chunk that the mark has passed
    buf.place(12, b"mnop");
    assert_eq!(buf.place(10, b"klmn").append, b"klmnop");
    assert_eq!(buf.next_expected, 16);
}

/// Of two chunks that wait at one offset, the longer one does.
#[test]
fn longer_chunk_waits() {
    let mut buf = SegmentBuf::open(0);
    buf.place(2, b"cdef");
    assert!(buf.place(2, b"cd").placed);
    assert_eq!(buf.pending_bytes, 4);
    assert_eq!(buf.place(0, b"ab").append, b"abcdef");
}

/// Overlapping chunks in every order, each of them once or more often, give the same file.
#[test]
fn every_order_of_overlapping_chunks() {
    let source = b"abcdefgh";
    let pieces = [(0usize, 6usize), (4, 5), (6, 8), (3, 7), (6, 7)];
    for n in 0..5usize.pow(5) {
        let mut order = Vec::new();
        let mut rest = n;
        for _ in 0..5 {
            order.push(rest % 5);
            rest /= 5;
        }
        let mut buf = SegmentBuf::open(0);
        let mut file = Vec::new();
        for &i in &order {
            let (from, to) = pieces[i];
            file.extend_from_slice(&buf.place(from as u64, &source[from..to]).append);
        }
        let covered = |p: usize| order.iter().any(|&i| pieces[i].0 <= p && p < pieces[i].1);
        let mark = (0..8).take_while(|&p| covered(p)).count();
        assert_eq!(file, &source[..mark], "{:?}", order);
        assert_eq!(buf.next_expected, mark as u64);
        for (o, b) in &buf.pending {
            assert!(*o > mark as u64);
            assert_eq!(b[..], source[*o as usize..*o as usize + b.len()]);
        }
    }
}

/// What comes over a file that exists goes on behind it.
#[test]
fn existing_file_is_continued() {
    let mut s = Site::new();
    s.files.insert("segment_0000.wal".to_string(), b"hello".to_vec());
    s.chunk(&blind_key(b"aaaaaaaaaaaaaaaa"), frame(0, 0, b"hello"));
    s.chunk(&blind_key(b"bbbbbbbbbbbbbbbb"), frame(0, 5, b"world"));
    assert_eq!(s.files["segment_0000.wal"], b"helloworld");
    assert_eq!(s.segment(1, 0).dup_dropped, 1);
    let report = s.seal(1, 0, 4).unwrap();
    assert!(report.oversized);
    assert_eq!((report.got, report.missing), (10, 0));
}

/// The report on a sealed segment, field by field.
#[test]
fn seal_report_fields() {
    let mut s = Site::new();
    s.chunk(&blind_key(b"aaaaaaaaaaaaaaaa"), frame(4, 0, b"abc"));
    s.chunk(&blind_key(b"aaaaaaaaaaaaaaaa"), frame(4, 0, b"abc"));
    s.chunk(&blind_key(b"bbbbbbbbbbbbbbbb"), frame(4, 10, b"klmn"));
    let report = s.seal(1, 4, 14).unwrap();
    let expect = SealReport {
        got: 3,
        missing: 11,
        oversized: false,
        records: 0,
        residual: 3,
        placed_chunks: 1,
        pended_chunks: 1,
        pend_bytes: 4,
        dup_dropped: 1,
        recv_frames: 3,
        first_pend_off: 10,
        pend_gap: 7,
    };
    assert_eq!(report, expect);
    assert!(s.segment(1, 4).sealed);
    assert!(s.seal(1, 9, 1).is_none());
    assert_eq!((s.r.sealed_segments, s.r.gaps), (2, 1));
    assert_eq!(s.r.on_seal_frame(&SealFrame { dev_id: 1, segment_seq: 4, sealed_size: 3 }, None), {
        Some(SealReport { missing: 0, ..expect })
    });
}

/// What is no chunk message, what cannot be opened, and a length that is not the named one.
#[test]
fn messages_that_are_not_taken() {
    let mut r = Reassembler::new();
    assert!(matches!(r.on_chunk_frame("a", None, b"junk", &key()), Incoming::Unframed));
    assert_eq!((r.unframed_dropped, r.total_chunks), (1, 0));
    let f = header(1, 0, 0, 4, false);
    let got = r.on_chunk_frame("a", Some(f), b"not a ciphertext, but long enough", &key());
    assert!(matches!(got, Incoming::Undecipherable));
    assert!(matches!(r.on_chunk_frame("a", Some(f), b"short", &key()), Incoming::Undecipherable));
    let wrong = [0x22; 32];
    let got = r.on_chunk_frame("a", Some(f), &enc(b"data"), &wrong);
    assert!(matches!(got, Incoming::Undecipherable));
    match r.on_chunk_frame("a", Some(f), &enc(b"data"), &key()) {
        Incoming::Chunk { plaintext, len_mismatch } => {
            assert_eq!(plaintext, b"data");
            assert!(!len_mismatch);
        }
        _ => panic!("the chunk should have been opened"),
    }
    match r.on_chunk_frame("a", Some(f), &enc(b"longer"), &key()) {
        Incoming::Chunk { len_mismatch, .. } => assert!(len_mismatch),
        _ => panic!("the chunk should have been opened"),
    }
    let reference = header(1, 0, 0, 4, true);
    assert!(matches!(r.on_chunk_frame("a", Some(reference), b"", &key()), Incoming::CacheMiss));
    assert_eq!((r.total_chunks, r.total_refs, r.cache_miss), (6, 1, 1));
    assert_eq!(r.frames_by_segment[&0x1_0000_0000], 6);
    assert!(r.cache.order.is_empty(), "the topic names no identifier");
}

/// Every segment of every device has its own count of messages.
#[test]
fn messages_are_counted_by_segment() {
    let mut s = Site::new();
    s.chunk("a", (header(1, 0, 0, 1, false), enc(b"x")));
    s.chunk("a", (header(1, 0, 0, 1, false), enc(b"x")));
    s.chunk("a", (header(0, 1, 0, 1, false), enc(b"x")));
    s.chunk("a", (header(0, 0, 0, 1, false), enc(b"x")));
    assert_eq!(s.seal(1, 0, 1).unwrap().recv_frames, 2);
    assert_eq!(s.seal(0, 1, 1).unwrap().recv_frames, 1);
    assert_eq!(s.seal(0, 0, 1).unwrap().recv_frames, 1);
}

/// The cache answers for what it holds.
#[test]
fn cache_answers() {
    let mut s = Site::new();
    s.chunk(&blind_key(b"aaaaaaaaaaaaaaaa"), frame(0, 0, b"x"));
    assert!(s.r.has_blind(b"aaaaaaaaaaaaaaaa"));
    assert!(!s.r.has_blind(b"bbbbbbbbbbbbbbbb"));
}

/// The chunks that came first leave the cache first.
#[test]
fn cache_keeps_its_budget() {
    let quarter = (BLIND_CACHE_BUDGET / 4) as usize;
    let mut c = BlindCache::new();
    for i in 0..4u8 {
        c.cache_insert(&[i; 16], vec![i; quarter]);
    }
    assert_eq!((c.bytes, c.evicted), (BLIND_CACHE_BUDGET, 0));
    c.cache_insert(&[1; 16], vec![9; quarter]);
    assert_eq!((c.bytes, c.evicted), (BLIND_CACHE_BUDGET, 0));
    assert_eq!(c.get(&[1; 16]).unwrap()[0], 9);
    c.cache_insert(&[4; 16], vec![4; quarter + 1]);
    assert_eq!(c.evicted, 2);
    assert!(!c.has_blind(&[0; 16]) && !c.has_blind(&[1; 16]));
    assert!(c.has_blind(&[2; 16]) && c.has_blind(&[3; 16]) && c.has_blind(&[4; 16]));
    assert_eq!(c.bytes, 3 * quarter as u64 + 1);
    c.cache_insert(&[5; 16], vec![5; BLIND_CACHE_BUDGET as usize + 1]);
    assert_eq!((c.bytes, c.evicted), (0, 6));
    assert!(c.get(&[5; 16]).is_none());
}

/// Chunks that wait are given up from the least offset on, over all segments.
#[test]
fn waiting_chunks_keep_their_budget() {
    let half = vec![7u8; (PENDING_BUDGET / 2) as usize];
    let mut r = Reassembler::new();
    r.place(&header(1, 0, 20, 0, false), &half, 0);
    r.place(&header(2, 0, 10, 0, false), &half, 0);
    assert_eq!(r.pending_total(), PENDING_BUDGET);
    assert_eq!(r.pend_dropped, 0);
    r.place(&header(3, 0, 30, 0, false), b"x", 0);
    assert_eq!(r.pend_dropped, 1);
    assert_eq!(r.pending_total(), PENDING_BUDGET / 2 + 1);
    assert!(r.segments[1].buf.pending.is_empty());
    assert_eq!(r.segments[0].buf.pending.len(), 1);
    assert_eq!(r.total_bytes, PENDING_BUDGET + 1);
}

#[test]
fn counters_as_text() {
    let mut s = Site::new();
    assert_eq!(
        s.r.stats(),
        "chunks=0 refs=0 bytes=0 unframed=0 cache_miss=0 gaps=0 sealed=0 active_segments=0 cache_bytes=0 evicted=0 pend_bytes=0 pend_dropped=0"
    );
    s.chunk(&blind_key(b"aaaaaaaaaaaaaaaa"), frame(0, 0, b"abc"));
    s.chunk(&blind_key(b"bbbbbbbbbbbbbbbb"), frame(0, 7, b"hijk"));
    s.seal(1, 0, 100);
    assert_eq!(
        s.r.stats(),
        "chunks=2 refs=0 bytes=7 unframed=0 cache_miss=0 gaps=1 sealed=1 active_segments=1 cache_bytes=7 evicted=0 pend_bytes=4 pend_dropped=0"
    );
}

/// At the end of the counting range there is no room.
#[test]
fn room_for_a_chunk() {
    let r = Reassembler::new();
    assert!(r.has_room(1, 0, u64::MAX - 4, 4));
    assert!(!r.has_room(1, 0, u64::MAX - 4, 5));
}

#[test]
fn segment_file_names() {
    assert_eq!(segment_file(1, 7), "segment_0007.wal");
    assert_eq!(segment_file(2, 7), "dev2_segment_0007.wal");
    assert_eq!(segment_file(0, 12345), "dev0_segment_12345.wal");
    assert_eq!(segment_file(u32::MAX, 0), "dev4294967295_segment_0000.wal");
}

/// What is sealed is opened by the other side, and only with the right key.
#[test]
fn encryption_round_trip() {
    let nonce = counting_nonce();
    assert_eq!(nonce, [1, 2, 3, 4, 5, 6, 7, 8, 9, 10, 11, 12]);
    let data = encrypt(&key(), &nonce, b"plain text").unwrap();
    assert_eq!(data.len(), 12 + 10 + 16);
    assert_eq!(&data[..12], &nonce);
    assert_ne!(&data[12..22], b"plain text");
    assert_eq!(decrypt(&key(), &data).unwrap(), b"plain text");
    assert!(decrypt(&[0; 32], &data).is_none());
    let mut torn = data.clone();
    torn[15] ^= 1;
    assert!(decrypt(&key(), &torn).is_none());
    assert!(decrypt(&key(), &data[..11]).is_none());
    assert!(decrypt(&key(), &data[..12]).is_none());
    assert_eq!(decrypt(&key(), &enc(b"")).unwrap(), b"");
}

#[test]
fn identifiers_in_topics() {
    let id = *b"0123456789abcdef";
    assert_eq!(blind_id_from_key(&blind_key(&id)), Some(id));
    assert_eq!(blind_id_from_key(&hex::encode(id)), Some(id));
    let upper = hex::encode([0xAB; 16]).to_uppercase();
    assert_eq!(blind_id_from_key(&format!("a/{}", upper)), Some([0xAB; 16]));
    assert_eq!(blind_id_from_key(&format!("{}/", hex::encode(id))), None);
    assert_eq!(blind_id_from_key("slim/sync/chunks/0123"), None);
    assert_eq!(blind_id_from_key(&format!("a/{}g", "0".repeat(31))), None);
    assert_eq!(blind_id_from_key(""), None);
    assert_eq!(id_key(&[0; 16]), 0);
    assert_eq!(id_key(&[0xFF; 16]), u128::MAX);
    assert_eq!(id_key(&id), u128::from_be_bytes(id));
}

#[test]
fn cipher_keys() {
    assert_eq!(parse_key(&"11".repeat(32)), Ok(key()));
    assert_eq!(parse_key(&"11".repeat(31)), Err(KeyError::WrongLength));
    assert_eq!(parse_key(""), Err(KeyError::WrongLength));
    assert_eq!(parse_key("111"), Err(KeyError::NotHex));
    assert_eq!(parse_key(&"zz".repeat(32)), Err(KeyError::NotHex));
}
