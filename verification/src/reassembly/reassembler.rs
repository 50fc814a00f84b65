//! The receiving end: chunks of many segments from many devices are opened, filled in from the
//! cache where only a reference came, and put in place.
use crate::endian;
use crate::reassembly::blind::{self, BlindCache};
use crate::reassembly::cipher::{self, decrypt};
use crate::reassembly::hexid::{self, blind_id_from_key};
use crate::reassembly::segment::{self, least_offset, Gathered, Placement, SegmentBuf};
use crate::text::{self, push_decimal};
use crate::wal::header;
use std::collections::HashMap;
use vstd::prelude::*;
use vstd::string::StringExecFns;

verus! {

/// The bytes that may wait in all segments together.
pub const PENDING_BUDGET: u64 = 268_435_456;

/// What the front of a chunk message says: the device, the segment and the offset where the chunk
/// belongs, its length, and whether the chunk itself was left out for a reference to an earlier one.
#[derive(Debug, Clone, Copy, PartialEq, Eq, Structural)]
pub struct ChunkFrame {
    pub dev_id: u32,
    pub segment_seq: u32,
    pub start_offset: u64,
    pub chunk_len: u32,
    pub ref_only: bool,
}

/// The message that a segment is complete at its source.
#[derive(Debug, Clone, Copy, PartialEq, Eq, Structural)]
pub struct SealFrame {
    pub dev_id: u32,
    pub segment_seq: u32,
    pub sealed_size: u64,
}

/// A segment of a device.
#[derive(Debug)]
pub struct Segment {
    pub dev_id: u32,
    pub segment_seq: u32,
    pub buf: SegmentBuf,
}

/// What a segment is, as contracts see it.
#[verifier::ext_equal]
pub struct SegmentView {
    pub dev_id: u32,
    pub segment_seq: u32,
    pub state: Gathered,
    pub sealed: bool,
    pub missing_on_seal: u64,
    pub records: u64,
    pub residual: u64,
    pub placed_chunks: u64,
    pub dup_dropped: u64,
}

impl View for Segment {
    type V = SegmentView;

    open spec fn view(&self) -> SegmentView {
        SegmentView {
            dev_id: self.dev_id,
            segment_seq: self.segment_seq,
            state: self.buf.gathered(),
            sealed: self.buf.sealed,
            missing_on_seal: self.buf.missing_on_seal,
            records: self.buf.records,
            residual: self.buf.residual,
            placed_chunks: self.buf.placed_chunks,
            dup_dropped: self.buf.dup_dropped,
        }
    }
}

/// The views of all segments.
pub open spec fn views(segs: Seq<Segment>) -> Seq<SegmentView> {
    Seq::new(segs.len(), |i: int| segs[i]@)
}

/// A segment of which nothing has been gathered but the bytes in its file.
pub open spec fn fresh(dev_id: u32, segment_seq: u32, existing_len: u64) -> SegmentView {
    SegmentView {
        dev_id,
        segment_seq,
        state: Gathered { next: existing_len as nat, pending: Map::empty() },
        sealed: false,
        missing_on_seal: 0,
        records: 0,
        residual: 0,
        placed_chunks: 0,
        dup_dropped: 0,
    }
}

/// The `i`th segment is the one of this device with this number.
pub open spec fn is_at(segs: Seq<SegmentView>, i: int, dev_id: u32, segment_seq: u32) -> bool {
    0 <= i < segs.len() && segs[i].dev_id == dev_id && segs[i].segment_seq == segment_seq
}

/// There is a segment of this device with this number.
pub open spec fn is_known(segs: Seq<SegmentView>, dev_id: u32, segment_seq: u32) -> bool {
    exists|i: int| is_at(segs, i, dev_id, segment_seq)
}

/// No two segments are of one device and number.
pub open spec fn all_distinct(segs: Seq<SegmentView>) -> bool {
    forall|i: int, j: int|
        0 <= i < j < segs.len() ==> segs[i].dev_id != segs[j].dev_id || segs[i].segment_seq
            != segs[j].segment_seq
}

/// Where the segment stands: a new one comes behind all others.
pub open spec fn place_of(segs: Seq<SegmentView>, dev_id: u32, segment_seq: u32) -> int {
    if is_known(segs, dev_id, segment_seq) {
        choose|i: int| is_at(segs, i, dev_id, segment_seq)
    } else {
        segs.len() as int
    }
}

/// The segments, with the one of this device and number opened if it was not there.
pub open spec fn opened(
    segs: Seq<SegmentView>,
    dev_id: u32,
    segment_seq: u32,
    existing_len: u64,
) -> Seq<SegmentView> {
    if is_known(segs, dev_id, segment_seq) {
        segs
    } else {
        segs.push(fresh(dev_id, segment_seq, existing_len))
    }
}

/// The segment with a chunk put in its place.
pub open spec fn with_chunk(seg: SegmentView, offset: u64, bytes: Seq<u8>) -> SegmentView {
    let step = segment::placed(seg.state, offset, bytes);
    SegmentView {
        state: step.state,
        placed_chunks: blind::bumped(seg.placed_chunks, step.chunks as int),
        dup_dropped: blind::bumped(seg.dup_dropped, step.dups as int),
        ..seg
    }
}

/// The waiting bytes of all segments.
pub open spec fn total_waiting(segs: Seq<SegmentView>) -> nat
    decreases segs.len(),
{
    if segs.len() == 0 {
        0
    } else {
        total_waiting(segs.drop_last()) + segment::waiting_bytes(segs.last().state.pending)
    }
}

/// The number of chunks that wait in all segments.
pub open spec fn waiting_chunks(segs: Seq<SegmentView>) -> nat
    decreases segs.len(),
{
    if segs.len() == 0 {
        0
    } else {
        waiting_chunks(segs.drop_last()) + segs.last().state.pending.dom().len()
    }
}

/// In every segment finitely many chunks wait.
pub open spec fn all_finite(segs: Seq<SegmentView>) -> bool {
    forall|i: int| 0 <= i < segs.len() ==> (#[trigger] segs[i]).state.pending.dom().finite()
}

/// The offset of the first chunk that waits in the `i`th segment.
pub open spec fn first_waiting(segs: Seq<SegmentView>, i: int) -> Option<u64> {
    segment::least(segs[i].state.pending.dom())
}

/// In the `i`th segment waits the chunk with the least offset of all; of equals, in the segment
/// that was opened first.
pub open spec fn is_victim(segs: Seq<SegmentView>, i: int) -> bool {
    &&& 0 <= i < segs.len()
    &&& first_waiting(segs, i) matches Some(k) && forall|j: int|
        0 <= j < segs.len() ==> (#[trigger] first_waiting(segs, j) matches Some(o) ==> k < o || (k
            == o && i <= j))
}

/// The segments without the first chunk that waits in the `i`th.
pub open spec fn given_up(segs: Seq<SegmentView>, i: int) -> Seq<SegmentView> {
    let seg = segs[i];
    segs.update(
        i,
        SegmentView {
            state: Gathered {
                next: seg.state.next,
                pending: seg.state.pending.remove(first_waiting(segs, i)->0),
            },
            ..seg
        },
    )
}

/// The segments without the waiting chunks of the least offsets, until the others are within the
/// budget.
pub open spec fn enforced(segs: Seq<SegmentView>, budget: nat) -> Seq<SegmentView>
    decreases waiting_chunks(segs),
{
    if all_finite(segs) && total_waiting(segs) > budget && (exists|i: int| is_victim(segs, i)) {
        let i = choose|i: int| is_victim(segs, i);
        proof {
            lemma_given_up(segs, i);
        }
        enforced(given_up(segs, i), budget)
    } else {
        segs
    }
}

/// A change to one segment changes the sums by what it changes there.
pub proof fn lemma_totals_update(segs: Seq<SegmentView>, i: int, seg: SegmentView)
    requires
        0 <= i < segs.len(),
    ensures
        total_waiting(segs.update(i, seg)) == total_waiting(segs) - segment::waiting_bytes(
            segs[i].state.pending,
        ) + segment::waiting_bytes(seg.state.pending),
        waiting_chunks(segs.update(i, seg)) == waiting_chunks(segs) - segs[i].state.pending.dom().len()
            + seg.state.pending.dom().len(),
    decreases segs.len(),
{
    let u = segs.update(i, seg);
    if i == segs.len() - 1 {
        assert(u.drop_last() =~= segs.drop_last());
    } else {
        lemma_totals_update(segs.drop_last(), i, seg);
        assert(u.drop_last() =~= segs.drop_last().update(i, seg));
    }
}

/// A chunk that is given up is one chunk less, and its bytes.
pub proof fn lemma_given_up(segs: Seq<SegmentView>, i: int)
    requires
        all_finite(segs),
        is_victim(segs, i),
    ensures
        waiting_chunks(given_up(segs, i)) == waiting_chunks(segs) - 1,
        total_waiting(given_up(segs, i)) == total_waiting(segs)
            - segs[i].state.pending[first_waiting(segs, i)->0].len(),
        all_finite(given_up(segs, i)),
{
    let k = first_waiting(segs, i)->0;
    let pending = segs[i].state.pending;
    assert(pending.dom().finite());
    assert(segment::is_least(pending.dom(), k));
    segment::lemma_waiting_remove(pending, k);
    assert(pending.remove(k).dom() =~= pending.dom().remove(k));
    lemma_totals_update(segs, i, given_up(segs, i)[i]);
}

/// What came of a chunk message.
#[derive(Debug)]
pub enum Incoming {
    /// It was no chunk message.
    Unframed,
    /// It refers to a chunk that is not in the cache.
    CacheMiss,
    /// It could not be opened.
    Undecipherable,
    /// The chunk, and whether its length is not the one that the message names.
    Chunk { plaintext: Vec<u8>, len_mismatch: bool },
}

/// What a segment was found to be when it was sealed.
#[derive(Debug, Clone, Copy, PartialEq, Eq, Structural)]
pub struct SealReport {
    /// The bytes written.
    pub got: u64,
    /// The bytes missing.
    pub missing: u64,
    /// More was written than the source had.
    pub oversized: bool,
    pub records: u64,
    pub residual: u64,
    pub placed_chunks: u64,
    /// The chunks that still wait.
    pub pended_chunks: u64,
    /// Their bytes.
    pub pend_bytes: u64,
    pub dup_dropped: u64,
    /// The chunk messages that came for this segment.
    pub recv_frames: u64,
    /// The offset of the first chunk that waits.
    pub first_pend_off: u64,
    /// The gap before it.
    pub pend_gap: u64,
}

/// What a file holds.
pub open spec fn file_view(file: Option<&Vec<u8>>) -> Option<Seq<u8>> {
    match file {
        Some(bytes) => Some(bytes@),
        None => None,
    }
}

/// A segment once it is sealed: what is missing, and the records in its file if that could be read.
pub open spec fn sealed_view(seg: SegmentView, sealed_size: u64, file: Option<Seq<u8>>) ->
    SegmentView {
    let missing_on_seal = if sealed_size > seg.state.next {
        (sealed_size - seg.state.next) as u64
    } else {
        0
    };
    match file {
        Some(bytes) => SegmentView {
            sealed: true,
            missing_on_seal,
            records: header::stream_records(bytes, 0).len() as u64,
            residual: (bytes.len() - header::stream_end(bytes, 0)) as u64,
            ..seg
        },
        None => SegmentView { sealed: true, missing_on_seal, ..seg },
    }
}

/// The report on a sealed segment.
pub open spec fn report_of(seg: SegmentView, sealed_size: u64, recv_frames: u64) -> SealReport {
    let first_pend_off = match segment::least(seg.state.pending.dom()) {
        Some(o) => o,
        None => 0,
    };
    SealReport {
        got: seg.state.next as u64,
        missing: seg.missing_on_seal,
        oversized: seg.state.next > sealed_size,
        records: seg.records,
        residual: seg.residual,
        placed_chunks: seg.placed_chunks,
        pended_chunks: seg.state.pending.dom().len() as u64,
        pend_bytes: segment::waiting_bytes(seg.state.pending) as u64,
        dup_dropped: seg.dup_dropped,
        recv_frames,
        first_pend_off,
        pend_gap: if first_pend_off > seg.state.next {
            (first_pend_off - seg.state.next) as u64
        } else {
            0
        },
    }
}

/// The number of a segment among those of all devices.
pub open spec fn segment_key(dev_id: u32, segment_seq: u32) -> u64 {
    (dev_id * 0x1_0000_0000 + segment_seq) as u64
}

/// Segments of different devices or numbers have different numbers among all, so that each has its
/// own counter.
pub proof fn law_segment_keys_are_unique(dev_a: u32, seq_a: u32, dev_b: u32, seq_b: u32)
    requires
        segment_key(dev_a, seq_a) == segment_key(dev_b, seq_b),
    ensures
        dev_a == dev_b,
        seq_a == seq_b,
{
}

/// The number of a segment among those of all devices.
fn key_of(dev_id: u32, segment_seq: u32) -> (r: u64)
    ensures
        r == segment_key(dev_id, segment_seq),
{
    dev_id as u64 * 0x1_0000_0000 + segment_seq as u64
}

/// The counter of a segment.
pub open spec fn counted(counts: Map<u64, u64>, key: u64) -> u64 {
    if counts.contains_key(key) {
        counts[key]
    } else {
        0
    }
}

/// The chunk of a message: from the cache where the message is a reference, else opened with the
/// key.
pub open spec fn chunk_of(
    cache: Seq<(u128, Seq<u8>)>,
    ref_only: bool,
    id: Option<Seq<u8>>,
    body: Seq<u8>,
    cipher_key: Seq<u8>,
) -> Option<Seq<u8>> {
    if ref_only {
        match id {
            Some(id) => blind::entry_data(cache, blind::id_number(id) as u128),
            None => None,
        }
    } else {
        cipher::decrypted(cipher_key, body)
    }
}

/// The receiving end.
#[derive(Debug)]
pub struct Reassembler {
    pub segments: Vec<Segment>,
    pub cache: BlindCache,
    pub total_chunks: u64,
    pub total_refs: u64,
    pub total_bytes: u64,
    pub unframed_dropped: u64,
    pub cache_miss: u64,
    pub gaps: u64,
    pub sealed_segments: u64,
    /// The chunk messages that came for each segment.
    pub frames_by_segment: HashMap<u64, u64>,
    /// The waiting chunks that were given up.
    pub pend_dropped: u64,
}

/// Every segment counts its waiting bytes right.
pub open spec fn all_wf(segs: Seq<Segment>) -> bool {
    forall|i: int| 0 <= i < segs.len() ==> (#[trigger] segs[i]).buf.wf()
}

/// All bytes of the segment that are there, and `len` more, can be counted.
pub open spec fn has_room_for(
    segs: Seq<SegmentView>,
    dev_id: u32,
    segment_seq: u32,
    existing_len: u64,
    len: nat,
) -> bool {
    let seg = opened(segs, dev_id, segment_seq, existing_len)[place_of(segs, dev_id, segment_seq)];
    seg.state.next + segment::waiting_bytes(seg.state.pending) + len <= u64::MAX
}

impl Reassembler {
    /// The segments count right and are distinct, what waits is within the budget, and so is the
    /// cache.
    pub open spec fn wf(self) -> bool {
        &&& all_wf(self.segments@)
        &&& all_distinct(views(self.segments@))
        &&& total_waiting(views(self.segments@)) <= PENDING_BUDGET
        &&& self.cache.wf()
    }

    /// Nothing has been received.
    pub fn new() -> (r: Self)
        ensures
            r.wf(),
            r.segments@ == Seq::<Segment>::empty(),
            r.cache@ == Seq::<(u128, Seq<u8>)>::empty(),
            r.cache.evicted == 0,
            r.total_chunks == 0 && r.total_refs == 0 && r.total_bytes == 0,
            r.unframed_dropped == 0 && r.cache_miss == 0 && r.gaps == 0,
            r.sealed_segments == 0 && r.pend_dropped == 0,
            r.frames_by_segment@ == Map::<u64, u64>::empty(),
    {
        Reassembler {
            segments: Vec::new(),
            cache: BlindCache::new(),
            total_chunks: 0,
            total_refs: 0,
            total_bytes: 0,
            unframed_dropped: 0,
            cache_miss: 0,
            gaps: 0,
            sealed_segments: 0,
            frames_by_segment: HashMap::new(),
            pend_dropped: 0,
        }
    }

    /// Where the segment of a device with a number stands.
    pub fn index_of(&self, dev_id: u32, segment_seq: u32) -> (r: Option<usize>)
        requires
            all_distinct(views(self.segments@)),
        ensures
            match r {
                Some(i) => {
                    &&& is_at(views(self.segments@), i as int, dev_id, segment_seq)
                    &&& i == place_of(views(self.segments@), dev_id, segment_seq)
                },
                None => !is_known(views(self.segments@), dev_id, segment_seq),
            },
    {
        let ghost segs = views(self.segments@);
        let mut i: usize = 0;
        while i < self.segments.len()
            invariant
                segs == views(self.segments@),
                i <= self.segments@.len(),
                all_distinct(segs),
                forall|j: int| 0 <= j < i ==> !is_at(segs, j, dev_id, segment_seq),
            decreases self.segments@.len() - i,
        {
            assert(segs[i as int] == self.segments@[i as int]@);
            if self.segments[i].dev_id == dev_id && self.segments[i].segment_seq == segment_seq {
                assert(is_at(segs, i as int, dev_id, segment_seq));
                return Some(i);
            }
            i = i + 1;
        }
        None
    }

    /// The answer to the question whether a chunk need not be sent again: it is in the cache.
    pub fn has_blind(&self, blind_id: &[u8; 16]) -> (r: bool)
        requires
            self.wf(),
        ensures
            r == blind::has_entry(self.cache@, blind::id_number(blind_id@) as u128),
    {
        self.cache.has_blind(blind_id)
    }

    /// Takes a chunk message: the topic it came under, what its front says if it is one, and what
    /// stands behind its front. A chunk that was sent whole enters the cache under the identifier
    /// in the topic.
    pub fn on_chunk_frame(
        &mut self,
        key: &str,
        frame: Option<ChunkFrame>,
        body: &[u8],
        cipher_key: &[u8; 32],
    ) -> (r: Incoming)
        requires
            old(self).wf(),
        ensures
            final(self).wf(),
            final(self).segments == old(self).segments,
            final(self).total_bytes == old(self).total_bytes,
            final(self).gaps == old(self).gaps,
            final(self).sealed_segments == old(self).sealed_segments,
            final(self).pend_dropped == old(self).pend_dropped,
            match frame {
                None => {
                    &&& r is Unframed
                    &&& final(self).unframed_dropped == blind::bumped(old(self).unframed_dropped, 1)
                    &&& final(self).total_chunks == old(self).total_chunks
                    &&& final(self).total_refs == old(self).total_refs
                    &&& final(self).cache_miss == old(self).cache_miss
                    &&& final(self).cache == old(self).cache
                    &&& final(self).frames_by_segment == old(self).frames_by_segment
                },
                Some(f) => {
                    let k = segment_key(f.dev_id, f.segment_seq);
                    let id = hexid::blind_id_of(key@);
                    let chunk = chunk_of(old(self).cache@, f.ref_only, id, body@, cipher_key@);
                    &&& final(self).unframed_dropped == old(self).unframed_dropped
                    &&& final(self).total_chunks == blind::bumped(old(self).total_chunks, 1)
                    &&& final(self).total_refs == if f.ref_only {
                        blind::bumped(old(self).total_refs, 1)
                    } else {
                        old(self).total_refs
                    }
                    &&& final(self).cache_miss == if f.ref_only && chunk is None {
                        blind::bumped(old(self).cache_miss, 1)
                    } else {
                        old(self).cache_miss
                    }
                    &&& final(self).frames_by_segment@ == old(self).frames_by_segment@.insert(
                        k,
                        blind::bumped(counted(old(self).frames_by_segment@, k), 1),
                    )
                    &&& match chunk {
                        Some(bytes) => {
                            &&& r matches Incoming::Chunk { plaintext, len_mismatch }
                            &&& plaintext@ == bytes
                            &&& len_mismatch == (bytes.len() % 0x1_0000_0000 != f.chunk_len)
                        },
                        None => if f.ref_only {
                            r is CacheMiss
                        } else {
                            r is Undecipherable
                        },
                    }
                    &&& if !f.ref_only && chunk is Some && id is Some {
                        let full = blind::put(
                            old(self).cache@,
                            blind::id_number(id->0) as u128,
                            chunk->0,
                        );
                        &&& final(self).cache@ == blind::within_budget(
                            full,
                            blind::BLIND_CACHE_BUDGET as nat,
                        )
                        &&& final(self).cache.evicted == blind::bumped(
                            old(self).cache.evicted,
                            full.len() - final(self).cache@.len(),
                        )
                    } else {
                        final(self).cache == old(self).cache
                    }
                },
            },
            frame matches Some(f) ==> !f.ref_only && 12 <= body@.len() <= 274_877_906_844 ==> {
                let opened = cipher::aead_opened(cipher_key@, body@.take(12), body@.skip(12));
                let id = hexid::blind_id_of(key@);
                &&& opened is None ==> r is Undecipherable && final(self).cache == old(self).cache
                &&& opened matches Some(p) ==> {
                    &&& r matches Incoming::Chunk { plaintext, len_mismatch }
                    &&& plaintext@ == p
                    &&& len_mismatch == (p.len() % 0x1_0000_0000 != f.chunk_len)
                    &&& id is Some ==> final(self).cache@ == blind::within_budget(
                        blind::put(old(self).cache@, blind::id_number(id->0) as u128, p),
                        67_108_864,
                    )
                }
            },
            frame matches Some(f) ==> !f.ref_only && (body@.len() < 12 || body@.len()
                > 274_877_906_844) ==> r is Undecipherable,
    {
        let f: ChunkFrame = match frame {
            Some(f) => f,
            None => {
                self.unframed_dropped = self.unframed_dropped.wrapping_add(1);
                return Incoming::Unframed;
            },
        };
        let blind_id: Option<[u8; 16]> = blind_id_from_key(key);
        self.total_chunks = self.total_chunks.wrapping_add(1);
        let k: u64 = key_of(f.dev_id, f.segment_seq);
        let frames: u64 = match self.frames_by_segment.get(&k) {
            Some(n) => *n,
            None => 0,
        };
        self.frames_by_segment.insert(k, frames.wrapping_add(1));
        let plaintext: Vec<u8> = if f.ref_only {
            self.total_refs = self.total_refs.wrapping_add(1);
            let cached: Option<Vec<u8>> = match blind_id {
                Some(id) => self.cache.get(&id),
                None => None,
            };
            match cached {
                Some(bytes) => bytes,
                None => {
                    self.cache_miss = self.cache_miss.wrapping_add(1);
                    return Incoming::CacheMiss;
                },
            }
        } else {
            match decrypt(cipher_key, body) {
                Some(bytes) => {
                    if let Some(id) = blind_id {
                        let mut copy: Vec<u8> = Vec::new();
                        endian::append_bytes(&mut copy, bytes.as_slice());
                        assert(copy@ =~= bytes@);
                        self.cache.cache_insert(&id, copy);
                    }
                    bytes
                },
                None => {
                    return Incoming::Undecipherable;
                },
            }
        };
        let len_mismatch: bool = plaintext.len() as u64 % 0x1_0000_0000 != f.chunk_len as u64;
        Incoming::Chunk { plaintext, len_mismatch }
    }

    /// All bytes of the segment that are there, and `len` more, can be counted.
    pub fn has_room(
        &self,
        dev_id: u32,
        segment_seq: u32,
        existing_len: u64,
        len: usize,
    ) -> (r: bool)
        requires
            self.wf(),
        ensures
            r == has_room_for(
                views(self.segments@),
                dev_id,
                segment_seq,
                existing_len,
                len as nat,
            ),
    {
        match self.index_of(dev_id, segment_seq) {
            Some(i) => {
                let seg: &Segment = &self.segments[i];
                assert(views(self.segments@)[i as int] == seg@);
                seg.buf.next_expected as u128 + seg.buf.pending_bytes as u128 + len as u128
                    <= u64::MAX as u128
            },
            None => {
                assert(segment::waiting_bytes(Map::empty()) == 0);
                existing_len as u128 + len as u128 <= u64::MAX as u128
            },
        }
    }

    /// Puts a chunk in its place in its segment. A segment that was not there is opened, with
    /// `existing_len` bytes in its file. Then, if more bytes wait than the budget allows, the
    /// waiting chunks of the least offsets are given up.
    pub fn place(&mut self, frame: &ChunkFrame, plaintext: &[u8], existing_len: u64) -> (r:
        Placement)
        requires
            old(self).wf(),
            has_room_for(
                views(old(self).segments@),
                frame.dev_id,
                frame.segment_seq,
                existing_len,
                plaintext@.len(),
            ),
        ensures
            final(self).wf(),
            ({
                let before = views(old(self).segments@);
                let at = place_of(before, frame.dev_id, frame.segment_seq);
                let open = opened(before, frame.dev_id, frame.segment_seq, existing_len);
                let step = segment::placed(open[at].state, frame.start_offset, plaintext@);
                let full = open.update(
                    at,
                    with_chunk(open[at], frame.start_offset, plaintext@),
                );
                &&& 0 <= at < open.len()
                &&& r.append@ == step.written
                &&& r.placed == (plaintext@.len() > 0 && frame.start_offset + plaintext@.len()
                    > open[at].state.next)
                &&& views(final(self).segments@) == enforced(full, PENDING_BUDGET as nat)
                &&& final(self).pend_dropped == blind::bumped(
                    old(self).pend_dropped,
                    waiting_chunks(full) - waiting_chunks(views(final(self).segments@)),
                )
            }),
            final(self).total_bytes == blind::bumped(
                old(self).total_bytes,
                plaintext@.len() as int,
            ),
            final(self).cache == old(self).cache,
            final(self).total_chunks == old(self).total_chunks,
            final(self).total_refs == old(self).total_refs,
            final(self).unframed_dropped == old(self).unframed_dropped,
            final(self).cache_miss == old(self).cache_miss,
            final(self).gaps == old(self).gaps,
            final(self).sealed_segments == old(self).sealed_segments,
            final(self).frames_by_segment == old(self).frames_by_segment,
    {
        let ghost before = views(self.segments@);
        let ghost open = opened(before, frame.dev_id, frame.segment_seq, existing_len);
        self.total_bytes = self.total_bytes.wrapping_add(plaintext.len() as u64);
        let at: usize = match self.index_of(frame.dev_id, frame.segment_seq) {
            Some(i) => i,
            None => {
                let i: usize = self.segments.len();
                let seg = Segment {
                    dev_id: frame.dev_id,
                    segment_seq: frame.segment_seq,
                    buf: SegmentBuf::open(existing_len),
                };
                assert(seg@ == fresh(frame.dev_id, frame.segment_seq, existing_len));
                self.segments.push(seg);
                proof {
                    assert(views(self.segments@) =~= open);
                    assert(open.drop_last() =~= before);
                    assert(segment::waiting_bytes(Map::<u64, Seq<u8>>::empty()) == 0);
                    assert forall|i: int, j: int| 0 <= i < j < open.len() implies open[i].dev_id
                        != open[j].dev_id || open[i].segment_seq != open[j].segment_seq by {
                        if j == before.len() {
                            assert(!is_at(before, i, frame.dev_id, frame.segment_seq));
                        }
                    }
                }
                i
            },
        };
        assert(views(self.segments@) =~= open);
        assert(open[at as int] == self.segments@[at as int]@);
        let r: Placement = self.segments[at].buf.place(frame.start_offset, plaintext);
        let ghost full = open.update(
            at as int,
            with_chunk(open[at as int], frame.start_offset, plaintext@),
        );
        proof {
            assert(views(self.segments@) =~= full);
            lemma_totals_update(
                open,
                at as int,
                with_chunk(open[at as int], frame.start_offset, plaintext@),
            );
        }
        self.enforce_pending_budget();
        r
    }

    /// The segment in which the chunk with the least offset waits, if any waits.
    fn find_victim(&self) -> (r: Option<usize>)
        ensures
            match r {
                Some(i) => is_victim(views(self.segments@), i as int),
                None => forall|j: int|
                    0 <= j < self.segments@.len() ==> (#[trigger] views(
                        self.segments@,
                    )[j]).state.pending == Map::<u64, Seq<u8>>::empty(),
            },
    {
        let ghost segs = views(self.segments@);
        let mut best: Option<(usize, u64)> = None;
        let mut i: usize = 0;
        while i < self.segments.len()
            invariant
                segs == views(self.segments@),
                i <= self.segments@.len(),
                match best {
                    None => forall|j: int|
                        0 <= j < i ==> #[trigger] first_waiting(segs, j) is None
                            && segs[j].state.pending == Map::<u64, Seq<u8>>::empty(),
                    Some((b, k)) => {
                        &&& b < i
                        &&& first_waiting(segs, b as int) == Some(k)
                        &&& forall|j: int|
                            0 <= j < i ==> (#[trigger] first_waiting(segs, j) matches Some(o) ==> k
                                < o || (k == o && b <= j))
                    },
                },
            decreases self.segments@.len() - i,
        {
            let ghost pending = segs[i as int].state.pending;
            assert(segs[i as int] == self.segments@[i as int]@);
            assert(pending.dom() =~= self.segments@[i as int].buf.pending@.dom());
            match least_offset(&self.segments[i].buf.pending) {
                Some(o) => {
                    assert(first_waiting(segs, i as int) == Some(o));
                    match best {
                        Some((b, k)) => {
                            if o < k {
                                best = Some((i, o));
                            }
                        },
                        None => {
                            best = Some((i, o));
                        },
                    }
                },
                None => {
                    assert(pending =~= Map::<u64, Seq<u8>>::empty());
                },
            }
            i = i + 1;
        }
        match best {
            Some((b, _)) => Some(b),
            None => {
                proof {
                    assert forall|j: int| 0 <= j < self.segments@.len() implies (
                    #[trigger] segs[j]).state.pending == Map::<u64, Seq<u8>>::empty() by {
                        assert(first_waiting(segs, j) is None);
                    }
                }
                None
            },
        }
    }

    /// The waiting bytes of all segments.
    fn waiting(&self) -> (r: u128)
        requires
            all_wf(self.segments@),
        ensures
            r == total_waiting(views(self.segments@)),
    {
        let ghost segs = views(self.segments@);
        let mut sum: u128 = 0;
        let mut i: usize = 0;
        while i < self.segments.len()
            invariant
                segs == views(self.segments@),
                all_wf(self.segments@),
                i <= self.segments@.len(),
                sum == total_waiting(segs.take(i as int)),
                sum <= i * u64::MAX,
            decreases self.segments@.len() - i,
        {
            assert(segs.take(i + 1).drop_last() =~= segs.take(i as int));
            assert(segs[i as int] == self.segments@[i as int]@);
            assert(i * u64::MAX + u64::MAX == (i + 1) * u64::MAX) by (nonlinear_arith);
            assert(i * u64::MAX <= u64::MAX * u64::MAX) by (nonlinear_arith)
                requires
                    i <= u64::MAX,
            ;
            sum = sum + self.segments[i].buf.pending_bytes as u128;
            i = i + 1;
        }
        assert(segs.take(i as int) =~= segs);
        sum
    }

    /// Gives up the waiting chunks of the least offsets, until the others are within the budget.
    fn enforce_pending_budget(&mut self)
        requires
            all_wf(old(self).segments@),
            all_distinct(views(old(self).segments@)),
            old(self).cache.wf(),
        ensures
            final(self).wf(),
            views(final(self).segments@) == enforced(
                views(old(self).segments@),
                PENDING_BUDGET as nat,
            ),
            final(self).pend_dropped == blind::bumped(
                old(self).pend_dropped,
                waiting_chunks(views(old(self).segments@)) - waiting_chunks(
                    views(final(self).segments@),
                ),
            ),
            final(self).cache == old(self).cache,
            final(self).total_chunks == old(self).total_chunks,
            final(self).total_refs == old(self).total_refs,
            final(self).total_bytes == old(self).total_bytes,
            final(self).unframed_dropped == old(self).unframed_dropped,
            final(self).cache_miss == old(self).cache_miss,
            final(self).gaps == old(self).gaps,
            final(self).sealed_segments == old(self).sealed_segments,
            final(self).frames_by_segment == old(self).frames_by_segment,
    {
        let ghost full = views(self.segments@);
        let mut total: u128 = self.waiting();
        let mut gone: u64 = 0;
        while total > PENDING_BUDGET as u128
            invariant
                full == views(old(self).segments@),
                all_wf(self.segments@),
                all_distinct(views(self.segments@)),
                self.cache.wf(),
                total == total_waiting(views(self.segments@)),
                enforced(views(self.segments@), PENDING_BUDGET as nat) == enforced(
                    full,
                    PENDING_BUDGET as nat,
                ),
                gone as int == (waiting_chunks(full) - waiting_chunks(views(self.segments@)))
                    % 0x1_0000_0000_0000_0000,
                self.pend_dropped == old(self).pend_dropped,
                self.cache == old(self).cache,
                self.total_chunks == old(self).total_chunks,
                self.total_refs == old(self).total_refs,
                self.total_bytes == old(self).total_bytes,
                self.unframed_dropped == old(self).unframed_dropped,
                self.cache_miss == old(self).cache_miss,
                self.gaps == old(self).gaps,
                self.sealed_segments == old(self).sealed_segments,
                self.frames_by_segment == old(self).frames_by_segment,
            decreases waiting_chunks(views(self.segments@)),
        {
            let ghost segs = views(self.segments@);
            match self.find_victim() {
                Some(i) => {
                    proof {
                        lemma_finite(self.segments@);
                        lemma_given_up(segs, i as int);
                        lemma_one_victim(segs, i as int, choose|j: int| is_victim(segs, j));
                        assert(segs[i as int] == self.segments@[i as int]@);
                    }
                    let had: u64 = self.segments[i].buf.pending_bytes;
                    self.segments[i].buf.drop_first();
                    assert(views(self.segments@) =~= given_up(segs, i as int));
                    total = total - (had - self.segments[i].buf.pending_bytes) as u128;
                    gone = gone.wrapping_add(1);
                },
                None => {
                    proof {
                        lemma_nothing_waits(segs);
                    }
                },
            }
        }
        self.pend_dropped = self.pend_dropped.wrapping_add(gone);
    }

    /// Takes the message that a segment is complete at its source. `file` is what the segment's
    /// file holds, if it could be read. There is no report on a segment of which nothing came.
    pub fn on_seal_frame(&mut self, seal: &SealFrame, file: Option<&Vec<u8>>) -> (r: Option<
        SealReport,
    >)
        requires
            old(self).wf(),
        ensures
            final(self).wf(),
            final(self).sealed_segments == blind::bumped(old(self).sealed_segments, 1),
            ({
                let before = views(old(self).segments@);
                let at = place_of(before, seal.dev_id, seal.segment_seq);
                if is_known(before, seal.dev_id, seal.segment_seq) {
                    let after = sealed_view(before[at], seal.sealed_size, file_view(file));
                    &&& views(final(self).segments@) == before.update(at, after)
                    &&& r == Some(
                        report_of(
                            after,
                            seal.sealed_size,
                            counted(
                                old(self).frames_by_segment@,
                                segment_key(seal.dev_id, seal.segment_seq),
                            ),
                        ),
                    )
                    &&& final(self).gaps == if after.missing_on_seal > 0 {
                        blind::bumped(old(self).gaps, 1)
                    } else {
                        old(self).gaps
                    }
                } else {
                    &&& final(self).segments == old(self).segments
                    &&& final(self).gaps == old(self).gaps
                    &&& r is None
                }
            }),
            final(self).cache == old(self).cache,
            final(self).total_chunks == old(self).total_chunks,
            final(self).total_refs == old(self).total_refs,
            final(self).total_bytes == old(self).total_bytes,
            final(self).unframed_dropped == old(self).unframed_dropped,
            final(self).cache_miss == old(self).cache_miss,
            final(self).pend_dropped == old(self).pend_dropped,
            final(self).frames_by_segment == old(self).frames_by_segment,
    {
        self.sealed_segments = self.sealed_segments.wrapping_add(1);
        let at: usize = match self.index_of(seal.dev_id, seal.segment_seq) {
            Some(i) => i,
            None => {
                return None;
            },
        };
        let ghost before = views(self.segments@);
        assert(before[at as int] == self.segments@[at as int]@);
        let missing: u64 = self.segments[at].buf.on_seal(seal.sealed_size, file);
        let ghost after = sealed_view(before[at as int], seal.sealed_size, file_view(file));
        proof {
            assert(self.segments@[at as int]@ == after);
            assert(views(self.segments@) =~= before.update(at as int, after));
            lemma_totals_update(before, at as int, after);
        }
        if missing > 0 {
            self.gaps = self.gaps.wrapping_add(1);
        }
        let key: u64 = key_of(seal.dev_id, seal.segment_seq);
        let recv_frames: u64 = match self.frames_by_segment.get(&key) {
            Some(n) => *n,
            None => 0,
        };
        let seg: &Segment = &self.segments[at];
        assert(after.state.pending.dom() =~= seg.buf.pending@.dom());
        let first_pend_off: u64 = match least_offset(&seg.buf.pending) {
            Some(o) => o,
            None => 0,
        };
        Some(
            SealReport {
                got: seg.buf.next_expected,
                missing,
                oversized: seg.buf.next_expected > seal.sealed_size,
                records: seg.buf.records,
                residual: seg.buf.residual,
                placed_chunks: seg.buf.placed_chunks,
                pended_chunks: seg.buf.pending.len() as u64,
                pend_bytes: seg.buf.pending_bytes,
                dup_dropped: seg.buf.dup_dropped,
                recv_frames,
                first_pend_off,
                pend_gap: first_pend_off.saturating_sub(seg.buf.next_expected),
            },
        )
    }

    /// The counters as text.
    pub open spec fn stats_text(self) -> Seq<char> {
        "chunks="@ + text::decimal(self.total_chunks as nat) + " refs="@ + text::decimal(
            self.total_refs as nat,
        ) + " bytes="@ + text::decimal(self.total_bytes as nat) + " unframed="@ + text::decimal(
            self.unframed_dropped as nat,
        ) + " cache_miss="@ + text::decimal(self.cache_miss as nat) + " gaps="@ + text::decimal(
            self.gaps as nat,
        ) + " sealed="@ + text::decimal(self.sealed_segments as nat) + " active_segments="@
            + text::decimal(self.segments@.len()) + " cache_bytes="@ + text::decimal(
            self.cache.bytes as nat,
        ) + " evicted="@ + text::decimal(self.cache.evicted as nat) + " pend_bytes="@
            + text::decimal(total_waiting(views(self.segments@))) + " pend_dropped="@
            + text::decimal(self.pend_dropped as nat)
    }

    /// The counters as text.
    pub fn stats(&self) -> (r: String)
        requires
            self.wf(),
        ensures
            r@ == self.stats_text(),
            r@ == "chunks="@ + text::decimal(self.total_chunks as nat) + " refs="@ + text::decimal(
                self.total_refs as nat,
            ) + " bytes="@ + text::decimal(self.total_bytes as nat) + " unframed="@ + text::decimal(
                self.unframed_dropped as nat,
            ) + " cache_miss="@ + text::decimal(self.cache_miss as nat) + " gaps="@ + text::decimal(
                self.gaps as nat,
            ) + " sealed="@ + text::decimal(self.sealed_segments as nat) + " active_segments="@
                + text::decimal(self.segments@.len()) + " cache_bytes="@ + text::decimal(
                self.cache.bytes as nat,
            ) + " evicted="@ + text::decimal(self.cache.evicted as nat) + " pend_bytes="@
                + text::decimal(total_waiting(views(self.segments@))) + " pend_dropped="@
                + text::decimal(self.pend_dropped as nat),
    {
        let mut out = String::new();
        assert(out@ =~= Seq::<char>::empty());
        push_count(&mut out, "chunks=", self.total_chunks);
        assert(out@ =~= "chunks="@ + text::decimal(self.total_chunks as nat));
        push_count(&mut out, " refs=", self.total_refs);
        push_count(&mut out, " bytes=", self.total_bytes);
        push_count(&mut out, " unframed=", self.unframed_dropped);
        push_count(&mut out, " cache_miss=", self.cache_miss);
        push_count(&mut out, " gaps=", self.gaps);
        push_count(&mut out, " sealed=", self.sealed_segments);
        push_count(&mut out, " active_segments=", self.segments.len() as u64);
        push_count(&mut out, " cache_bytes=", self.cache.bytes);
        push_count(&mut out, " evicted=", self.cache.evicted);
        push_count(&mut out, " pend_bytes=", self.pending_total());
        push_count(&mut out, " pend_dropped=", self.pend_dropped);
        out
    }

    /// The waiting bytes of all segments.
    pub fn pending_total(&self) -> (r: u64)
        requires
            self.wf(),
        ensures
            r == total_waiting(views(self.segments@)),
    {
        self.waiting() as u64
    }
}

/// Appends a name and a number.
fn push_count(out: &mut String, name: &str, n: u64)
    ensures
        final(out)@ == old(out)@ + name@ + text::decimal(n as nat),
{
    out.append(name);
    push_decimal(out, n);
}

/// A segment that counts its waiting bytes right has finitely many waiting chunks.
proof fn lemma_finite(segs: Seq<Segment>)
    requires
        all_wf(segs),
    ensures
        all_finite(views(segs)),
{
    assert forall|i: int| 0 <= i < segs.len() implies (#[trigger] views(
        segs,
    )[i]).state.pending.dom().finite() by {
        assert(segs[i].buf.wf());
        assert(views(segs)[i].state.pending.dom() =~= segs[i].buf.pending@.dom());
    }
}

/// At most one segment is the next to give up a chunk.
proof fn lemma_one_victim(segs: Seq<SegmentView>, i: int, j: int)
    requires
        is_victim(segs, i),
        is_victim(segs, j),
    ensures
        i == j,
{
    assert(first_waiting(segs, i) is Some);
    assert(first_waiting(segs, j) is Some);
}

/// Where no chunk waits, no byte does.
proof fn lemma_nothing_waits(segs: Seq<SegmentView>)
    requires
        forall|j: int|
            0 <= j < segs.len() ==> (#[trigger] segs[j]).state.pending == Map::<
                u64,
                Seq<u8>,
            >::empty(),
    ensures
        total_waiting(segs) == 0,
    decreases segs.len(),
{
    if segs.len() > 0 {
        assert forall|j: int| 0 <= j < segs.len() - 1 implies (
        #[trigger] segs.drop_last()[j]).state.pending == Map::<u64, Seq<u8>>::empty() by {
            assert(segs[j].state.pending == Map::<u64, Seq<u8>>::empty());
        }
        lemma_nothing_waits(segs.drop_last());
        assert(segs[segs.len() - 1].state.pending == Map::<u64, Seq<u8>>::empty());
    }
}

} // verus!
