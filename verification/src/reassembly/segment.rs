//! One segment that is put together from chunks, whatever the order in which they arrive.
//!
//! A chunk carries its offset within the segment. A chunk that starts at the water mark or before
//! it is written from the mark on, and with it every waiting chunk that the mark then comes to. A
//! chunk beyond the water mark waits. A chunk that ends before it has been written already.
use crate::endian;
use crate::reassembly::blind;
use crate::text;
use crate::wal::header::{self, WalRecord};
use crate::wal::rotate;
use std::collections::BTreeMap;
use vstd::prelude::*;
use vstd::slice::slice_subrange;
use vstd::string::StringExecFns;

verus! {

/// `k` is the least of the numbers.
pub open spec fn is_least(numbers: Set<u64>, k: u64) -> bool {
    &&& numbers.contains(k)
    &&& forall|o: u64| #[trigger] numbers.contains(o) ==> k <= o
}

/// The least of the numbers.
pub open spec fn least(numbers: Set<u64>) -> Option<u64> {
    if exists|k: u64| is_least(numbers, k) {
        Some(choose|k: u64| is_least(numbers, k))
    } else {
        None
    }
}

/// The bytes of all waiting chunks.
pub open spec fn waiting_bytes(pending: Map<u64, Seq<u8>>) -> nat
    decreases pending.dom().len(),
{
    if pending.dom().finite() && pending.dom().len() > 0 {
        let k = pending.dom().choose();
        waiting_bytes(pending.remove(k)) + pending[k].len()
    } else {
        0
    }
}

/// The sum can be taken from any chunk on.
pub proof fn lemma_waiting_remove(pending: Map<u64, Seq<u8>>, k: u64)
    requires
        pending.dom().finite(),
        pending.contains_key(k),
    ensures
        waiting_bytes(pending) == waiting_bytes(pending.remove(k)) + pending[k].len(),
    decreases pending.dom().len(),
{
    let c = pending.dom().choose();
    assert(pending.dom().contains(c));
    if c != k {
        lemma_waiting_remove(pending.remove(c), k);
        lemma_waiting_remove(pending.remove(k), c);
        assert(pending.remove(c).remove(k) =~= pending.remove(k).remove(c));
    }
}

/// A chunk put among the waiting ones takes the place of the one with its offset.
proof fn lemma_waiting_insert(pending: Map<u64, Seq<u8>>, k: u64, bytes: Seq<u8>)
    requires
        pending.dom().finite(),
    ensures
        waiting_bytes(pending.insert(k, bytes)) == waiting_bytes(pending.remove(k)) + bytes.len(),
        pending.contains_key(k) ==> waiting_bytes(pending) == waiting_bytes(pending.remove(k))
            + pending[k].len(),
        !pending.contains_key(k) ==> waiting_bytes(pending) == waiting_bytes(pending.remove(k)),
{
    lemma_waiting_remove(pending.insert(k, bytes), k);
    assert(pending.insert(k, bytes).remove(k) =~= pending.remove(k));
    if pending.contains_key(k) {
        lemma_waiting_remove(pending, k);
    } else {
        assert(pending.remove(k) =~= pending);
    }
}

/// What has been gathered of a segment: the water mark, up to which every byte is written, and the
/// chunks beyond it that wait, by offset.
#[verifier::ext_equal]
pub struct Gathered {
    pub next: nat,
    pub pending: Map<u64, Seq<u8>>,
}

/// A step: the state after it, the bytes it wrote, how many chunks they came from, and how many
/// chunks were dropped because their place was written already.
#[verifier::ext_equal]
pub struct Stepped {
    pub state: Gathered,
    pub written: Seq<u8>,
    pub chunks: nat,
    pub dups: nat,
}

/// The waiting chunks that the water mark has come to are taken up, the least offset first: what of
/// a chunk lies beyond the mark is written, and a chunk of which nothing does is dropped.
pub open spec fn drained(s: Gathered) -> Stepped
    decreases s.pending.dom().len(),
{
    let first = least(s.pending.dom());
    if s.pending.dom().finite() && first is Some && first->0 <= s.next {
        let k = first->0;
        let bytes = s.pending[k];
        let left = s.pending.remove(k);
        if k + bytes.len() <= s.next {
            let rest = drained(Gathered { next: s.next, pending: left });
            Stepped { dups: rest.dups + 1, ..rest }
        } else {
            let rest = drained(Gathered { next: (k + bytes.len()) as nat, pending: left });
            Stepped {
                written: bytes.skip(s.next - k) + rest.written,
                chunks: rest.chunks + 1,
                ..rest
            }
        }
    } else {
        Stepped { state: s, written: Seq::empty(), chunks: 0, dups: 0 }
    }
}

/// `whole` is what was done followed by the rest.
spec fn is_split(whole: Stepped, done: Stepped, rest: Stepped) -> bool {
    &&& whole.state == rest.state
    &&& whole.written == done.written + rest.written
    &&& whole.chunks == done.chunks + rest.chunks
    &&& whole.dups == done.dups + rest.dups
}

/// Taking up the first waiting chunk is the first step.
proof fn lemma_drain_step(s: Gathered, k: u64)
    requires
        s.pending.dom().finite(),
        is_least(s.pending.dom(), k),
        k <= s.next,
    ensures
        k + s.pending[k].len() <= s.next ==> drained(s) == (Stepped {
            dups: drained(Gathered { next: s.next, pending: s.pending.remove(k) }).dups + 1,
            ..drained(Gathered { next: s.next, pending: s.pending.remove(k) })
        }),
        k + s.pending[k].len() > s.next ==> {
            let rest = drained(
                Gathered {
                    next: (k + s.pending[k].len()) as nat,
                    pending: s.pending.remove(k),
                },
            );
            drained(s) == (Stepped {
                written: s.pending[k].skip(s.next - k) + rest.written,
                chunks: rest.chunks + 1,
                ..rest
            })
        },
{
    assert(least(s.pending.dom()) == Some(k));
}

/// A counter goes on from where it is.
proof fn lemma_bumped(n: u64, a: int, b: int)
    ensures
        blind::bumped(blind::bumped(n, a), b) == blind::bumped(n, a + b),
{
}

/// The waiting chunks with one more. Of two at one offset, the longer one waits.
pub open spec fn with_waiting(pending: Map<u64, Seq<u8>>, offset: u64, bytes: Seq<u8>) -> Map<
    u64,
    Seq<u8>,
> {
    if pending.contains_key(offset) && pending[offset].len() > bytes.len() {
        pending
    } else {
        pending.insert(offset, bytes)
    }
}

/// A chunk arrives. One beyond the water mark waits. What of it lies beyond the mark is written
/// where it starts at the mark or before it, and with it what waited for it.
pub open spec fn placed(s: Gathered, offset: u64, bytes: Seq<u8>) -> Stepped {
    if bytes.len() == 0 {
        Stepped { state: s, written: Seq::empty(), chunks: 0, dups: 0 }
    } else if offset > s.next {
        Stepped {
            state: Gathered { next: s.next, pending: with_waiting(s.pending, offset, bytes) },
            written: Seq::empty(),
            chunks: 0,
            dups: 0,
        }
    } else if offset + bytes.len() <= s.next {
        Stepped { state: s, written: Seq::empty(), chunks: 0, dups: 1 }
    } else {
        let rest = drained(Gathered { next: (offset + bytes.len()) as nat, pending: s.pending });
        Stepped {
            written: bytes.skip(s.next - offset) + rest.written,
            chunks: rest.chunks + 1,
            ..rest
        }
    }
}

/// The name of the file that holds a segment. The first device has the plain segment names; the
/// names of the others start with the device, so that devices do not mix.
pub open spec fn segment_file_name(dev_id: u32, seq: u32) -> Seq<char> {
    if dev_id == 1 {
        rotate::segment_name(seq as u64)
    } else {
        "dev"@ + text::decimal(dev_id as nat) + "_"@ + rotate::segment_name(seq as u64)
    }
}

/// The name of the file that holds a segment.
pub fn segment_file(dev_id: u32, seq: u32) -> (r: String)
    ensures
        r@ == segment_file_name(dev_id, seq),
{
    let mut name = String::new();
    if dev_id != 1 {
        name.append("dev");
        text::push_decimal(&mut name, dev_id as u64);
        name.append("_");
    }
    let ghost front = name@;
    name.append("segment_");
    text::push_decimal4(&mut name, seq as u64);
    name.append(".wal");
    assert(name@ =~= front + rotate::segment_name(seq as u64));
    proof {
        if dev_id != 1 {
            assert(front =~= "dev"@ + text::decimal(dev_id as nat) + "_"@);
        } else {
            assert(name@ =~= rotate::segment_name(seq as u64));
        }
    }
    name
}

/// A segment that is being put together.
#[derive(Debug)]
pub struct SegmentBuf {
    /// The bytes written without a gap, which is the size of the file.
    pub next_expected: u64,
    /// Chunks beyond a gap, by offset.
    pub pending: BTreeMap<u64, Vec<u8>>,
    /// The bytes of the pending chunks.
    pub pending_bytes: u64,
    /// The segment has been sealed.
    pub sealed: bool,
    /// The bytes that were missing when it was sealed.
    pub missing_on_seal: u64,
    /// The records that were found in the file when it was sealed.
    pub records: u64,
    /// The bytes after the last of these records.
    pub residual: u64,
    /// The chunks that were written.
    pub placed_chunks: u64,
    /// The chunks that were dropped because their place was written already.
    pub dup_dropped: u64,
}

/// What came of a chunk: whether it was taken, and what is now to be appended to the file.
#[derive(Debug)]
pub struct Placement {
    pub placed: bool,
    pub append: Vec<u8>,
}

/// The bytes of waiting chunks.
pub open spec fn pending_view(pending: Map<u64, Vec<u8>>) -> Map<u64, Seq<u8>> {
    pending.map_values(|v: Vec<u8>| v@)
}

/// The least offset of the waiting chunks.
pub fn least_offset(pending: &BTreeMap<u64, Vec<u8>>) -> (r: Option<u64>)
    ensures
        r == least(pending@.dom()),
        match r {
            Some(k) => is_least(pending@.dom(), k),
            None => pending@.dom() == Set::<u64>::empty(),
        },
{
    for kv in it: pending.iter()
        invariant
            it.seq().unref().to_set() == pending@.kv_pairs(),
            vstd::std_specs::btree::increasing_seq(
                it.seq().map_values(|kv: (&u64, &Vec<u8>)| *kv.0),
            ),
            it.index() == 0,
    {
        let k: u64 = *kv.0;
        proof {
            let s = it.seq();
            let keys = s.map_values(|kv: (&u64, &Vec<u8>)| *kv.0);
            assert(s.unref()[0] == (k, *kv.1));
            assert(s.unref().to_set().contains((k, *kv.1)));
            assert(keys[0] == k);
            assert(vstd::laws_cmp::obeys_cmp::<u64>());
            assert forall|o: u64| #[trigger] pending@.dom().contains(o) implies k <= o by {
                assert(pending@.kv_pairs().contains((o, pending@[o])));
                assert(s.unref().contains((o, pending@[o])));
                let i = choose|i: int| 0 <= i < s.len() && s.unref()[i] == (o, pending@[o]);
                assert(keys[i] == o);
                if i > 0 {
                    assert(vstd::std_specs::cmp::OrdSpec::cmp_spec(&keys[0], &keys[i]) is Less);
                }
            }
        }
        assert(is_least(pending@.dom(), k));
        return Some(k);
    }
    assert(pending@.dom() =~= Set::<u64>::empty()) by {
        assert forall|o: u64| !(#[trigger] pending@.dom().contains(o)) by {
            if pending@.dom().contains(o) {
                assert(pending@.kv_pairs().contains((o, pending@[o])));
            }
        }
    }
    None
}

impl SegmentBuf {
    /// What has been gathered.
    pub open spec fn gathered(self) -> Gathered {
        Gathered { next: self.next_expected as nat, pending: pending_view(self.pending@) }
    }

    /// The pending bytes are counted right.
    pub open spec fn counts_right(self) -> bool {
        &&& self.pending@.dom().finite()
        &&& self.pending_bytes == waiting_bytes(pending_view(self.pending@))
    }

    /// The pending bytes are counted right, and every pending chunk lies beyond a gap.
    pub open spec fn wf(self) -> bool {
        &&& self.counts_right()
        &&& forall|o: u64| #[trigger] self.pending@.dom().contains(o) ==> o > self.next_expected
    }

    /// All bytes that are there, and `len` more, can be counted.
    pub open spec fn has_room(self, len: nat) -> bool {
        self.next_expected + self.pending_bytes + len <= u64::MAX
    }

    /// A segment whose file holds `existing_len` bytes: it goes on from there.
    pub fn open(existing_len: u64) -> (r: Self)
        ensures
            r.wf(),
            r.gathered() == (Gathered { next: existing_len as nat, pending: Map::empty() }),
            !r.sealed,
            r.pending_bytes == 0,
            r.missing_on_seal == 0 && r.records == 0 && r.residual == 0,
            r.placed_chunks == 0 && r.dup_dropped == 0,
    {
        let r = SegmentBuf {
            next_expected: existing_len,
            pending: BTreeMap::new(),
            pending_bytes: 0,
            sealed: false,
            missing_on_seal: 0,
            records: 0,
            residual: 0,
            placed_chunks: 0,
            dup_dropped: 0,
        };
        assert(pending_view(r.pending@) =~= Map::empty());
        r
    }

    /// Takes up the first waiting chunk, which the water mark has come to.
    fn take_first(&mut self, k: u64, append: &mut Vec<u8>)
        requires
            old(self).counts_right(),
            old(self).has_room(0),
            is_least(old(self).pending@.dom(), k),
            k <= old(self).next_expected,
        ensures
            final(self).counts_right(),
            final(self).next_expected + final(self).pending_bytes <= old(self).next_expected
                + old(self).pending_bytes,
            final(self).pending@.dom().len() < old(self).pending@.dom().len(),
            ({
                let g = old(self).gathered();
                let bytes = g.pending[k];
                let covered = k + bytes.len() <= g.next;
                &&& final(self).gathered() == (Gathered {
                    next: if covered {
                        g.next
                    } else {
                        (k + bytes.len()) as nat
                    },
                    pending: g.pending.remove(k),
                })
                &&& final(append)@ == if covered {
                    old(append)@
                } else {
                    old(append)@ + bytes.skip(g.next - k)
                }
                &&& final(self).placed_chunks == if covered {
                    old(self).placed_chunks
                } else {
                    blind::bumped(old(self).placed_chunks, 1)
                }
                &&& final(self).dup_dropped == if covered {
                    blind::bumped(old(self).dup_dropped, 1)
                } else {
                    old(self).dup_dropped
                }
            }),
            final(self).sealed == old(self).sealed,
            final(self).missing_on_seal == old(self).missing_on_seal,
            final(self).records == old(self).records,
            final(self).residual == old(self).residual,
    {
        let ghost before = pending_view(self.pending@);
        assert(self.pending@.contains_key(k));
        assert(before.dom() =~= self.pending@.dom());
        proof {
            lemma_waiting_remove(before, k);
        }
        if let Some(bytes) = self.pending.remove(&k) {
            assert(bytes@ == before[k]);
            assert(pending_view(self.pending@) =~= before.remove(k));
            let len: u64 = bytes.len() as u64;
            self.pending_bytes = self.pending_bytes - len;
            let end: u64 = k + len;
            if end <= self.next_expected {
                self.dup_dropped = self.dup_dropped.wrapping_add(1);
            } else {
                let skip: usize = (self.next_expected - k) as usize;
                let tail: &[u8] = slice_subrange(bytes.as_slice(), skip, bytes.len());
                assert(tail@ =~= before[k].skip(skip as int));
                endian::append_bytes(append, tail);
                self.next_expected = end;
                self.placed_chunks = self.placed_chunks.wrapping_add(1);
            }
        }
    }

    /// Puts a chunk in its place. An empty chunk is not taken, nor one whose place is written.
    pub fn place(&mut self, offset: u64, bytes: &[u8]) -> (r: Placement)
        requires
            old(self).wf(),
            old(self).has_room(bytes@.len()),
        ensures
            final(self).wf(),
            final(self).has_room(0),
            final(self).next_expected + final(self).pending_bytes <= old(self).next_expected
                + old(self).pending_bytes + bytes@.len(),
            ({
                let step = placed(old(self).gathered(), offset, bytes@);
                &&& final(self).gathered() == step.state
                &&& r.append@ == step.written
                &&& final(self).placed_chunks == blind::bumped(
                    old(self).placed_chunks,
                    step.chunks as int,
                )
                &&& final(self).dup_dropped == blind::bumped(
                    old(self).dup_dropped,
                    step.dups as int,
                )
            }),
            r.placed == (bytes@.len() > 0 && offset + bytes@.len() > old(self).next_expected),
            final(self).sealed == old(self).sealed,
            final(self).missing_on_seal == old(self).missing_on_seal,
            final(self).records == old(self).records,
            final(self).residual == old(self).residual,
    {
        let mut append: Vec<u8> = Vec::new();
        if bytes.len() == 0 {
            return Placement { placed: false, append };
        }
        if offset > self.next_expected {
            self.set_aside(offset, bytes);
            return Placement { placed: true, append };
        }
        let end: u64 = offset + bytes.len() as u64;
        if end <= self.next_expected {
            self.dup_dropped = self.dup_dropped.wrapping_add(1);
            return Placement { placed: false, append };
        }
        let skip: usize = (self.next_expected - offset) as usize;
        let tail: &[u8] = slice_subrange(bytes, skip, bytes.len());
        assert(tail@ =~= bytes@.skip(skip as int));
        endian::append_bytes(&mut append, tail);
        assert(append@ =~= tail@);
        self.next_expected = end;
        self.placed_chunks = self.placed_chunks.wrapping_add(1);
        self.drain(&mut append);
        proof {
            let rest = drained(
                Gathered { next: end as nat, pending: old(self).gathered().pending },
            );
            lemma_bumped(old(self).placed_chunks, 1, rest.chunks as int);
        }
        Placement { placed: true, append }
    }

    /// Takes up the waiting chunks that the water mark has come to.
    fn drain(&mut self, append: &mut Vec<u8>)
        requires
            old(self).counts_right(),
            old(self).has_room(0),
        ensures
            final(self).wf(),
            final(self).next_expected + final(self).pending_bytes <= old(self).next_expected
                + old(self).pending_bytes,
            ({
                let rest = drained(old(self).gathered());
                &&& final(self).gathered() == rest.state
                &&& final(append)@ == old(append)@ + rest.written
                &&& final(self).placed_chunks == blind::bumped(
                    old(self).placed_chunks,
                    rest.chunks as int,
                )
                &&& final(self).dup_dropped == blind::bumped(
                    old(self).dup_dropped,
                    rest.dups as int,
                )
            }),
            final(self).sealed == old(self).sealed,
            final(self).missing_on_seal == old(self).missing_on_seal,
            final(self).records == old(self).records,
            final(self).residual == old(self).residual,
    {
        let ghost entry = drained(self.gathered());
        let ghost start = append@;
        let ghost sum = self.next_expected + self.pending_bytes;
        let ghost mut done = Stepped {
            state: self.gathered(),
            written: Seq::empty(),
            chunks: 0,
            dups: 0,
        };
        assert(done.written + entry.written =~= entry.written);
        assert(start + done.written =~= start);
        loop
            invariant
                self.counts_right(),
                self.next_expected + self.pending_bytes <= sum,
                sum <= u64::MAX,
                done.state == self.gathered(),
                is_split(entry, done, drained(self.gathered())),
                append@ == start + done.written,
                self.placed_chunks == blind::bumped(old(self).placed_chunks, done.chunks as int),
                self.dup_dropped == blind::bumped(old(self).dup_dropped, done.dups as int),
                self.sealed == old(self).sealed,
                self.missing_on_seal == old(self).missing_on_seal,
                self.records == old(self).records,
                self.residual == old(self).residual,
            ensures
                self.wf(),
                is_split(
                    entry,
                    done,
                    (Stepped {
                        state: self.gathered(),
                        written: Seq::empty(),
                        chunks: 0,
                        dups: 0,
                    }),
                ),
            decreases self.pending@.dom().len(),
        {
            let ghost now = self.gathered();
            assert(now.pending.dom() =~= self.pending@.dom());
            match least_offset(&self.pending) {
                Some(o) => {
                    if o > self.next_expected {
                        break;
                    }
                    self.take_first(o, append);
                    proof {
                        let before = done;
                        let rest = drained(self.gathered());
                        lemma_drain_step(now, o);
                        lemma_bumped(old(self).placed_chunks, before.chunks as int, 1);
                        lemma_bumped(old(self).dup_dropped, before.dups as int, 1);
                        if o + now.pending[o].len() <= now.next {
                            done = Stepped {
                                state: self.gathered(),
                                dups: before.dups + 1,
                                ..before
                            };
                        } else {
                            let tail = now.pending[o].skip(now.next - o);
                            done = Stepped {
                                state: self.gathered(),
                                written: before.written + tail,
                                chunks: before.chunks + 1,
                                ..before
                            };
                            assert(before.written + (tail + rest.written) =~= done.written
                                + rest.written);
                            assert(append@ =~= start + done.written);
                        }
                    }
                },
                None => {
                    break;
                },
            }
        }
        assert(done.written + Seq::<u8>::empty() =~= done.written);
    }

    /// Puts a chunk beyond the water mark among those that wait.
    fn set_aside(&mut self, offset: u64, bytes: &[u8])
        requires
            old(self).wf(),
            old(self).has_room(bytes@.len()),
            offset > old(self).next_expected,
        ensures
            final(self).wf(),
            final(self).gathered() == (Gathered {
                next: old(self).gathered().next,
                pending: with_waiting(old(self).gathered().pending, offset, bytes@),
            }),
            final(self).pending_bytes <= old(self).pending_bytes + bytes@.len(),
            final(self).placed_chunks == old(self).placed_chunks,
            final(self).dup_dropped == old(self).dup_dropped,
            final(self).sealed == old(self).sealed,
            final(self).missing_on_seal == old(self).missing_on_seal,
            final(self).records == old(self).records,
            final(self).residual == old(self).residual,
    {
        let ghost before = pending_view(self.pending@);
        assert(before.dom() =~= self.pending@.dom());
        if let Some(waiting) = self.pending.get(&offset) {
            assert(waiting@ == before[offset]);
            if waiting.len() > bytes.len() {
                return;
            }
        }
        let mut copy: Vec<u8> = Vec::new();
        endian::append_bytes(&mut copy, bytes);
        assert(copy@ =~= bytes@);
        proof {
            lemma_waiting_insert(before, offset, bytes@);
        }
        match self.pending.insert(offset, copy) {
            Some(replaced) => {
                assert(replaced@ == before[offset]);
                self.pending_bytes = self.pending_bytes - replaced.len() as u64;
            },
            None => {},
        }
        assert(pending_view(self.pending@) =~= before.insert(offset, bytes@));
        self.pending_bytes = self.pending_bytes + bytes.len() as u64;
    }

    /// The waiting chunk with the least offset is given up.
    pub fn drop_first(&mut self) -> (r: bool)
        requires
            old(self).wf(),
        ensures
            final(self).wf(),
            r == (old(self).pending@.dom().len() > 0),
            match least(old(self).gathered().pending.dom()) {
                Some(k) => {
                    &&& r
                    &&& final(self).gathered() == (Gathered {
                        next: old(self).gathered().next,
                        pending: old(self).gathered().pending.remove(k),
                    })
                    &&& final(self).pending_bytes == old(self).pending_bytes
                        - old(self).gathered().pending[k].len()
                },
                None => !r && *final(self) == *old(self),
            },
            final(self).next_expected == old(self).next_expected,
            final(self).placed_chunks == old(self).placed_chunks,
            final(self).dup_dropped == old(self).dup_dropped,
            final(self).sealed == old(self).sealed,
            final(self).missing_on_seal == old(self).missing_on_seal,
            final(self).records == old(self).records,
            final(self).residual == old(self).residual,
    {
        let ghost before = pending_view(self.pending@);
        assert(before.dom() =~= self.pending@.dom());
        match least_offset(&self.pending) {
            Some(o) => {
                proof {
                    lemma_waiting_remove(before, o);
                    assert(is_least(before.dom(), o));
                }
                assert(self.pending@.contains_key(o));
                if let Some(bytes) = self.pending.remove(&o) {
                    assert(bytes@ == before[o]);
                    assert(pending_view(self.pending@) =~= before.remove(o));
                    self.pending_bytes = self.pending_bytes - bytes.len() as u64;
                }
                true
            },
            None => false,
        }
    }

    /// The segment is complete at its source, with `sealed_size` bytes. Counts what is missing
    /// here, and the records in the file, if it could be read.
    pub fn on_seal(&mut self, sealed_size: u64, file: Option<&Vec<u8>>) -> (r: u64)
        requires
            old(self).wf(),
        ensures
            final(self).wf(),
            r == if sealed_size > old(self).next_expected {
                (sealed_size - old(self).next_expected) as u64
            } else {
                0
            },
            final(self).gathered() == old(self).gathered(),
            final(self).pending_bytes == old(self).pending_bytes,
            final(self).sealed,
            final(self).missing_on_seal == r,
            match file {
                Some(bytes) => {
                    &&& final(self).records == header::stream_records(bytes@, 0).len()
                    &&& final(self).residual == bytes@.len() - header::stream_end(bytes@, 0)
                },
                None => {
                    &&& final(self).records == old(self).records
                    &&& final(self).residual == old(self).residual
                },
            },
            final(self).placed_chunks == old(self).placed_chunks,
            final(self).dup_dropped == old(self).dup_dropped,
    {
        self.sealed = true;
        let missing: u64 = sealed_size.saturating_sub(self.next_expected);
        self.missing_on_seal = missing;
        if let Some(bytes) = file {
            let (records, residual) = WalRecord::decode_stream(bytes);
            assert(header::views(records@).len() == records@.len());
            self.records = records.len() as u64;
            self.residual = residual as u64;
        }
        missing
    }
}

} // verus!
