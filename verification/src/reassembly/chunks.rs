//! What becomes of a chunk: from its message over the cache to its place in a segment.
use crate::reassembly::reassembler::{self, Reassembler, SegmentView};
use crate::reassembly::segment::{self, Gathered};
use crate::reassembly::{blind, cipher, laws};
use crate::text;
use crate::text_laws;
use crate::wal::{header, layout, rotate};
use vstd::prelude::*;

verus! {

/// A chunk that was sent whole arrives whole, however long it is: whatever the cipher opens the body
/// to is the chunk, all of it, and what the cipher does not open is no chunk. The cache and the topic
/// play no part in it. A body is a nonce of 12 bytes and the ciphertext behind it.
pub proof fn law_chunk_sent_whole_arrives_whole(
    cache: Seq<(u128, Seq<u8>)>,
    id: Option<Seq<u8>>,
    body: Seq<u8>,
    cipher_key: Seq<u8>,
)
    requires
        12 <= body.len() <= 274_877_906_844,
    ensures
        reassembler::chunk_of(cache, false, id, body, cipher_key) == cipher::aead_opened(
            cipher_key,
            body.take(12),
            body.skip(12),
        ),
{
}

/// What was sealed under a nonce and sent behind it arrives as it was: for every key, nonce and
/// message that the cipher opens its ciphertext to, the chunk is the message.
pub proof fn law_sealed_message_is_the_chunk(
    cache: Seq<(u128, Seq<u8>)>,
    id: Option<Seq<u8>>,
    cipher_key: Seq<u8>,
    nonce: Seq<u8>,
    sealed: Seq<u8>,
    message: Seq<u8>,
)
    requires
        nonce.len() == 12,
        sealed.len() <= 274_877_906_832,
        cipher::aead_opened(cipher_key, nonce, sealed) == Some(message),
    ensures
        reassembler::chunk_of(cache, false, id, nonce + sealed, cipher_key) == Some(message),
{
    assert((nonce + sealed).take(12) =~= nonce);
    assert((nonce + sealed).skip(12) =~= sealed);
}

/// A body that has no room for a nonce, or is longer than any that the cipher makes, is no chunk.
pub proof fn law_body_of_no_message_is_no_chunk(
    cache: Seq<(u128, Seq<u8>)>,
    id: Option<Seq<u8>>,
    body: Seq<u8>,
    cipher_key: Seq<u8>,
)
    requires
        body.len() < 12 || body.len() > 274_877_906_844,
    ensures
        reassembler::chunk_of(cache, false, id, body, cipher_key) is None,
{
}

/// A reference gives the chunk that the cache holds under its identifier, all of it, whatever else the
/// message says, and nothing if the cache holds none or the topic names none.
pub proof fn law_reference_gives_the_cached_chunk(
    cache: Seq<(u128, Seq<u8>)>,
    id: Seq<u8>,
    body: Seq<u8>,
    cipher_key: Seq<u8>,
)
    requires
        forall|i: int, j: int| 0 <= i < j < cache.len() ==> cache[i].0 != cache[j].0,
    ensures
        forall|i: int|
            0 <= i < cache.len() && (#[trigger] cache[i]).0 == blind::id_number(id) as u128
                ==> reassembler::chunk_of(cache, true, Some(id), body, cipher_key) == Some(
                cache[i].1,
            ),
        (forall|i: int|
            0 <= i < cache.len() ==> (#[trigger] cache[i]).0 != blind::id_number(id) as u128)
            ==> reassembler::chunk_of(cache, true, Some(id), body, cipher_key) is None,
        reassembler::chunk_of(cache, true, None, body, cipher_key) is None,
{
    let n = blind::id_number(id) as u128;
    assert forall|i: int| 0 <= i < cache.len() && (#[trigger] cache[i]).0 == n implies
        reassembler::chunk_of(cache, true, Some(id), body, cipher_key) == Some(cache[i].1) by {
        assert(blind::has_entry(cache, n));
        let j = choose|j: int| 0 <= j < cache.len() && (#[trigger] cache[j]).0 == n;
        assert(cache[j].0 == n);
        if i != j {
            assert(cache[i].0 != cache[j].0);
        }
    }
}

/// A chunk that enters the cache changes no other: under its own number stands the chunk, and every
/// other chunk stands where it stood. Its place is that of the chunk it replaces, or else the last.
pub proof fn law_entering_chunk_changes_no_other(
    cache: Seq<(u128, Seq<u8>)>,
    id: u128,
    data: Seq<u8>,
)
    requires
        forall|i: int, j: int| 0 <= i < j < cache.len() ==> cache[i].0 != cache[j].0,
    ensures
        ({
            let after = blind::put(cache, id, data);
            &&& forall|i: int|
                0 <= i < cache.len() ==> #[trigger] after[i] == if cache[i].0 == id {
                    (id, data)
                } else {
                    cache[i]
                }
            &&& (exists|i: int| 0 <= i < cache.len() && (#[trigger] cache[i]).0 == id)
                ==> after.len() == cache.len()
            &&& (forall|i: int| 0 <= i < cache.len() ==> (#[trigger] cache[i]).0 != id) ==> after
                == cache.push((id, data))
        }),
{
    let after = blind::put(cache, id, data);
    if blind::has_entry(cache, id) {
        let k = choose|k: int| 0 <= k < cache.len() && (#[trigger] cache[k]).0 == id;
        assert(cache[k].0 == id);
        assert forall|i: int| 0 <= i < cache.len() implies #[trigger] after[i]
            == if cache[i].0 == id {
            (id, data)
        } else {
            cache[i]
        } by {
            if i != k {
                assert(cache[i].0 != cache[k].0);
            }
        }
    }
}

/// Nothing leaves the cache that could stay: within the budget nothing leaves, and where chunks left,
/// the last of them would not have fitted beside those that stayed.
pub proof fn law_no_chunk_leaves_needlessly(cache: Seq<(u128, Seq<u8>)>, budget: nat)
    ensures
        blind::total_bytes(cache) <= budget ==> blind::within_budget(cache, budget) == cache,
        blind::within_budget(cache, budget).len() <= cache.len(),
        blind::within_budget(cache, budget).len() < cache.len() ==> blind::total_bytes(
            cache.skip(cache.len() - blind::within_budget(cache, budget).len() - 1),
        ) > budget,
    decreases cache.len(),
{
    if cache.len() > 0 && blind::total_bytes(cache) > budget {
        let rest = cache.drop_first();
        law_no_chunk_leaves_needlessly(rest, budget);
        let w = blind::within_budget(rest, budget);
        if w.len() == rest.len() {
            assert(cache.skip(0) =~= cache);
        } else {
            assert(cache.skip(cache.len() - w.len() - 1) =~= rest.skip(
                rest.len() - w.len() - 1,
            ));
        }
    }
}

/// The bytes of the cache are the sum of the lengths of its chunks.
pub proof fn law_cache_counts_every_chunk(cache: Seq<(u128, Seq<u8>)>, id: u128, data: Seq<u8>)
    ensures
        blind::total_bytes(Seq::<(u128, Seq<u8>)>::empty()) == 0,
        blind::total_bytes(cache.push((id, data))) == blind::total_bytes(cache) + data.len(),
{
    assert(cache.push((id, data)).drop_last() =~= cache);
}

/// The budgets: 64 megabytes of chunks in the cache, 256 megabytes of chunks that wait, and every
/// counter goes up by what it counts until it wraps around at 64 bits.
pub proof fn law_budgets_and_counters(n: u64, k: int)
    ensures
        blind::BLIND_CACHE_BUDGET == 64 * 1024 * 1024,
        reassembler::PENDING_BUDGET == 256 * 1024 * 1024,
        0 <= k && n + k < 0x1_0000_0000_0000_0000 ==> blind::bumped(n, k) == n + k,
        0 <= k <= 0x1_0000_0000_0000_0000 && n + k >= 0x1_0000_0000_0000_0000 ==> blind::bumped(
            n,
            k,
        ) == n + k - 0x1_0000_0000_0000_0000,
{
}

/// What a single chunk does. An empty one does nothing. One beyond the mark waits, and writes nothing.
/// One that ends at the mark or before it is a duplicate. Any other is written from the mark on to its
/// end, first of all, and the mark goes on from there.
pub proof fn law_chunk_is_written_from_the_mark(s: Gathered, offset: u64, bytes: Seq<u8>)
    ensures
        ({
            let step = segment::placed(s, offset, bytes);
            let end = offset + bytes.len();
            &&& bytes.len() == 0 || (offset > s.next || end <= s.next) ==> {
                &&& step.written.len() == 0
                &&& step.state.next == s.next
                &&& step.chunks == 0
            }
            &&& bytes.len() == 0 ==> step.state == s && step.dups == 0
            &&& bytes.len() > 0 && offset > s.next ==> {
                &&& step.dups == 0
                &&& step.state.pending.dom() == s.pending.dom().insert(offset)
                &&& forall|o: u64|
                    o != offset && #[trigger] s.pending.contains_key(o) ==> step.state.pending[o]
                        == s.pending[o]
                &&& step.state.pending[offset] == if s.pending.contains_key(offset)
                    && s.pending[offset].len() > bytes.len() {
                    s.pending[offset]
                } else {
                    bytes
                }
            }
            &&& bytes.len() > 0 && end <= s.next ==> step.state == s && step.dups == 1
            &&& offset <= s.next < end ==> {
                &&& bytes.skip(s.next - offset).is_prefix_of(step.written)
                &&& step.chunks >= 1
                &&& step.state.next >= end
                &&& step.state.next == s.next + step.written.len()
            }
        }),
{
    let step = segment::placed(s, offset, bytes);
    laws::law_mark_is_the_file_size(s, offset, bytes);
    if bytes.len() > 0 && offset > s.next {
        assert(step.state.pending.dom() =~= s.pending.dom().insert(offset));
    }
    if offset <= s.next < offset + bytes.len() {
        let own = bytes.skip(s.next - offset);
        assert(own =~= step.written.subrange(0, own.len() as int));
    }
}

/// Chunks that wait are taken up by their offsets, the least first, as far as the mark has come: each
/// is written from the mark to its end, or dropped if it ends before the mark, and then the next one
/// is looked at. Where the mark has come to none of them, nothing happens.
pub proof fn law_waiting_chunks_follow_by_offset(s: Gathered, k: u64)
    requires
        s.pending.dom().finite(),
        s.pending.contains_key(k),
        forall|o: u64| #[trigger] s.pending.contains_key(o) ==> k <= o,
    ensures
        ({
            let all = segment::drained(s);
            let end = k + s.pending[k].len();
            let left = s.pending.remove(k);
            &&& k > s.next ==> {
                &&& all.state == s
                &&& all.written.len() == 0
                &&& all.chunks == 0
                &&& all.dups == 0
            }
            &&& k <= s.next && end <= s.next ==> {
                let rest = segment::drained(Gathered { next: s.next, pending: left });
                &&& all.state == rest.state
                &&& all.written == rest.written
                &&& all.chunks == rest.chunks
                &&& all.dups == rest.dups + 1
            }
            &&& k <= s.next && end > s.next ==> {
                let rest = segment::drained(Gathered { next: end as nat, pending: left });
                &&& all.state == rest.state
                &&& all.written == s.pending[k].subrange(s.next - k, s.pending[k].len() as int)
                    + rest.written
                &&& all.chunks == rest.chunks + 1
                &&& all.dups == rest.dups
            }
        }),
{
    assert(segment::is_least(s.pending.dom(), k));
    let first = segment::least(s.pending.dom());
    assert(first is Some && segment::is_least(s.pending.dom(), first->0));
    assert(s.pending.contains_key(first->0));
    assert(first == Some(k));
    if k <= s.next && k + s.pending[k].len() > s.next {
        assert(s.pending[k].skip(s.next - k) =~= s.pending[k].subrange(
            s.next - k,
            s.pending[k].len() as int,
        ));
    }
}

/// Taking up what waits accounts for every chunk.
proof fn lemma_drained_accounts(s: Gathered)
    requires
        s.pending.dom().finite(),
    ensures
        ({
            let all = segment::drained(s);
            &&& all.chunks + all.dups + all.state.pending.dom().len() == s.pending.dom().len()
            &&& all.state.pending.dom().finite()
            &&& forall|o: u64| #[trigger]
                all.state.pending.contains_key(o) ==> s.pending.contains_key(o)
                    && all.state.pending[o] == s.pending[o] && o > all.state.next
            &&& forall|o: u64|
                all.state.next < o && #[trigger] s.pending.contains_key(o)
                    ==> all.state.pending.contains_key(o)
            &&& all.state.next >= s.next
        }),
    decreases s.pending.dom().len(),
{
    let first = segment::least(s.pending.dom());
    if first is Some {
        let k = first->0;
        assert(segment::is_least(s.pending.dom(), k));
        if k <= s.next {
            let left = s.pending.remove(k);
            let next = if k + s.pending[k].len() <= s.next {
                s.next
            } else {
                (k + s.pending[k].len()) as nat
            };
            let rest = Gathered { next, pending: left };
            lemma_drained_accounts(rest);
            let after = segment::drained(rest).state;
            assert(segment::drained(s).state == after);
            assert forall|o: u64| #[trigger] after.pending.contains_key(o) implies
                s.pending.contains_key(o) && after.pending[o] == s.pending[o] && o > after.next by {
                assert(left.contains_key(o));
            }
            assert forall|o: u64| after.next < o && #[trigger] s.pending.contains_key(o) implies
                after.pending.contains_key(o) by {
                assert(left.contains_key(o));
            }
        } else {
            assert forall|o: u64| #[trigger] s.pending.contains_key(o) implies o > s.next by {
                assert(s.pending.dom().contains(o));
            }
        }
    } else {
        assert forall|o: u64| !(#[trigger] s.pending.contains_key(o)) by {
            if s.pending.contains_key(o) {
                laws::lemma_least_exists(s.pending.dom());
            }
        }
        assert(s.pending.dom() =~= Set::<u64>::empty());
    }
}

/// No chunk is lost: what arrived and is not empty was written, or counted as a duplicate, or waits.
/// A chunk that comes to wait at the offset of another takes its place or leaves it there. What waited
/// beyond the mark goes on waiting, and nothing else does.
pub proof fn law_every_chunk_is_accounted_for(s: Gathered, offset: u64, bytes: Seq<u8>)
    requires
        s.pending.dom().finite(),
        bytes.len() > 0,
    ensures
        ({
            let step = segment::placed(s, offset, bytes);
            let replaced: int = if offset > s.next && s.pending.contains_key(offset) {
                1
            } else {
                0
            };
            &&& step.chunks + step.dups + step.state.pending.dom().len() + replaced
                == s.pending.dom().len() + 1
            &&& offset <= s.next < offset + bytes.len() ==> forall|o: u64|
                (#[trigger] step.state.pending.contains_key(o) <==> s.pending.contains_key(o) && o
                    > step.state.next)
            &&& offset <= s.next < offset + bytes.len() ==> forall|o: u64| #[trigger]
                step.state.pending.contains_key(o) ==> step.state.pending[o] == s.pending[o]
        }),
{
    let step = segment::placed(s, offset, bytes);
    if offset > s.next {
        assert(step.state.pending.dom() =~= s.pending.dom().insert(offset));
    } else if offset + bytes.len() > s.next {
        lemma_drained_accounts(
            Gathered { next: (offset + bytes.len()) as nat, pending: s.pending },
        );
    }
}

/// The segment of a device and number is the one that a chunk goes to. One that was not there is
/// opened behind the others, goes on from the end of its file and has counted nothing; one that was
/// there stays as it is.
pub proof fn law_segment_is_opened_once(
    segs: Seq<SegmentView>,
    dev_id: u32,
    segment_seq: u32,
    existing_len: u64,
)
    ensures
        ({
            let open = reassembler::opened(segs, dev_id, segment_seq, existing_len);
            let at = reassembler::place_of(segs, dev_id, segment_seq);
            let known = exists|i: int|
                0 <= i < segs.len() && (#[trigger] segs[i]).dev_id == dev_id && segs[i].segment_seq
                    == segment_seq;
            &&& 0 <= at < open.len()
            &&& open[at].dev_id == dev_id
            &&& open[at].segment_seq == segment_seq
            &&& known ==> open == segs
            &&& !known ==> {
                &&& at == segs.len()
                &&& open.len() == segs.len() + 1
                &&& forall|i: int| 0 <= i < segs.len() ==> open[i] == segs[i]
                &&& open[at].state.next == existing_len
                &&& open[at].state.pending == Map::<u64, Seq<u8>>::empty()
                &&& !open[at].sealed
                &&& open[at].placed_chunks == 0
                &&& open[at].dup_dropped == 0
                &&& open[at].missing_on_seal == 0
                &&& open[at].records == 0
                &&& open[at].residual == 0
            }
        }),
{
    if reassembler::is_known(segs, dev_id, segment_seq) {
        let i = choose|i: int| reassembler::is_at(segs, i, dev_id, segment_seq);
        assert(segs[i].dev_id == dev_id && segs[i].segment_seq == segment_seq);
    } else {
        assert forall|i: int| 0 <= i < segs.len() implies !((#[trigger] segs[i]).dev_id == dev_id
            && segs[i].segment_seq == segment_seq) by {
            assert(!reassembler::is_at(segs, i, dev_id, segment_seq));
        }
    }
}

/// A segment counts each chunk that was put in place as written, waiting or duplicate, and keeps
/// everything else.
pub proof fn law_segment_counts_its_chunks(seg: SegmentView, offset: u64, bytes: Seq<u8>)
    ensures
        ({
            let step = segment::placed(seg.state, offset, bytes);
            let after = reassembler::with_chunk(seg, offset, bytes);
            &&& after.state == step.state
            &&& after.placed_chunks == (seg.placed_chunks + step.chunks)
                % 0x1_0000_0000_0000_0000
            &&& after.dup_dropped == (seg.dup_dropped + step.dups) % 0x1_0000_0000_0000_0000
            &&& after.dev_id == seg.dev_id
            &&& after.segment_seq == seg.segment_seq
            &&& after.sealed == seg.sealed
            &&& after.missing_on_seal == seg.missing_on_seal
            &&& after.records == seg.records
            &&& after.residual == seg.residual
        }),
{
}

/// A seal measures the segment against the size at its source: what is written and what is missing
/// make up that size, and nothing is missing of a segment that has it all. The records are those that
/// the file holds one behind the other, and with the bytes behind them they make up the file.
pub proof fn law_seal_measures_the_segment(
    seg: SegmentView,
    sealed_size: u64,
    file: Option<Seq<u8>>,
)
    requires
        file matches Some(bytes) ==> bytes.len() <= u64::MAX,
    ensures
        ({
            let after = reassembler::sealed_view(seg, sealed_size, file);
            &&& after.sealed
            &&& after.state == seg.state
            &&& after.placed_chunks == seg.placed_chunks
            &&& after.dup_dropped == seg.dup_dropped
            &&& after.dev_id == seg.dev_id
            &&& after.segment_seq == seg.segment_seq
            &&& seg.state.next <= sealed_size ==> seg.state.next + after.missing_on_seal
                == sealed_size
            &&& seg.state.next >= sealed_size ==> after.missing_on_seal == 0
            &&& file matches Some(bytes) ==> {
                &&& after.residual + header::stream_end(bytes, 0) == bytes.len()
                &&& after.records == header::stream_records(bytes, 0).len()
            }
            &&& file is None ==> after.records == seg.records && after.residual == seg.residual
        }),
{
    if let Some(bytes) = file {
        layout::law_stream_ends_where_no_record_stands(bytes, 0);
        lemma_record_count(bytes, 0);
    }
}

/// A file holds no more records than bytes.
proof fn lemma_record_count(buf: Seq<u8>, pos: int)
    requires
        0 <= pos <= buf.len(),
    ensures
        header::stream_records(buf, pos).len() <= buf.len() - pos,
    decreases buf.len() - pos,
{
    if header::valid_at(buf, pos) {
        lemma_record_count(buf, header::record_end(buf, pos));
    }
}

/// The report on a sealed segment says what the segment says: what was written, what is missing,
/// whether more was written than the source had, and how far the first chunk that waits lies beyond
/// the mark.
pub proof fn law_report_says_what_the_segment_says(
    seg: SegmentView,
    sealed_size: u64,
    recv_frames: u64,
)
    requires
        seg.state.next <= u64::MAX,
        seg.state.pending.dom().finite(),
        seg.state.pending.dom().len() <= u64::MAX,
        segment::waiting_bytes(seg.state.pending) <= u64::MAX,
    ensures
        ({
            let r = reassembler::report_of(seg, sealed_size, recv_frames);
            &&& r.got == seg.state.next
            &&& r.missing == seg.missing_on_seal
            &&& r.oversized <==> seg.state.next > sealed_size
            &&& r.records == seg.records
            &&& r.residual == seg.residual
            &&& r.placed_chunks == seg.placed_chunks
            &&& r.dup_dropped == seg.dup_dropped
            &&& r.recv_frames == recv_frames
            &&& r.pended_chunks == seg.state.pending.dom().len()
            &&& r.pend_bytes == segment::waiting_bytes(seg.state.pending)
            &&& seg.state.pending.dom().len() == 0 ==> r.first_pend_off == 0 && r.pend_gap == 0
            &&& forall|o: u64| #[trigger]
                seg.state.pending.contains_key(o) ==> seg.state.pending.contains_key(
                    r.first_pend_off,
                ) && r.first_pend_off <= o
            &&& r.first_pend_off >= seg.state.next ==> seg.state.next + r.pend_gap
                == r.first_pend_off
            &&& r.first_pend_off <= seg.state.next ==> r.pend_gap == 0
        }),
{
    let r = reassembler::report_of(seg, sealed_size, recv_frames);
    let dom = seg.state.pending.dom();
    assert forall|o: u64| #[trigger] seg.state.pending.contains_key(o) implies
        seg.state.pending.contains_key(r.first_pend_off) && r.first_pend_off <= o by {
        assert(dom.contains(o));
        laws::lemma_least_exists(dom);
        let first = segment::least(dom)->0;
        assert(segment::is_least(dom, first));
        assert(r.first_pend_off == first);
        assert(dom.contains(first));
    }
    if dom.len() == 0 {
        assert forall|k: u64| !segment::is_least(dom, k) by {
            if segment::is_least(dom, k) {
                assert(dom.contains(k));
            }
        }
    }
}

/// What waits within the budget is left alone. Where chunks are given up, the last of them would not
/// have fitted beside those that go on waiting, and none of those lies before one that was given up;
/// of two at one offset the one in the segment that was opened first goes first.
pub proof fn law_no_waiting_chunk_is_given_up_needlessly(segs: Seq<SegmentView>, budget: nat)
    requires
        reassembler::all_finite(segs),
    ensures
        ({
            let after = reassembler::enforced(segs, budget);
            &&& after.len() == segs.len()
            &&& reassembler::total_waiting(segs) <= budget ==> after == segs
            &&& reassembler::total_waiting(segs) > budget ==> exists|i: int, o: u64|
                0 <= i < segs.len() && #[trigger] segs[i].state.pending.contains_key(o)
                    && !after[i].state.pending.contains_key(o) && reassembler::total_waiting(after)
                    + segs[i].state.pending[o].len() > budget
            &&& forall|i: int, o: u64, j: int, p: u64|
                0 <= i < segs.len() && 0 <= j < segs.len()
                    && #[trigger] segs[i].state.pending.contains_key(o)
                    && !after[i].state.pending.contains_key(o)
                    && #[trigger] after[j].state.pending.contains_key(p) ==> o < p || (o == p && i < j)
        }),
    decreases reassembler::waiting_chunks(segs),
{
    let after = reassembler::enforced(segs, budget);
    laws::law_only_waiting_chunks_are_given_up(segs, budget);
    if reassembler::total_waiting(segs) > budget {
        laws::lemma_waiting_has_victim(segs);
        let v = choose|v: int| reassembler::is_victim(segs, v);
        reassembler::lemma_given_up(segs, v);
        let k = reassembler::first_waiting(segs, v)->0;
        assert(segment::is_least(segs[v].state.pending.dom(), k));
        let less = reassembler::given_up(segs, v);
        law_no_waiting_chunk_is_given_up_needlessly(less, budget);
        laws::law_only_waiting_chunks_are_given_up(less, budget);
        assert(after == reassembler::enforced(less, budget));
        assert(segs[v].state.pending.contains_key(k));
        assert(!less[v].state.pending.contains_key(k));
        assert(laws::gave_up(less[v], after[v]));
        assert(!after[v].state.pending.contains_key(k));
        if reassembler::total_waiting(less) > budget {
            let (i, o) = choose|i: int, o: u64|
                0 <= i < less.len() && #[trigger] less[i].state.pending.contains_key(o)
                    && !after[i].state.pending.contains_key(o) && reassembler::total_waiting(after)
                    + less[i].state.pending[o].len() > budget;
            assert(segs[i].state.pending.contains_key(o));
        }
        assert forall|i: int, o: u64, j: int, p: u64|
            0 <= i < segs.len() && 0 <= j < segs.len()
                && #[trigger] segs[i].state.pending.contains_key(o)
                && !after[i].state.pending.contains_key(o)
                && #[trigger] after[j].state.pending.contains_key(p) implies o < p || (o == p && i
            < j) by {
            assert(laws::gave_up(less[j], after[j]));
            assert(less[j].state.pending.contains_key(p));
            if less[i].state.pending.contains_key(o) {
            } else {
                assert(i == v && o == k);
                assert(segs[j].state.pending.contains_key(p));
                assert(segs[j].state.pending.dom().contains(p));
                laws::lemma_least_exists(segs[j].state.pending.dom());
                let q = reassembler::first_waiting(segs, j)->0;
                assert(segment::is_least(segs[j].state.pending.dom(), q));
                assert(reassembler::first_waiting(segs, j) is Some);
            }
        }
    }
}

/// The waiting bytes of all segments are the sum of those of each, and those of a segment the sum of
/// the lengths of its chunks.
pub proof fn law_waiting_counts_every_chunk(
    segs: Seq<SegmentView>,
    seg: SegmentView,
    pending: Map<u64, Seq<u8>>,
    o: u64,
    bytes: Seq<u8>,
)
    requires
        pending.dom().finite(),
        !pending.contains_key(o),
    ensures
        segment::waiting_bytes(Map::<u64, Seq<u8>>::empty()) == 0,
        segment::waiting_bytes(pending.insert(o, bytes)) == segment::waiting_bytes(pending)
            + bytes.len(),
        reassembler::total_waiting(Seq::<SegmentView>::empty()) == 0,
        reassembler::total_waiting(segs.push(seg)) == reassembler::total_waiting(segs)
            + segment::waiting_bytes(seg.state.pending),
        reassembler::waiting_chunks(segs.push(seg)) == reassembler::waiting_chunks(segs)
            + seg.state.pending.dom().len(),
{
    segment::lemma_waiting_remove(pending.insert(o, bytes), o);
    assert(pending.insert(o, bytes).remove(o) =~= pending);
    assert(segs.push(seg).drop_last() =~= segs);
}

/// Every counter of the receiving end stands in its text, behind its name, in full.
#[verifier::rlimit(100)]
#[verifier::spinoff_prover]
pub proof fn law_text_says_every_counter(r: Reassembler)
    ensures
        ({
            let whole = r.stats_text();
            &&& text_laws::says(whole, "chunks="@, r.total_chunks as nat, ' ')
            &&& text_laws::says(whole, " refs="@, r.total_refs as nat, ' ')
            &&& text_laws::says(whole, " bytes="@, r.total_bytes as nat, ' ')
            &&& text_laws::says(whole, " unframed="@, r.unframed_dropped as nat, ' ')
            &&& text_laws::says(whole, " cache_miss="@, r.cache_miss as nat, ' ')
            &&& text_laws::says(whole, " gaps="@, r.gaps as nat, ' ')
            &&& text_laws::says(whole, " sealed="@, r.sealed_segments as nat, ' ')
            &&& text_laws::says(whole, " active_segments="@, r.segments@.len(), ' ')
            &&& text_laws::says(whole, " cache_bytes="@, r.cache.bytes as nat, ' ')
            &&& text_laws::says(whole, " evicted="@, r.cache.evicted as nat, ' ')
            &&& text_laws::says(whole, " pend_bytes="@, reassembler::total_waiting(reassembler::views(r.segments@)), ' ')
            &&& text_laws::says(whole, " pend_dropped="@, r.pend_dropped as nat, ' ')
        }),
{
    let whole = r.stats_text();
    let x0 = "chunks="@ + text::decimal(r.total_chunks as nat);
    let x1 = x0 + " refs="@ + text::decimal(r.total_refs as nat);
    let x2 = x1 + " bytes="@ + text::decimal(r.total_bytes as nat);
    let x3 = x2 + " unframed="@ + text::decimal(r.unframed_dropped as nat);
    let x4 = x3 + " cache_miss="@ + text::decimal(r.cache_miss as nat);
    let x5 = x4 + " gaps="@ + text::decimal(r.gaps as nat);
    let x6 = x5 + " sealed="@ + text::decimal(r.sealed_segments as nat);
    let x7 = x6 + " active_segments="@ + text::decimal(r.segments@.len());
    let x8 = x7 + " cache_bytes="@ + text::decimal(r.cache.bytes as nat);
    let x9 = x8 + " evicted="@ + text::decimal(r.cache.evicted as nat);
    let x10 = x9 + " pend_bytes="@ + text::decimal(reassembler::total_waiting(reassembler::views(r.segments@)));
    let x11 = x10 + " pend_dropped="@ + text::decimal(r.pend_dropped as nat);
    assert(whole == x11);
    assert(x11 =~= whole.subrange(0, whole.len() as int));
    assert(text_laws::stands(whole, x11, ' '));
    reveal_strlit(" pend_dropped=");
    text_laws::lemma_goes_on(whole, x10, " pend_dropped="@, r.pend_dropped as nat, ' ');
    reveal_strlit(" pend_bytes=");
    text_laws::lemma_goes_on(whole, x9, " pend_bytes="@, reassembler::total_waiting(reassembler::views(r.segments@)), ' ');
    reveal_strlit(" evicted=");
    text_laws::lemma_goes_on(whole, x8, " evicted="@, r.cache.evicted as nat, ' ');
    reveal_strlit(" cache_bytes=");
    text_laws::lemma_goes_on(whole, x7, " cache_bytes="@, r.cache.bytes as nat, ' ');
    reveal_strlit(" active_segments=");
    text_laws::lemma_goes_on(whole, x6, " active_segments="@, r.segments@.len(), ' ');
    reveal_strlit(" sealed=");
    text_laws::lemma_goes_on(whole, x5, " sealed="@, r.sealed_segments as nat, ' ');
    reveal_strlit(" gaps=");
    text_laws::lemma_goes_on(whole, x4, " gaps="@, r.gaps as nat, ' ');
    reveal_strlit(" cache_miss=");
    text_laws::lemma_goes_on(whole, x3, " cache_miss="@, r.cache_miss as nat, ' ');
    reveal_strlit(" unframed=");
    text_laws::lemma_goes_on(whole, x2, " unframed="@, r.unframed_dropped as nat, ' ');
    reveal_strlit(" bytes=");
    text_laws::lemma_goes_on(whole, x1, " bytes="@, r.total_bytes as nat, ' ');
    reveal_strlit(" refs=");
    text_laws::lemma_goes_on(whole, x0, " refs="@, r.total_refs as nat, ' ');
    assert(Seq::<char>::empty() + "chunks="@ + text::decimal(r.total_chunks as nat) =~= x0);
    assert(text_laws::stands(whole, Seq::<char>::empty() + "chunks="@ + text::decimal(r.total_chunks as nat), ' '));
    assert(text_laws::stands(whole, x0 + " refs="@ + text::decimal(r.total_refs as nat), ' '));
    assert(text_laws::stands(whole, x1 + " bytes="@ + text::decimal(r.total_bytes as nat), ' '));
    assert(text_laws::stands(whole, x2 + " unframed="@ + text::decimal(r.unframed_dropped as nat), ' '));
    assert(text_laws::stands(whole, x3 + " cache_miss="@ + text::decimal(r.cache_miss as nat), ' '));
    assert(text_laws::stands(whole, x4 + " gaps="@ + text::decimal(r.gaps as nat), ' '));
    assert(text_laws::stands(whole, x5 + " sealed="@ + text::decimal(r.sealed_segments as nat), ' '));
    assert(text_laws::stands(whole, x6 + " active_segments="@ + text::decimal(r.segments@.len()), ' '));
    assert(text_laws::stands(whole, x7 + " cache_bytes="@ + text::decimal(r.cache.bytes as nat), ' '));
    assert(text_laws::stands(whole, x8 + " evicted="@ + text::decimal(r.cache.evicted as nat), ' '));
    assert(text_laws::stands(whole, x9 + " pend_bytes="@ + text::decimal(reassembler::total_waiting(reassembler::views(r.segments@))), ' '));
    assert(text_laws::stands(whole, x10 + " pend_dropped="@ + text::decimal(r.pend_dropped as nat), ' '));
}

/// There is room for a chunk exactly if what was written to its segment, what waits there and the chunk
/// together have no more bytes than 64 bits can count; of a segment that was not there, what its file
/// holds counts as written.
pub proof fn law_room_is_what_can_be_counted(
    segs: Seq<SegmentView>,
    i: int,
    dev_id: u32,
    segment_seq: u32,
    existing_len: u64,
    len: nat,
)
    requires
        reassembler::all_distinct(segs),
    ensures
        reassembler::is_at(segs, i, dev_id, segment_seq) ==> (reassembler::has_room_for(
            segs,
            dev_id,
            segment_seq,
            existing_len,
            len,
        ) <==> segs[i].state.next + segment::waiting_bytes(segs[i].state.pending) + len
            <= 0xffff_ffff_ffff_ffff),
        (forall|j: int|
            0 <= j < segs.len() ==> (#[trigger] segs[j]).dev_id != dev_id || segs[j].segment_seq
                != segment_seq) ==> (reassembler::has_room_for(
            segs,
            dev_id,
            segment_seq,
            existing_len,
            len,
        ) <==> existing_len + len <= 0xffff_ffff_ffff_ffff),
{
    law_segment_is_opened_once(segs, dev_id, segment_seq, existing_len);
    law_waiting_counts_every_chunk(segs, segs[0], Map::empty(), 0, Seq::empty());
    if reassembler::is_at(segs, i, dev_id, segment_seq) {
        let at = reassembler::place_of(segs, dev_id, segment_seq);
        assert(reassembler::is_known(segs, dev_id, segment_seq));
        assert(reassembler::is_at(segs, at, dev_id, segment_seq));
        assert(i == at);
    }
}

/// The messages of a segment are counted apart from those of any other: a segment of which none came
/// has counted none, and one more message counts once and changes no other count.
pub proof fn law_messages_are_counted_by_segment(
    counts: Map<u64, u64>,
    dev_a: u32,
    seq_a: u32,
    dev_b: u32,
    seq_b: u32,
    n: u64,
)
    requires
        dev_a != dev_b || seq_a != seq_b,
    ensures
        ({
            let a = reassembler::segment_key(dev_a, seq_a);
            let b = reassembler::segment_key(dev_b, seq_b);
            &&& reassembler::counted(Map::empty(), a) == 0
            &&& reassembler::counted(counts.insert(a, n), a) == n
            &&& reassembler::counted(counts.insert(a, n), b) == reassembler::counted(counts, b)
        }),
{
}

/// The first device has the plain names of segments; the file of any other device names the device
/// before the segment.
pub proof fn law_file_names_its_device(dev_id: u32, segment_seq: u32)
    ensures
        segment::segment_file_name(1, segment_seq) == rotate::segment_name(segment_seq as u64),
        dev_id != 1 ==> segment::segment_file_name(dev_id, segment_seq) == "dev"@ + text::decimal(
            dev_id as nat,
        ) + "_"@ + rotate::segment_name(segment_seq as u64),
{
}

} // verus!
