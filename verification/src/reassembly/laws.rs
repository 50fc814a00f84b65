//! What holds of segments however their chunks arrive, and of the receiving end as a whole.
use crate::reassembly::blind;
use crate::reassembly::reassembler::{self, SegmentView};
use crate::reassembly::segment::{self, Gathered, Stepped};
use crate::text;
use crate::wal::header::{self, RecordView};
use crate::wal::{laws, rotate};
use vstd::prelude::*;

verus! {

/// A chunk of a source, from one offset up to another. Chunks may overlap.
pub open spec fn is_piece(source: Seq<u8>, c: (int, int)) -> bool {
    0 <= c.0 <= c.1 <= source.len()
}

/// The bytes of a chunk.
pub open spec fn piece(source: Seq<u8>, c: (int, int)) -> Seq<u8> {
    source.subrange(c.0, c.1)
}

/// Every arrival is a chunk of the source, which is no larger than offsets can tell.
pub open spec fn are_pieces(source: Seq<u8>, arrivals: Seq<(int, int)>) -> bool {
    &&& source.len() <= u64::MAX
    &&& forall|c: (int, int)| #[trigger] arrivals.contains(c) ==> is_piece(source, c)
}

/// What is there after the arrivals, and what they wrote, if the file held the first `start` bytes.
pub open spec fn arrived(source: Seq<u8>, start: nat, arrivals: Seq<(int, int)>) -> Stepped
    decreases arrivals.len(),
{
    if arrivals.len() == 0 {
        Stepped {
            state: Gathered { next: start, pending: Map::empty() },
            written: Seq::empty(),
            chunks: 0,
            dups: 0,
        }
    } else {
        let before = arrived(source, start, arrivals.drop_last());
        let c = arrivals.last();
        let step = segment::placed(before.state, c.0 as u64, piece(source, c));
        Stepped {
            state: step.state,
            written: before.written + step.written,
            chunks: before.chunks + step.chunks,
            dups: before.dups + step.dups,
        }
    }
}

/// The byte at `p` is in one of the chunks.
pub open spec fn is_covered(arrivals: Seq<(int, int)>, p: int) -> bool {
    exists|c: (int, int)| #[trigger] arrivals.contains(c) && c.0 <= p < c.1
}

/// Every waiting chunk is one that has arrived, and not empty.
pub open spec fn have_arrived(
    source: Seq<u8>,
    arrivals: Seq<(int, int)>,
    pending: Map<u64, Seq<u8>>,
) -> bool {
    forall|o: u64| #[trigger]
        pending.contains_key(o) ==> {
            let c = (o as int, o + pending[o].len());
            &&& pending[o].len() > 0
            &&& arrivals.contains(c)
            &&& pending[o] == piece(source, c)
        }
}

/// The chunks that wait are those that have arrived beyond the mark; of two at one offset, the
/// longer one.
pub open spec fn is_waiting(
    source: Seq<u8>,
    arrivals: Seq<(int, int)>,
    mark: nat,
    pending: Map<u64, Seq<u8>>,
) -> bool {
    &&& have_arrived(source, arrivals, pending)
    &&& forall|o: u64| #[trigger] pending.contains_key(o) ==> o > mark
    &&& forall|c: (int, int)|
        mark < c.0 < c.1 && #[trigger] arrivals.contains(c) ==> {
            &&& pending.contains_key(c.0 as u64)
            &&& pending[c.0 as u64].len() >= c.1 - c.0
        }
}

/// Every chunk that has arrived lies before the mark, or it waits, or a longer one does; and what
/// lies before the mark has arrived.
spec fn is_accounted(
    source: Seq<u8>,
    start: nat,
    arrivals: Seq<(int, int)>,
    mark: nat,
    pending: Map<u64, Seq<u8>>,
) -> bool {
    &&& start <= mark <= source.len()
    &&& pending.dom().finite()
    &&& have_arrived(source, arrivals, pending)
    &&& forall|p: int| start <= p < mark ==> #[trigger] is_covered(arrivals, p)
    &&& forall|c: (int, int)|
        c.0 < c.1 && #[trigger] arrivals.contains(c) ==> c.1 <= mark || {
            &&& pending.contains_key(c.0 as u64)
            &&& pending[c.0 as u64].len() >= c.1 - c.0
        }
}

/// Taking up what waits for the mark writes the source, and leaves only what lies beyond a gap.
proof fn lemma_drained(
    source: Seq<u8>,
    start: nat,
    arrivals: Seq<(int, int)>,
    mark: nat,
    pending: Map<u64, Seq<u8>>,
)
    requires
        are_pieces(source, arrivals),
        is_accounted(source, start, arrivals, mark, pending),
    ensures
        ({
            let step = segment::drained(Gathered { next: mark, pending });
            &&& mark <= step.state.next
            &&& step.written == source.subrange(mark as int, step.state.next as int)
            &&& is_accounted(source, start, arrivals, step.state.next, step.state.pending)
            &&& forall|o: u64| #[trigger]
                step.state.pending.contains_key(o) ==> o > step.state.next
        }),
    decreases pending.dom().len(),
{
    let first = segment::least(pending.dom());
    if first is Some && first->0 <= mark {
        let k = first->0;
        assert(segment::is_least(pending.dom(), k));
        assert(pending.contains_key(k));
        let bytes = pending[k];
        let c = (k as int, k + bytes.len());
        let left = pending.remove(k);
        assert(arrivals.contains(c));
        assert(left.dom() =~= pending.dom().remove(k));
        assert(have_arrived(source, arrivals, left)) by {
            assert forall|o: u64| #[trigger] left.contains_key(o) implies {
                let c = (o as int, o + left[o].len());
                &&& left[o].len() > 0
                &&& arrivals.contains(c)
                &&& left[o] == piece(source, c)
            } by {
                assert(pending.contains_key(o));
            }
        }
        let next: nat = if k + bytes.len() <= mark {
            mark
        } else {
            (k + bytes.len()) as nat
        };
        assert forall|p: int| start <= p < next implies #[trigger] is_covered(arrivals, p) by {
            if p >= mark {
                assert(arrivals.contains(c) && c.0 <= p < c.1);
            }
        }
        lemma_drained(source, start, arrivals, next, left);
        let step = segment::drained(Gathered { next: mark, pending });
        if next > mark {
            assert(bytes.skip(mark - k) =~= source.subrange(mark as int, next as int));
            assert(step.written =~= source.subrange(mark as int, step.state.next as int));
        }
    } else {
        assert(segment::drained(Gathered { next: mark, pending }).state.pending == pending);
        assert(source.subrange(mark as int, mark as int) =~= Seq::<u8>::empty());
        assert forall|o: u64| #[trigger] pending.contains_key(o) implies o > mark by {
            assert(pending.dom().contains(o));
            lemma_least_exists(pending.dom());
        }
    }
}

/// However the chunks of a segment arrive, in order or not, once or more often, one over the other
/// or not: what has been written is the source up to the first byte that has not arrived, and the
/// chunks beyond it that have arrived wait.
pub proof fn law_written_is_the_source(
    source: Seq<u8>,
    start: nat,
    arrivals: Seq<(int, int)>,
)
    requires
        are_pieces(source, arrivals),
        start <= source.len(),
    ensures
        ({
            let got = arrived(source, start, arrivals);
            let mark = got.state.next;
            &&& start <= mark <= source.len()
            &&& got.written == source.subrange(start as int, mark as int)
            &&& forall|p: int| start <= p < mark ==> #[trigger] is_covered(arrivals, p)
            &&& !is_covered(arrivals, mark as int)
            &&& is_waiting(source, arrivals, mark, got.state.pending)
        }),
{
    lemma_arrived(source, start, arrivals);
    let got = arrived(source, start, arrivals);
    let mark = got.state.next;
    let pending = got.state.pending;
    if is_covered(arrivals, mark as int) {
        let c = choose|c: (int, int)| #[trigger] arrivals.contains(c) && c.0 <= mark < c.1;
        assert(is_piece(source, c));
        assert(pending.contains_key(c.0 as u64));
    }
}

/// What is there after the arrivals accounts for all of them.
proof fn lemma_arrived(source: Seq<u8>, start: nat, arrivals: Seq<(int, int)>)
    requires
        are_pieces(source, arrivals),
        start <= source.len(),
    ensures
        ({
            let got = arrived(source, start, arrivals);
            &&& is_accounted(source, start, arrivals, got.state.next, got.state.pending)
            &&& got.written == source.subrange(start as int, got.state.next as int)
            &&& forall|o: u64| #[trigger] got.state.pending.contains_key(o) ==> o > got.state.next
        }),
    decreases arrivals.len(),
{
    let got = arrived(source, start, arrivals);
    if arrivals.len() == 0 {
        assert(source.subrange(start as int, start as int) =~= Seq::<u8>::empty());
    } else {
        let earlier = arrivals.drop_last();
        let c = arrivals.last();
        assert forall|d: (int, int)| arrivals.contains(d) <==> (earlier.contains(d) || d == c) by {
            lemma_contains_push(earlier, c, d);
            assert(earlier.push(c) =~= arrivals);
        }
        assert(arrivals.contains(c));
        assert(is_piece(source, c));
        assert(are_pieces(source, earlier)) by {
            assert forall|d: (int, int)| #[trigger] earlier.contains(d) implies is_piece(
                source,
                d,
            ) by {
                assert(arrivals.contains(d));
            }
        }
        lemma_arrived(source, start, earlier);
        let before = arrived(source, start, earlier);
        let n = before.state.next;
        let pending = before.state.pending;
        let bytes = piece(source, c);
        assert forall|p: int| start <= p < n implies #[trigger] is_covered(arrivals, p) by {
            assert(is_covered(earlier, p));
            let d = choose|d: (int, int)| #[trigger] earlier.contains(d) && d.0 <= p < d.1;
            assert(arrivals.contains(d) && d.0 <= p < d.1);
        }
        assert(have_arrived(source, arrivals, pending));
        let step = segment::placed(before.state, c.0 as u64, bytes);
        if bytes.len() > 0 && c.0 > n {
            let now = segment::with_waiting(pending, c.0 as u64, bytes);
            assert(have_arrived(source, arrivals, now));
            assert(now.dom().finite());
            assert(before.written + Seq::<u8>::empty() =~= before.written);
        } else if bytes.len() == 0 || c.1 <= n {
            assert(before.written + Seq::<u8>::empty() =~= before.written);
        } else {
            let next = c.1 as nat;
            assert forall|p: int| start <= p < next implies #[trigger] is_covered(arrivals, p) by {
                if p >= n {
                    assert(arrivals.contains(c) && c.0 <= p < c.1);
                }
            }
            assert(is_accounted(source, start, arrivals, next, pending));
            lemma_drained(source, start, arrivals, next, pending);
            assert(bytes.skip(n - c.0) =~= source.subrange(n as int, next as int));
            assert(got.written =~= source.subrange(start as int, got.state.next as int));
        }
    }
}

/// What a longer sequence contains.
proof fn lemma_contains_push(s: Seq<(int, int)>, c: (int, int), d: (int, int))
    ensures
        s.push(c).contains(d) <==> (s.contains(d) || d == c),
{
    let t = s.push(c);
    if s.contains(d) {
        let i = choose|i: int| 0 <= i < s.len() && s[i] == d;
        assert(t[i] == d);
    }
    if d == c {
        assert(t[s.len() as int] == d);
    }
    if t.contains(d) {
        let i = choose|i: int| 0 <= i < t.len() && t[i] == d;
        if i < s.len() {
            assert(s[i] == d);
        }
    }
}

/// Once every byte has arrived in some chunk, in whatever order, the file is the source and nothing
/// waits.
pub proof fn law_segment_becomes_whole(
    source: Seq<u8>,
    start: nat,
    arrivals: Seq<(int, int)>,
)
    requires
        are_pieces(source, arrivals),
        start <= source.len(),
        forall|p: int| start <= p < source.len() ==> #[trigger] is_covered(arrivals, p),
    ensures
        ({
            let got = arrived(source, start, arrivals);
            &&& source.take(start as int) + got.written == source
            &&& got.state.next == source.len()
            &&& got.state.pending == Map::<u64, Seq<u8>>::empty()
        }),
{
    law_written_is_the_source(source, start, arrivals);
    let got = arrived(source, start, arrivals);
    if got.state.next < source.len() {
        assert(is_covered(arrivals, got.state.next as int));
    }
    assert(source.take(start as int) + got.written =~= source);
    assert(got.state.pending =~= Map::<u64, Seq<u8>>::empty()) by {
        assert forall|o: u64| !(#[trigger] got.state.pending.contains_key(o)) by {
            if got.state.pending.contains_key(o) {
                let c = (o as int, o + got.state.pending[o].len());
                assert(arrivals.contains(c));
                assert(is_piece(source, c));
            }
        }
    }
}

/// The order in which chunks arrive, and how often, makes no difference to what is there: chunks
/// that agree with one source, overlapping or not, leave the same file and the same chunks waiting.
pub proof fn law_arrival_order_does_not_matter(
    source: Seq<u8>,
    start: nat,
    a: Seq<(int, int)>,
    b: Seq<(int, int)>,
)
    requires
        are_pieces(source, a),
        are_pieces(source, b),
        start <= source.len(),
        forall|c: (int, int)| a.contains(c) <==> b.contains(c),
    ensures
        arrived(source, start, a).written == arrived(source, start, b).written,
        arrived(source, start, a).state == arrived(source, start, b).state,
{
    law_written_is_the_source(source, start, a);
    law_written_is_the_source(source, start, b);
    let m = arrived(source, start, a).state.next;
    let n = arrived(source, start, b).state.next;
    let p = arrived(source, start, a).state.pending;
    let q = arrived(source, start, b).state.pending;
    lemma_same_mark(a, b, start, m, n);
    lemma_same_mark(b, a, start, n, m);
    assert forall|o: u64| #[trigger] p.contains_key(o) implies q.contains_key(o) by {
        assert(b.contains((o as int, o + p[o].len())));
    }
    assert forall|o: u64| #[trigger] q.contains_key(o) implies p.contains_key(o) && p[o]
        == q[o] by {
        assert(a.contains((o as int, o + q[o].len())));
        assert(p.contains_key(o));
        assert(b.contains((o as int, o + p[o].len())));
    }
    assert(p =~= q);
}

/// A mark up to which every byte has arrived is not beyond one at which none has.
proof fn lemma_same_mark(a: Seq<(int, int)>, b: Seq<(int, int)>, start: nat, m: nat, n: nat)
    requires
        start <= n,
        forall|p: int| start <= p < m ==> #[trigger] is_covered(a, p),
        !is_covered(b, n as int),
        forall|c: (int, int)| a.contains(c) <==> b.contains(c),
    ensures
        m <= n,
{
    if n < m {
        assert(is_covered(a, n as int));
        let c = choose|c: (int, int)| #[trigger] a.contains(c) && c.0 <= n < c.1;
        assert(b.contains(c) && c.0 <= n < c.1);
    }
}

/// The water mark moves by what is written.
proof fn lemma_drained_mark(s: Gathered)
    ensures
        segment::drained(s).state.next == s.next + segment::drained(s).written.len(),
    decreases s.pending.dom().len(),
{
    let first = segment::least(s.pending.dom());
    if s.pending.dom().finite() && first is Some && first->0 <= s.next {
        let k = first->0;
        assert(segment::is_least(s.pending.dom(), k));
        let bytes = s.pending[k];
        let left = s.pending.remove(k);
        if k + bytes.len() <= s.next {
            lemma_drained_mark(Gathered { next: s.next, pending: left });
        } else {
            lemma_drained_mark(Gathered { next: (k + bytes.len()) as nat, pending: left });
        }
    }
}

/// The water mark is the size of the file: it moves by what is written, with every chunk.
pub proof fn law_mark_is_the_file_size(s: Gathered, offset: u64, bytes: Seq<u8>)
    ensures
        segment::placed(s, offset, bytes).state.next == s.next + segment::placed(
            s,
            offset,
            bytes,
        ).written.len(),
{
    lemma_drained_mark(Gathered { next: (offset + bytes.len()) as nat, pending: s.pending });
}

/// A chunk that arrives a second time changes nothing.
pub proof fn law_duplicate_changes_nothing(s: Gathered, offset: u64, bytes: Seq<u8>)
    ensures
        ({
            let once = segment::placed(s, offset, bytes);
            let twice = segment::placed(once.state, offset, bytes);
            &&& twice.state == once.state
            &&& twice.written == Seq::<u8>::empty()
        }),
{
    law_mark_is_the_file_size(s, offset, bytes);
    let once = segment::placed(s, offset, bytes);
    lemma_drained_mark(Gathered { next: (offset + bytes.len()) as nat, pending: s.pending });
    if bytes.len() > 0 && offset > s.next {
        assert(once.state.pending =~= segment::with_waiting(once.state.pending, offset, bytes));
    }
}

/// A log that arrives in chunks, in any order, is read back record by record, with nothing left
/// over, and its seal finds nothing missing.
pub proof fn law_shipped_log_reads_back(
    rs: Seq<RecordView>,
    arrivals: Seq<(int, int)>,
    seg: SegmentView,
)
    requires
        forall|i: int| 0 <= i < rs.len() ==> laws::storable(#[trigger] rs[i]),
        are_pieces(laws::log_bytes(rs), arrivals),
        forall|p: int| 0 <= p < laws::log_bytes(rs).len() ==> #[trigger] is_covered(arrivals, p),
        seg.state == arrived(laws::log_bytes(rs), 0, arrivals).state,
    ensures
        ({
            let log = laws::log_bytes(rs);
            let file = arrived(log, 0, arrivals).written;
            let sealed = reassembler::sealed_view(seg, log.len() as u64, Some(file));
            &&& file == log
            &&& header::stream_records(file, 0) == rs.map_values(
                |r: RecordView| laws::recorded(r),
            )
            &&& sealed.missing_on_seal == 0
            &&& sealed.records == rs.len() as u64
            &&& sealed.residual == 0
        }),
{
    let log = laws::log_bytes(rs);
    law_segment_becomes_whole(log, 0, arrivals);
    let file = arrived(log, 0, arrivals).written;
    assert(log.take(0) + file =~= file);
    laws::law_log_reads_back(rs, Seq::empty());
    assert(log + Seq::<u8>::empty() =~= log);
}

/// Finitely many numbers, if any, have a least one.
pub proof fn lemma_least_exists(numbers: Set<u64>)
    requires
        numbers.finite(),
        numbers.len() > 0,
    ensures
        segment::least(numbers) is Some,
        segment::is_least(numbers, segment::least(numbers)->0),
    decreases numbers.len(),
{
    let c = numbers.choose();
    assert(numbers.contains(c));
    let rest = numbers.remove(c);
    if rest.len() == 0 {
        assert forall|o: u64| #[trigger] numbers.contains(o) implies c <= o by {
            if o != c {
                assert(rest.contains(o));
            }
        }
        assert(segment::is_least(numbers, c));
    } else {
        lemma_least_exists(rest);
        let m = segment::least(rest)->0;
        let k = if m < c {
            m
        } else {
            c
        };
        assert forall|o: u64| #[trigger] numbers.contains(o) implies k <= o by {
            if o != c {
                assert(rest.contains(o));
            }
        }
        assert(segment::is_least(numbers, k));
    }
}

/// Among the first `n` segments, the `i`th has the first chunk to give up.
spec fn is_first_of(segs: Seq<SegmentView>, i: int, n: int) -> bool {
    &&& 0 <= i < n
    &&& reassembler::first_waiting(segs, i) is Some
    &&& forall|j: int|
        0 <= j < n && #[trigger] reassembler::first_waiting(segs, j) is Some
            ==> reassembler::first_waiting(segs, i)->0 < reassembler::first_waiting(segs, j)->0 || (
        reassembler::first_waiting(segs, i)->0 == reassembler::first_waiting(segs, j)->0 && i <= j)
}

/// If a chunk waits in one of the first `n` segments, one of them has the first to give up.
proof fn lemma_first_exists(segs: Seq<SegmentView>, at: int, n: int) -> (i: int)
    requires
        0 <= at < n <= segs.len(),
        reassembler::first_waiting(segs, at) is Some,
    ensures
        is_first_of(segs, i, n),
    decreases n,
{
    let last = n - 1;
    if exists|j: int| 0 <= j < last && #[trigger] reassembler::first_waiting(segs, j) is Some {
        let j = choose|j: int|
            0 <= j < last && #[trigger] reassembler::first_waiting(segs, j) is Some;
        let i = lemma_first_exists(segs, j, last);
        let f = reassembler::first_waiting(segs, last);
        if f is Some && f->0 < reassembler::first_waiting(segs, i)->0 {
            last
        } else {
            i
        }
    } else {
        last
    }
}

/// If any byte waits, one of the segments is the next to give a chunk up.
pub proof fn lemma_waiting_has_victim(segs: Seq<SegmentView>)
    requires
        reassembler::all_finite(segs),
        reassembler::total_waiting(segs) > 0,
    ensures
        exists|i: int| reassembler::is_victim(segs, i),
{
    lemma_some_waits(segs);
    let j = choose|j: int|
        0 <= j < segs.len() && (#[trigger] segs[j]).state.pending.dom().len() > 0;
    lemma_least_exists(segs[j].state.pending.dom());
    let i = lemma_first_exists(segs, j, segs.len() as int);
    assert(reassembler::is_victim(segs, i));
}

/// If any byte waits, a chunk waits in some segment.
proof fn lemma_some_waits(segs: Seq<SegmentView>)
    requires
        reassembler::total_waiting(segs) > 0,
    ensures
        exists|j: int| 0 <= j < segs.len() && (#[trigger] segs[j]).state.pending.dom().len() > 0,
    decreases segs.len(),
{
    let last = segs.len() - 1;
    if segment::waiting_bytes(segs.last().state.pending) > 0 {
        assert(segs[last].state.pending.dom().len() > 0);
    } else {
        lemma_some_waits(segs.drop_last());
        let j = choose|j: int|
            0 <= j < segs.drop_last().len() && (
            #[trigger] segs.drop_last()[j]).state.pending.dom().len() > 0;
        assert(segs[j].state.pending.dom().len() > 0);
    }
}

/// Whatever arrives, the bytes that wait stay within the budget.
pub proof fn law_waiting_is_bounded(segs: Seq<SegmentView>, budget: nat)
    requires
        reassembler::all_finite(segs),
    ensures
        reassembler::total_waiting(reassembler::enforced(segs, budget)) <= budget,
    decreases reassembler::waiting_chunks(segs),
{
    if reassembler::total_waiting(segs) > budget {
        lemma_waiting_has_victim(segs);
        let i = choose|i: int| reassembler::is_victim(segs, i);
        reassembler::lemma_given_up(segs, i);
        law_waiting_is_bounded(reassembler::given_up(segs, i), budget);
    }
}

/// Two segments are alike but for waiting chunks that the second has given up.
pub open spec fn gave_up(a: SegmentView, b: SegmentView) -> bool {
    &&& b == (SegmentView { state: b.state, ..a })
    &&& b.state.next == a.state.next
    &&& forall|o: u64| #[trigger]
        b.state.pending.contains_key(o) ==> a.state.pending.contains_key(o)
            && b.state.pending[o] == a.state.pending[o]
}

/// Keeping the budget takes nothing but waiting chunks: what has been written stays, and so do the
/// counters.
pub proof fn law_only_waiting_chunks_are_given_up(segs: Seq<SegmentView>, budget: nat)
    ensures
        reassembler::enforced(segs, budget).len() == segs.len(),
        forall|j: int|
            0 <= j < segs.len() ==> gave_up(
                segs[j],
                #[trigger] reassembler::enforced(segs, budget)[j],
            ),
    decreases reassembler::waiting_chunks(segs),
{
    if reassembler::all_finite(segs) && reassembler::total_waiting(segs) > budget && (exists|
        i: int,
    |
        reassembler::is_victim(segs, i)) {
        let i = choose|i: int| reassembler::is_victim(segs, i);
        reassembler::lemma_given_up(segs, i);
        let less = reassembler::given_up(segs, i);
        law_only_waiting_chunks_are_given_up(less, budget);
        assert forall|j: int| 0 <= j < segs.len() implies gave_up(
            segs[j],
            #[trigger] reassembler::enforced(segs, budget)[j],
        ) by {
            assert(gave_up(less[j], reassembler::enforced(less, budget)[j]));
            assert(gave_up(segs[j], less[j]));
        }
    }
}

/// A chunk changes no segment but its own, as long as the budget is kept.
pub proof fn law_chunk_touches_only_its_segment(
    segs: Seq<SegmentView>,
    dev_id: u32,
    segment_seq: u32,
    existing_len: u64,
    offset: u64,
    bytes: Seq<u8>,
    budget: nat,
    j: int,
)
    requires
        0 <= j < segs.len(),
        !reassembler::is_at(segs, j, dev_id, segment_seq),
        ({
            let at = reassembler::place_of(segs, dev_id, segment_seq);
            let open = reassembler::opened(segs, dev_id, segment_seq, existing_len);
            let full = open.update(at, reassembler::with_chunk(open[at], offset, bytes));
            reassembler::total_waiting(full) <= budget
        }),
    ensures
        ({
            let at = reassembler::place_of(segs, dev_id, segment_seq);
            let open = reassembler::opened(segs, dev_id, segment_seq, existing_len);
            let full = open.update(at, reassembler::with_chunk(open[at], offset, bytes));
            reassembler::enforced(full, budget)[j] == segs[j]
        }),
{
}

/// Two texts without underscores that are followed by one in the same text are the same.
proof fn lemma_same_front(a: Seq<char>, b: Seq<char>, x: Seq<char>, y: Seq<char>)
    requires
        forall|i: int| 0 <= i < a.len() ==> #[trigger] a[i] != '_',
        forall|i: int| 0 <= i < b.len() ==> #[trigger] b[i] != '_',
        a + seq!['_'] + x == b + seq!['_'] + y,
    ensures
        a == b,
        x == y,
{
    let s = a + seq!['_'] + x;
    let t = b + seq!['_'] + y;
    assert(s[a.len() as int] == '_');
    assert(t[b.len() as int] == '_');
    if a.len() < b.len() {
        assert(t[a.len() as int] == b[a.len() as int]);
    } else if b.len() < a.len() {
        assert(s[b.len() as int] == a[b.len() as int]);
    }
    assert forall|i: int| 0 <= i < a.len() implies a[i] == b[i] by {
        assert(s[i] == a[i] && t[i] == b[i]);
    }
    assert(a =~= b);
    assert(x =~= s.skip(a.len() as int + 1));
    assert(y =~= t.skip(b.len() as int + 1));
}

/// Segments of different devices or numbers have different files.
pub proof fn law_segment_files_are_distinct(dev_a: u32, seq_a: u32, dev_b: u32, seq_b: u32)
    requires
        segment::segment_file_name(dev_a, seq_a) == segment::segment_file_name(dev_b, seq_b),
    ensures
        dev_a == dev_b,
        seq_a == seq_b,
{
    reveal_strlit("dev");
    reveal_strlit("_");
    reveal_strlit("segment_");
    let a = segment::segment_file_name(dev_a, seq_a);
    let b = segment::segment_file_name(dev_b, seq_b);
    let na = rotate::segment_name(seq_a as u64);
    let nb = rotate::segment_name(seq_b as u64);
    assert(na[0] == 's' && nb[0] == 's');
    if dev_a == 1 && dev_b == 1 {
        if seq_a != seq_b {
            rotate::law_segment_names_are_unique(seq_a as u64, seq_b as u64);
        }
    } else if dev_a == 1 {
        assert(b[0] == 'd');
    } else if dev_b == 1 {
        assert(a[0] == 'd');
    } else {
        let da = text::decimal(dev_a as nat);
        let db = text::decimal(dev_b as nat);
        text::lemma_decimal(dev_a as nat);
        text::lemma_decimal(dev_b as nat);
        assert('_' as u32 == 95);
        assert("_"@ =~= seq!['_']);
        assert(a.skip(3) =~= da + seq!['_'] + na);
        assert(b.skip(3) =~= db + seq!['_'] + nb);
        lemma_same_front(da, db, na, nb);
        text::law_decimal_reads_back(dev_a as u64);
        text::law_decimal_reads_back(dev_b as u64);
        if seq_a != seq_b {
            rotate::law_segment_names_are_unique(seq_a as u64, seq_b as u64);
        }
    }
}

/// A chunk that came whole fills in the references to it that follow.
pub proof fn law_reference_is_filled_in(
    cache: Seq<(u128, Seq<u8>)>,
    id: Seq<u8>,
    chunk: Seq<u8>,
    body: Seq<u8>,
    cipher_key: Seq<u8>,
    budget: nat,
)
    requires
        forall|i: int, j: int| 0 <= i < j < cache.len() ==> cache[i].0 != cache[j].0,
        chunk.len() <= budget,
        !blind::has_entry(cache, blind::id_number(id) as u128) || blind::total_bytes(
            blind::put(cache, blind::id_number(id) as u128, chunk),
        ) <= budget,
    ensures
        reassembler::chunk_of(
            blind::within_budget(
                blind::put(cache, blind::id_number(id) as u128, chunk),
                budget,
            ),
            true,
            Some(id),
            body,
            cipher_key,
        ) == Some(chunk),
{
    let n = blind::id_number(id) as u128;
    if blind::has_entry(cache, n) {
        let full = blind::put(cache, n, chunk);
        let i = choose|i: int| 0 <= i < cache.len() && (#[trigger] cache[i]).0 == n;
        assert(full[i] == (n, chunk));
        assert(blind::has_entry(full, n));
        let j = choose|j: int| 0 <= j < full.len() && (#[trigger] full[j]).0 == n;
        if j != i {
            assert(cache[j].0 == n);
        }
    } else {
        blind::law_cached_chunk_is_found(cache, n, chunk, budget);
    }
}

/// A chunk for a segment. If its segment is opened for it, the segment's file holds `existing_len`
/// bytes.
pub struct Message {
    pub dev_id: u32,
    pub segment_seq: u32,
    pub existing_len: u64,
    pub offset: u64,
    pub bytes: Seq<u8>,
}

/// The segments with the chunk of a message in its place, before the budget is looked at.
pub open spec fn with_message(segs: Seq<SegmentView>, m: Message) -> Seq<SegmentView> {
    let at = reassembler::place_of(segs, m.dev_id, m.segment_seq);
    let open = reassembler::opened(segs, m.dev_id, m.segment_seq, m.existing_len);
    open.update(at, reassembler::with_chunk(open[at], m.offset, m.bytes))
}

/// The segments after the messages.
pub open spec fn after_messages(msgs: Seq<Message>, budget: nat) -> Seq<SegmentView>
    decreases msgs.len(),
{
    if msgs.len() == 0 {
        Seq::empty()
    } else {
        reassembler::enforced(
            with_message(after_messages(msgs.drop_last(), budget), msgs.last()),
            budget,
        )
    }
}

/// At no message more bytes wait than the budget allows.
pub open spec fn keeps_budget(msgs: Seq<Message>, budget: nat) -> bool
    decreases msgs.len(),
{
    msgs.len() == 0 || {
        &&& keeps_budget(msgs.drop_last(), budget)
        &&& reassembler::total_waiting(
            with_message(after_messages(msgs.drop_last(), budget), msgs.last()),
        ) <= budget
    }
}

/// The messages for one segment, in order.
pub open spec fn messages_for(msgs: Seq<Message>, dev_id: u32, segment_seq: u32) -> Seq<Message>
    decreases msgs.len(),
{
    if msgs.len() == 0 {
        Seq::empty()
    } else {
        let before = messages_for(msgs.drop_last(), dev_id, segment_seq);
        let m = msgs.last();
        if m.dev_id == dev_id && m.segment_seq == segment_seq {
            before.push(m)
        } else {
            before
        }
    }
}

/// What is gathered from the messages for one segment alone.
pub open spec fn gathered_alone(msgs: Seq<Message>) -> Gathered
    decreases msgs.len(),
{
    if msgs.len() <= 1 {
        let start = Gathered { next: msgs[0].existing_len as nat, pending: Map::empty() };
        segment::placed(start, msgs[0].offset, msgs[0].bytes).state
    } else {
        segment::placed(
            gathered_alone(msgs.drop_last()),
            msgs.last().offset,
            msgs.last().bytes,
        ).state
    }
}

/// What is gathered of one segment among others; nothing if it is not there.
pub open spec fn state_of(segs: Seq<SegmentView>, dev_id: u32, segment_seq: u32) -> Option<
    Gathered,
> {
    if reassembler::is_known(segs, dev_id, segment_seq) {
        Some(segs[reassembler::place_of(segs, dev_id, segment_seq)].state)
    } else {
        None
    }
}

/// Distinct segments are found where they stand.
proof fn lemma_state_at(segs: Seq<SegmentView>, i: int)
    requires
        reassembler::all_distinct(segs),
        0 <= i < segs.len(),
    ensures
        reassembler::place_of(segs, segs[i].dev_id, segs[i].segment_seq) == i,
        state_of(segs, segs[i].dev_id, segs[i].segment_seq) == Some(segs[i].state),
{
    let d = segs[i].dev_id;
    let q = segs[i].segment_seq;
    assert(reassembler::is_at(segs, i, d, q));
    let j = choose|j: int| reassembler::is_at(segs, j, d, q);
    assert(reassembler::is_at(segs, j, d, q));
    if j < i {
        assert(segs[j].dev_id != segs[i].dev_id || segs[j].segment_seq != segs[i].segment_seq);
    } else if i < j {
        assert(segs[i].dev_id != segs[j].dev_id || segs[i].segment_seq != segs[j].segment_seq);
    }
}

/// A message changes its own segment and no other.
proof fn lemma_message(segs: Seq<SegmentView>, m: Message, dev_id: u32, segment_seq: u32)
    requires
        reassembler::all_distinct(segs),
    ensures
        reassembler::all_distinct(with_message(segs, m)),
        state_of(with_message(segs, m), m.dev_id, m.segment_seq) == Some(
            segment::placed(
                match state_of(segs, m.dev_id, m.segment_seq) {
                    Some(s) => s,
                    None => Gathered { next: m.existing_len as nat, pending: Map::empty() },
                },
                m.offset,
                m.bytes,
            ).state,
        ),
        dev_id != m.dev_id || segment_seq != m.segment_seq ==> state_of(
            with_message(segs, m),
            dev_id,
            segment_seq,
        ) == state_of(segs, dev_id, segment_seq),
{
    let at = reassembler::place_of(segs, m.dev_id, m.segment_seq);
    let open = reassembler::opened(segs, m.dev_id, m.segment_seq, m.existing_len);
    let after = with_message(segs, m);
    assert(0 <= at < open.len() && open[at].dev_id == m.dev_id && open[at].segment_seq
        == m.segment_seq) by {
        if reassembler::is_known(segs, m.dev_id, m.segment_seq) {
            assert(reassembler::is_at(segs, at, m.dev_id, m.segment_seq));
        }
    }
    assert forall|i: int, j: int| 0 <= i < j < after.len() implies after[i].dev_id
        != after[j].dev_id || after[i].segment_seq != after[j].segment_seq by {
        assert(after[i].dev_id == open[i].dev_id && after[i].segment_seq == open[i].segment_seq);
        assert(after[j].dev_id == open[j].dev_id && after[j].segment_seq == open[j].segment_seq);
        if j == segs.len() {
            assert(!reassembler::is_at(segs, i, m.dev_id, m.segment_seq));
        }
    }
    lemma_state_at(after, at);
    if reassembler::is_known(segs, m.dev_id, m.segment_seq) {
        lemma_state_at(segs, at);
    }
    if dev_id != m.dev_id || segment_seq != m.segment_seq {
        if reassembler::is_known(segs, dev_id, segment_seq) {
            let i = reassembler::place_of(segs, dev_id, segment_seq);
            assert(reassembler::is_at(segs, i, dev_id, segment_seq));
            assert(i != at);
            assert(after[i] == segs[i]);
            lemma_state_at(after, i);
        } else if reassembler::is_known(after, dev_id, segment_seq) {
            let i = reassembler::place_of(after, dev_id, segment_seq);
            assert(reassembler::is_at(after, i, dev_id, segment_seq));
            assert(i != at);
            assert(reassembler::is_at(segs, i, dev_id, segment_seq));
        }
    }
}

/// Segments do not mix: as long as the budget is kept, what is gathered of a segment is what would
/// be gathered from the messages for it alone, whatever comes in between for others.
pub proof fn law_segments_do_not_mix(
    msgs: Seq<Message>,
    budget: nat,
    dev_id: u32,
    segment_seq: u32,
)
    requires
        keeps_budget(msgs, budget),
    ensures
        reassembler::all_distinct(after_messages(msgs, budget)),
        state_of(after_messages(msgs, budget), dev_id, segment_seq) == if messages_for(
            msgs,
            dev_id,
            segment_seq,
        ).len() == 0 {
            None
        } else {
            Some(gathered_alone(messages_for(msgs, dev_id, segment_seq)))
        },
    decreases msgs.len(),
{
    if msgs.len() == 0 {
        let none = after_messages(msgs, budget);
        if reassembler::is_known(none, dev_id, segment_seq) {
            let i = choose|i: int| reassembler::is_at(none, i, dev_id, segment_seq);
            assert(reassembler::is_at(none, i, dev_id, segment_seq));
        }
    } else {
        let m = msgs.last();
        let segs = after_messages(msgs.drop_last(), budget);
        law_segments_do_not_mix(msgs.drop_last(), budget, dev_id, segment_seq);
        lemma_message(segs, m, dev_id, segment_seq);
        assert(after_messages(msgs, budget) == with_message(segs, m));
        let before = messages_for(msgs.drop_last(), dev_id, segment_seq);
        if m.dev_id == dev_id && m.segment_seq == segment_seq {
            assert(before.push(m).drop_last() =~= before);
        }
    }
}

/// The messages are chunks of a source, one for each arrival, for a file that held `start` bytes.
pub open spec fn carry_chunks(
    msgs: Seq<Message>,
    source: Seq<u8>,
    start: nat,
    arrivals: Seq<(int, int)>,
) -> bool {
    &&& msgs.len() == arrivals.len()
    &&& msgs.len() > 0 ==> msgs[0].existing_len == start
    &&& forall|k: int|
        0 <= k < msgs.len() ==> {
            &&& (#[trigger] msgs[k]).offset == arrivals[k].0 as u64
            &&& msgs[k].bytes == piece(source, arrivals[k])
        }
}

/// Messages that carry the chunks of a source gather what the chunks do.
proof fn lemma_gathered_is_arrived(
    msgs: Seq<Message>,
    source: Seq<u8>,
    start: nat,
    arrivals: Seq<(int, int)>,
)
    requires
        msgs.len() > 0,
        carry_chunks(msgs, source, start, arrivals),
    ensures
        gathered_alone(msgs) == arrived(source, start, arrivals).state,
    decreases msgs.len(),
{
    let last = msgs.len() - 1;
    assert(msgs[last] == msgs.last());
    if msgs.len() == 1 {
        reveal_with_fuel(arrived, 2);
        assert(arrivals.drop_last() =~= Seq::<(int, int)>::empty());
    } else {
        assert forall|k: int| 0 <= k < last implies {
            &&& (#[trigger] msgs.drop_last()[k]).offset == arrivals.drop_last()[k].0 as u64
            &&& msgs.drop_last()[k].bytes == piece(source, arrivals.drop_last()[k])
        } by {
            assert(msgs[k].bytes == piece(source, arrivals[k]));
        }
        lemma_gathered_is_arrived(msgs.drop_last(), source, start, arrivals.drop_last());
    }
}

/// Whatever else arrives for other segments, and in whatever order: once every byte of a segment
/// has come, as long as the budget is kept, every byte of it is written and nothing of it waits.
pub proof fn law_segment_becomes_whole_among_others(
    msgs: Seq<Message>,
    budget: nat,
    dev_id: u32,
    segment_seq: u32,
    source: Seq<u8>,
    start: nat,
    arrivals: Seq<(int, int)>,
)
    requires
        keeps_budget(msgs, budget),
        are_pieces(source, arrivals),
        start <= source.len(),
        arrivals.len() > 0,
        carry_chunks(messages_for(msgs, dev_id, segment_seq), source, start, arrivals),
        forall|p: int| start <= p < source.len() ==> #[trigger] is_covered(arrivals, p),
    ensures
        state_of(after_messages(msgs, budget), dev_id, segment_seq) == Some(
            Gathered { next: source.len(), pending: Map::empty() },
        ),
{
    let own = messages_for(msgs, dev_id, segment_seq);
    law_segments_do_not_mix(msgs, budget, dev_id, segment_seq);
    law_segment_becomes_whole(source, start, arrivals);
    lemma_gathered_is_arrived(own, source, start, arrivals);
    assert(gathered_alone(own) =~= Gathered { next: source.len(), pending: Map::empty() });
}

} // verus!
