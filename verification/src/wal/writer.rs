//! The log writer: which records are written, when a segment is closed, and what is counted.
//!
//! The writer decides; its caller receives the records, creates and removes files, and writes.
use crate::config::ConfigError;
use crate::guard::breaker::Breaker;
use crate::wal::header::{self, RecordView, WalRecord};
use crate::wal::laws;
use crate::wal::rotate::{self, Rotator};
use vstd::prelude::*;

verus! {

/// What a writer is made with.
#[derive(Debug)]
pub struct WriterParams {
    pub shm_path: String,
    pub max_segments: usize,
    pub segment_size: u64,
    pub rotate_interval_ns: u128,
    pub queue_watermark: u8,
    pub written_records: u64,
    pub dropped_records: u64,
}

/// What came of waiting for a record.
#[derive(Debug)]
pub enum Received {
    Record(WalRecord),
    Timeout,
    Disconnected,
}

/// What is to be done next.
#[derive(Debug, Clone, Copy, PartialEq, Eq, Structural)]
pub enum Step {
    /// The record was dropped.
    Dropped,
    /// The bytes in `scratch` are to be written, to a new segment if `rotate_first`.
    Write { rotate_first: bool },
    /// Nothing came, and the time of the open segment is over: open the next one.
    Rotate,
    /// Nothing came; wait again.
    Idle,
    /// Nothing will come any more; flush and end.
    Finish,
}

/// The state of the log writer. Times are in nanoseconds of one clock.
#[derive(Debug)]
pub struct WalWriter {
    pub rotator: Rotator,
    pub segment_size: u64,
    pub rotate_interval_ns: u128,
    /// A segment is open.
    pub file_open: bool,
    /// The path of the open segment.
    pub current_path: String,
    /// The bytes written to the open segment.
    pub written: u64,
    /// When the open segment is to be closed.
    pub next_rotate_ns: u128,
    pub queue_watermark: u8,
    /// The bytes of the record at hand.
    pub scratch: Vec<u8>,
    pub written_records: u64,
    pub dropped_records: u64,
}

/// A record of `total` bytes fits into no segment.
pub open spec fn is_oversized(total: int, segment_size: int) -> bool {
    total > segment_size
}

/// A record of `total` bytes does not fit behind `written` bytes.
pub open spec fn must_rotate(written: int, total: int, segment_size: int) -> bool {
    written + total > segment_size
}

/// The bytes in the open segment once a record of `total` bytes was handled.
pub open spec fn written_after(written: int, total: int, segment_size: int) -> int {
    if is_oversized(total, segment_size) {
        written
    } else if must_rotate(written, total, segment_size) {
        total
    } else {
        written + total
    }
}

/// A counter that wraps around, one further.
pub open spec fn counted(n: u64) -> int {
    (n + 1) % 0x1_0000_0000_0000_0000
}

impl WalWriter {
    /// Everything but the bytes at hand and the counters is as in `other`.
    pub open spec fn same_segment(self, other: WalWriter) -> bool {
        &&& self.rotator == other.rotator
        &&& self.segment_size == other.segment_size
        &&& self.rotate_interval_ns == other.rotate_interval_ns
        &&& self.file_open == other.file_open
        &&& self.current_path == other.current_path
        &&& self.next_rotate_ns == other.next_rotate_ns
        &&& self.queue_watermark == other.queue_watermark
    }

    /// A writer over a directory that holds files with the given names. No segment is open yet.
    pub fn new(params: WriterParams, names: &Vec<String>, now_ns: u128) -> (r: Result<
        Self,
        ConfigError,
    >)
        requires
            !rotate::has_segment(names@, u64::MAX),
            now_ns + params.rotate_interval_ns <= u128::MAX,
        ensures
            r is Err <==> params.max_segments == 0,
            r matches Err(e) ==> e == ConfigError::MaxSegments,
            r matches Ok(w) ==> {
                &&& w.rotator.shm_path@ == params.shm_path@
                &&& w.rotator.max_segments == params.max_segments
                &&& rotate::is_scan(names@, w.rotator.seg_no, w.rotator.min_no)
                &&& w.segment_size == params.segment_size
                &&& w.rotate_interval_ns == params.rotate_interval_ns
                &&& !w.file_open
                &&& w.current_path@ == Seq::<char>::empty()
                &&& w.written == 0
                &&& w.next_rotate_ns == now_ns + params.rotate_interval_ns
                &&& w.queue_watermark == params.queue_watermark
                &&& w.scratch@ == Seq::<u8>::empty()
                &&& w.written_records == params.written_records
                &&& w.dropped_records == params.dropped_records
            },
    {
        match Rotator::new(params.shm_path.as_str(), params.max_segments, names) {
            Ok(rotator) => Ok(
                WalWriter {
                    rotator,
                    segment_size: params.segment_size,
                    rotate_interval_ns: params.rotate_interval_ns,
                    file_open: false,
                    current_path: String::new(),
                    written: 0,
                    next_rotate_ns: now_ns + params.rotate_interval_ns,
                    queue_watermark: params.queue_watermark,
                    scratch: Vec::new(),
                    written_records: params.written_records,
                    dropped_records: params.dropped_records,
                },
            ),
            Err(e) => Err(e),
        }
    }

    /// What taking up a segment that was opened at `path` comes to.
    pub open spec fn opened(self, path: String, now_ns: u128) -> WalWriter {
        WalWriter {
            file_open: true,
            current_path: path,
            written: 0,
            next_rotate_ns: (now_ns + self.rotate_interval_ns) as u128,
            ..self
        }
    }

    /// Takes up a segment that was opened at `path`. It is empty, and its time begins.
    pub fn segment_opened(&mut self, path: String, now_ns: u128)
        requires
            now_ns + old(self).rotate_interval_ns <= u128::MAX,
        ensures
            *final(self) == old(self).opened(path, now_ns),
    {
        self.file_open = true;
        self.current_path = path;
        self.written = 0;
        self.next_rotate_ns = now_ns + self.rotate_interval_ns;
    }

    /// What handling a record comes to. While load is shed it is dropped and counted, and so is at
    /// any time one that is larger than a segment. Otherwise its bytes are made ready, and a new
    /// segment comes first if they do not fit into the open one.
    pub open spec fn handled(
        self,
        other: WalWriter,
        degraded: bool,
        record: RecordView,
        step: Step,
    ) -> bool {
        let total = header::encoded(record).len() as int;
        &&& other.same_segment(self)
        &&& other.written == self.written
        &&& other.written_records == self.written_records
        &&& if degraded || is_oversized(total, self.segment_size as int) {
            &&& step == Step::Dropped
            &&& other.dropped_records == counted(self.dropped_records)
            &&& other.scratch@ == self.scratch@
        } else {
            &&& other.dropped_records == self.dropped_records
            &&& other.scratch@ == header::encoded(record)
            &&& step == (Step::Write {
                rotate_first: must_rotate(self.written as int, total, self.segment_size as int),
            })
        }
    }

    /// Handles one record.
    pub fn handle_record(&mut self, degraded: bool, record: &WalRecord) -> (r: Step)
        ensures
            old(self).handled(*final(self), degraded, record@, r),
            header::WAL_HEADER_SIZE + record@.payload.len() > old(self).segment_size ==> r
                == Step::Dropped,
            !degraded && 64 + record@.payload.len() <= old(self).segment_size ==> {
                &&& r == (Step::Write {
                    rotate_first: old(self).written + 64 + record@.payload.len() > old(
                        self,
                    ).segment_size,
                })
                &&& final(self).scratch@ == header::encoded(record@)
                &&& final(self).scratch@.len() == 64 + record@.payload.len()
                &&& final(self).dropped_records == old(self).dropped_records
            },
            degraded || 64 + record@.payload.len() > old(self).segment_size ==> {
                &&& r == Step::Dropped
                &&& final(self).dropped_records == (old(self).dropped_records + 1)
                    % 0x1_0000_0000_0000_0000
            },
            final(self).written == old(self).written,
            final(self).written_records == old(self).written_records,
    {
        proof {
            header::lemma_header_len(record@);
        }
        let total: u128 = header::WAL_HEADER_SIZE as u128 + record.payload.len() as u128;
        if degraded || total > self.segment_size as u128 {
            self.dropped_records = self.dropped_records.wrapping_add(1);
            return Step::Dropped;
        }
        self.scratch.clear();
        record.encode(&mut self.scratch);
        assert(self.scratch@ =~= header::encoded(record@));
        Step::Write { rotate_first: self.written as u128 + total > self.segment_size as u128 }
    }

    /// Decides what follows from what came of waiting for a record, up to the time `now_ns`.
    pub fn on_received(&mut self, breaker: &Breaker, received: Received, now_ns: u128) -> (r: Step)
        ensures
            match received {
                Received::Record(record) => old(self).handled(
                    *final(self),
                    breaker.degraded,
                    record@,
                    r,
                ),
                Received::Timeout => {
                    &&& *final(self) == *old(self)
                    &&& r == if old(self).is_time_over(now_ns) {
                        Step::Rotate
                    } else {
                        Step::Idle
                    }
                },
                Received::Disconnected => r == Step::Finish && *final(self) == *old(self),
            },
            received matches Received::Record(record) ==> {
                let fits = !breaker.degraded && 64 + record@.payload.len() <= old(
                    self,
                ).segment_size;
                &&& fits ==> final(self).scratch@ == header::encoded(record@) && r == (Step::Write {
                    rotate_first: old(self).written + 64 + record@.payload.len() > old(
                        self,
                    ).segment_size,
                })
                &&& !fits ==> r == Step::Dropped
            },
            received is Timeout ==> r == if now_ns >= old(self).next_rotate_ns && old(self).written
                > 0 {
                Step::Rotate
            } else {
                Step::Idle
            },
    {
        match received {
            Received::Record(record) => self.handle_record(breaker.is_degraded(), &record),
            Received::Timeout => if self.maybe_rotate(now_ns) {
                Step::Rotate
            } else {
                Step::Idle
            },
            Received::Disconnected => Step::Finish,
        }
    }

    /// The bytes at hand can be counted to the open segment.
    pub fn can_count(&self) -> (r: bool)
        ensures
            r == (self.written + self.scratch@.len() <= u64::MAX),
    {
        self.written as u128 + self.scratch.len() as u128 <= u64::MAX as u128
    }

    /// What counting the bytes at hand comes to: they are counted if a segment is open.
    pub open spec fn counts_record(self, other: WalWriter) -> bool {
        &&& other.same_segment(self)
        &&& other.scratch@ == self.scratch@
        &&& other.dropped_records == self.dropped_records
        &&& if self.file_open {
            &&& other.written == self.written + self.scratch@.len()
            &&& other.written_records == counted(self.written_records)
        } else {
            &&& other.written == self.written
            &&& other.written_records == self.written_records
        }
    }

    /// Counts the bytes at hand as written, if a segment is open.
    pub fn record_written(&mut self)
        requires
            old(self).written + old(self).scratch@.len() <= u64::MAX,
        ensures
            old(self).counts_record(*final(self)),
    {
        if self.file_open {
            self.written = self.written + self.scratch.len() as u64;
            self.written_records = self.written_records.wrapping_add(1);
        }
    }

    /// The time of the open segment is over and something was written to it.
    pub open spec fn is_time_over(self, now_ns: u128) -> bool {
        now_ns >= self.next_rotate_ns && self.written > 0
    }

    /// The open segment is to be closed: its time is over and something was written to it.
    pub fn maybe_rotate(&self, now_ns: u128) -> (r: bool)
        ensures
            r == self.is_time_over(now_ns),
    {
        now_ns >= self.next_rotate_ns && self.written > 0
    }
}

/// A segment does not outgrow its size, whatever record is handled.
pub proof fn law_segment_keeps_its_size(written: int, total: int, segment_size: int)
    requires
        0 <= written <= segment_size,
        0 <= total,
    ensures
        0 <= written_after(written, total, segment_size) <= segment_size,
{
}

/// What happens to the log: a record comes while no load is shed, or the time of the open segment
/// is over.
pub enum LogEvent {
    Record(RecordView),
    TimeOver,
}

/// The bytes of a record in the log.
pub open spec fn record_size(r: RecordView) -> int {
    header::WAL_HEADER_SIZE + r.payload.len()
}

/// The records in each segment, in the order in which the segments were opened, after the events.
/// The last segment is the open one.
pub open spec fn segments_after(events: Seq<LogEvent>, segment_size: int) -> Seq<Seq<RecordView>>
    decreases events.len(),
{
    if events.len() == 0 {
        seq![Seq::empty()]
    } else {
        let before = segments_after(events.drop_last(), segment_size);
        let open = before.last();
        match events.last() {
            LogEvent::Record(r) => if is_oversized(record_size(r), segment_size) {
                before
            } else if must_rotate(laws::log_size(open), record_size(r), segment_size) {
                before.push(seq![r])
            } else {
                before.update(before.len() - 1, open.push(r))
            },
            LogEvent::TimeOver => if laws::log_size(open) > 0 {
                before.push(Seq::empty())
            } else {
                before
            },
        }
    }
}

/// The records of the events that fit into a segment, in order.
pub open spec fn records_of(events: Seq<LogEvent>, segment_size: int) -> Seq<RecordView>
    decreases events.len(),
{
    if events.len() == 0 {
        Seq::empty()
    } else {
        match events.last() {
            LogEvent::Record(r) => if is_oversized(record_size(r), segment_size) {
                records_of(events.drop_last(), segment_size)
            } else {
                records_of(events.drop_last(), segment_size).push(r)
            },
            LogEvent::TimeOver => records_of(events.drop_last(), segment_size),
        }
    }
}

/// The records of all segments, one segment behind the other.
pub open spec fn all_records(segments: Seq<Seq<RecordView>>) -> Seq<RecordView>
    decreases segments.len(),
{
    if segments.len() == 0 {
        Seq::empty()
    } else {
        all_records(segments.drop_last()) + segments.last()
    }
}

/// The size of a log grows with each record by its header and its payload.
proof fn lemma_log_size_push(rs: Seq<RecordView>, r: RecordView)
    ensures
        laws::log_size(rs.push(r)) == laws::log_size(rs) + header::WAL_HEADER_SIZE
            + r.payload.len(),
    decreases rs.len(),
{
    let longer = rs.push(r);
    if rs.len() == 0 {
        assert(longer.drop_first() =~= rs);
    } else {
        assert(longer.drop_first() =~= rs.drop_first().push(r));
        lemma_log_size_push(rs.drop_first(), r);
    }
}

/// Every record that fits into a segment stands in exactly one, and the segments in the order in
/// which they were opened hold the records in the order in which they were written.
pub proof fn law_segments_hold_the_records_in_order(events: Seq<LogEvent>, segment_size: int)
    ensures
        segments_after(events, segment_size).len() > 0,
        all_records(segments_after(events, segment_size)) == records_of(events, segment_size),
    decreases events.len(),
{
    if events.len() == 0 {
        let first = segments_after(events, segment_size);
        assert(first.drop_last() =~= Seq::<Seq<RecordView>>::empty());
        assert(all_records(first.drop_last()) =~= Seq::<RecordView>::empty());
        assert(all_records(first) =~= Seq::<RecordView>::empty());
    } else {
        let before = segments_after(events.drop_last(), segment_size);
        let after = segments_after(events, segment_size);
        law_segments_hold_the_records_in_order(events.drop_last(), segment_size);
        if after.len() > before.len() {
            assert(after.drop_last() =~= before);
        } else {
            assert(after.drop_last() =~= before.drop_last());
        }
        assert(all_records(after) =~= records_of(events, segment_size));
    }
}

/// No segment is larger than the segment size.
pub proof fn law_segments_keep_their_size(events: Seq<LogEvent>, segment_size: int)
    requires
        segment_size >= 0,
    ensures
        segments_after(events, segment_size).len() > 0,
        forall|i: int|
            0 <= i < segments_after(events, segment_size).len() ==> laws::log_size(
                #[trigger] segments_after(events, segment_size)[i],
            ) <= segment_size,
    decreases events.len(),
{
    if events.len() > 0 {
        law_segments_keep_their_size(events.drop_last(), segment_size);
        let before = segments_after(events.drop_last(), segment_size);
        let after = segments_after(events, segment_size);
        assert forall|i: int| 0 <= i < after.len() implies laws::log_size(#[trigger] after[i])
            <= segment_size by {
            if i < before.len() {
                assert(laws::log_size(before[i]) <= segment_size);
            }
            if let LogEvent::Record(r) = events.last() {
                lemma_log_size_push(before.last(), r);
                lemma_log_size_push(Seq::empty(), r);
                assert(Seq::empty().push(r) =~= seq![r]);
            }
        }
    }
}

/// The log stays within the memory disk: whatever comes, the newest `max_segments` segments take no
/// more than that many times the segment size.
pub proof fn law_log_stays_within_the_disk(
    events: Seq<LogEvent>,
    segment_size: nat,
    max_segments: nat,
)
    ensures
        ({
            let all = segments_after(events, segment_size as int);
            let kept = if all.len() > max_segments {
                all.skip(all.len() - max_segments)
            } else {
                all
            };
            rotate::total_size(
                Seq::new(kept.len(), |i: int| laws::log_size(kept[i]) as nat),
            ) <= max_segments * segment_size
        }),
{
    let all = segments_after(events, segment_size as int);
    let kept = if all.len() > max_segments {
        all.skip(all.len() - max_segments)
    } else {
        all
    };
    let sizes = Seq::new(kept.len(), |i: int| laws::log_size(kept[i]) as nat);
    law_segments_keep_their_size(events, segment_size as int);
    assert forall|i: int| 0 <= i < sizes.len() implies #[trigger] sizes[i] <= segment_size by {
        assert(kept[i] == all[all.len() - kept.len() + i]);
        lemma_log_size_positive(kept[i]);
    }
    rotate::law_ram_disk_is_bounded(sizes, max_segments, segment_size);
}

/// A log takes no negative number of bytes.
proof fn lemma_log_size_positive(rs: Seq<RecordView>)
    ensures
        laws::log_size(rs) >= 0,
    decreases rs.len(),
{
    if rs.len() > 0 {
        lemma_log_size_positive(rs.drop_first());
    }
}

/// The steps that a writer decides on for a record are carried out: where a new segment comes first,
/// it is opened at `path` at the time `now_ns`, and the bytes at hand are written and counted.
pub open spec fn is_carried_out(
    decided: WalWriter,
    step: Step,
    path: String,
    now_ns: u128,
    done: WalWriter,
) -> bool {
    match step {
        Step::Write { rotate_first } => if rotate_first {
            decided.opened(path, now_ns).counts_record(done)
        } else {
            decided.counts_record(done)
        },
        _ => done == decided,
    }
}

/// What the open segment's file holds once the step was carried out.
pub open spec fn file_after(file: Seq<u8>, decided: WalWriter, step: Step) -> Seq<u8> {
    match step {
        Step::Write { rotate_first } => if rotate_first {
            decided.scratch@
        } else {
            file + decided.scratch@
        },
        _ => file,
    }
}

/// The writer keeps the log: where it has counted the open segment of the log after some events,
/// whose file holds that segment's records, and a record comes while no load is shed, then what it
/// decides, carried out, counts and writes the open segment of the log with that record.
pub proof fn law_writer_keeps_the_log(
    events: Seq<LogEvent>,
    r: RecordView,
    before: WalWriter,
    decided: WalWriter,
    step: Step,
    path: String,
    now_ns: u128,
    done: WalWriter,
    file: Seq<u8>,
)
    requires
        r.src_ip.len() == 4,
        r.dst_ip.len() == 4,
        before.file_open,
        before.written == laws::log_size(
            segments_after(events, before.segment_size as int).last(),
        ),
        file == laws::log_bytes(segments_after(events, before.segment_size as int).last()),
        before.handled(decided, false, r, step),
        is_carried_out(decided, step, path, now_ns, done),
    ensures
        ({
            let size = before.segment_size as int;
            let log = segments_after(events.push(LogEvent::Record(r)), size);
            &&& done.file_open
            &&& done.segment_size == before.segment_size
            &&& done.written == written_after(before.written as int, record_size(r), size)
            &&& done.written == laws::log_size(log.last())
            &&& file_after(file, decided, step) == laws::log_bytes(log.last())
            &&& log.len() == segments_after(events, size).len() + if step == (Step::Write {
                rotate_first: true,
            }) {
                1int
            } else {
                0int
            }
        }),
{
    let size = before.segment_size as int;
    let more = events.push(LogEvent::Record(r));
    let open = segments_after(events, size).last();
    assert(more.drop_last() =~= events);
    header::lemma_header_len(r);
    law_segments_hold_the_records_in_order(events, size);
    lemma_log_size_push(open, r);
    lemma_log_size_push(Seq::empty(), r);
    laws::law_log_grows_at_its_end(open, r);
    laws::law_log_grows_at_its_end(Seq::empty(), r);
    assert(Seq::empty().push(r) =~= seq![r]);
    assert(Seq::<u8>::empty() + header::encoded(r) =~= header::encoded(r));
}

/// The writer keeps the log in time, too: where it has counted the open segment of the log and the
/// time has come, it opens the next one exactly where the log does.
pub proof fn law_writer_keeps_time(
    events: Seq<LogEvent>,
    before: WalWriter,
    path: String,
    now_ns: u128,
)
    requires
        before.written == laws::log_size(
            segments_after(events, before.segment_size as int).last(),
        ),
        now_ns >= before.next_rotate_ns,
    ensures
        ({
            let size = before.segment_size as int;
            let log = segments_after(events.push(LogEvent::TimeOver), size);
            let done = if before.is_time_over(now_ns) {
                before.opened(path, now_ns)
            } else {
                before
            };
            &&& done.segment_size == before.segment_size
            &&& done.written == laws::log_size(log.last())
            &&& log.len() == segments_after(events, size).len() + if before.is_time_over(now_ns) {
                1int
            } else {
                0int
            }
        }),
{
    let size = before.segment_size as int;
    assert(events.push(LogEvent::TimeOver).drop_last() =~= events);
}

/// A writer that has just opened its first segment has counted the open segment of an empty log.
pub proof fn law_writer_starts_the_log(before: WalWriter, path: String, now_ns: u128)
    ensures
        before.opened(path, now_ns).file_open,
        before.opened(path, now_ns).written == laws::log_size(
            segments_after(Seq::empty(), before.segment_size as int).last(),
        ),
        laws::log_bytes(segments_after(Seq::empty(), before.segment_size as int).last())
            == Seq::<u8>::empty(),
{
}

/// While no load is shed, a record is dropped only if its header of 64 bytes and its payload are
/// together larger than a segment; any other is made ready in full, and goes to a new segment exactly
/// if it does not fit behind what was written. While load is shed every record is dropped. What is
/// dropped is counted once.
pub proof fn law_record_that_fits_is_written(
    before: WalWriter,
    after: WalWriter,
    degraded: bool,
    r: RecordView,
    step: Step,
)
    requires
        r.src_ip.len() == 4,
        r.dst_ip.len() == 4,
        before.handled(after, degraded, r, step),
    ensures
        !degraded && 64 + r.payload.len() <= before.segment_size ==> {
            &&& after.scratch@ == header::encoded(r)
            &&& after.dropped_records == before.dropped_records
            &&& step == (Step::Write {
                rotate_first: before.written + 64 + r.payload.len() > before.segment_size,
            })
        },
        degraded || 64 + r.payload.len() > before.segment_size ==> {
            &&& step == Step::Dropped
            &&& after.scratch@ == before.scratch@
            &&& after.dropped_records == (before.dropped_records + 1) % 0x1_0000_0000_0000_0000
        },
        after.written == before.written,
        after.written_records == before.written_records,
        after.rotator == before.rotator,
        after.segment_size == before.segment_size,
        after.rotate_interval_ns == before.rotate_interval_ns,
        after.next_rotate_ns == before.next_rotate_ns,
        after.file_open == before.file_open,
        after.current_path == before.current_path,
        after.queue_watermark == before.queue_watermark,
{
    header::lemma_header_len(r);
}

/// What is counted of an open segment is the bytes at hand and one record; nothing is counted where no
/// segment is open.
pub proof fn law_counting_adds_the_bytes_at_hand(before: WalWriter, after: WalWriter)
    requires
        before.counts_record(after),
    ensures
        before.file_open ==> after.written == before.written + before.scratch@.len()
            && after.written_records == (before.written_records + 1) % 0x1_0000_0000_0000_0000,
        !before.file_open ==> after.written == before.written && after.written_records
            == before.written_records,
        after.dropped_records == before.dropped_records,
        after.scratch@ == before.scratch@,
        after.file_open == before.file_open,
        after.segment_size == before.segment_size,
        after.next_rotate_ns == before.next_rotate_ns,
{
}

/// A segment that was just opened is empty and stays open for the whole interval: until then its time
/// is not over whatever is written, from then on it is over as soon as anything was.
pub proof fn law_segment_stays_open_for_its_interval(
    before: WalWriter,
    path: String,
    opened_ns: u128,
    now_ns: u128,
    after: WalWriter,
)
    requires
        opened_ns + before.rotate_interval_ns <= u128::MAX,
        before.opened(path, opened_ns).counts_record(after),
    ensures
        before.opened(path, opened_ns).written == 0,
        before.opened(path, opened_ns).current_path == path,
        !before.opened(path, opened_ns).is_time_over(now_ns),
        after.is_time_over(now_ns) <==> now_ns - opened_ns >= before.rotate_interval_ns
            && before.scratch@.len() > 0,
{
}

/// The log takes every record whose header and payload are together no larger than a segment, at its
/// end, and no other; that time passes takes nothing from it and adds nothing to it.
pub proof fn law_log_takes_what_fits(events: Seq<LogEvent>, r: RecordView, segment_size: int)
    ensures
        records_of(Seq::empty(), segment_size) == Seq::<RecordView>::empty(),
        64 + r.payload.len() <= segment_size ==> records_of(
            events.push(LogEvent::Record(r)),
            segment_size,
        ) == records_of(events, segment_size).push(r),
        64 + r.payload.len() > segment_size ==> records_of(
            events.push(LogEvent::Record(r)),
            segment_size,
        ) == records_of(events, segment_size),
        records_of(events.push(LogEvent::TimeOver), segment_size) == records_of(
            events,
            segment_size,
        ),
{
    assert(events.push(LogEvent::Record(r)).drop_last() =~= events);
    assert(events.push(LogEvent::TimeOver).drop_last() =~= events);
}

/// A new segment is begun only where it must be: a record that fits behind the open segment goes
/// there, and the time that is over ends only a segment that holds a record. Segments that were closed
/// never change.
pub proof fn law_segment_is_begun_only_where_it_must(
    events: Seq<LogEvent>,
    r: RecordView,
    segment_size: int,
)
    requires
        forall|i: int|
            0 <= i < segments_after(events, segment_size).last().len() ==> laws::has_addresses(
                #[trigger] segments_after(events, segment_size).last()[i],
            ),
    ensures
        ({
            let before = segments_after(events, segment_size);
            let open = before.last();
            let after = segments_after(events.push(LogEvent::Record(r)), segment_size);
            let later = segments_after(events.push(LogEvent::TimeOver), segment_size);
            &&& before.len() > 0
            &&& 64 + r.payload.len() <= segment_size && laws::log_bytes(open).len() + 64
                + r.payload.len() <= segment_size ==> after == before.drop_last().push(open.push(r))
            &&& 64 + r.payload.len() <= segment_size && laws::log_bytes(open).len() + 64
                + r.payload.len() > segment_size ==> after == before.push(seq![r])
            &&& 64 + r.payload.len() > segment_size ==> after == before
            &&& open.len() > 0 ==> later == before.push(Seq::empty())
            &&& open.len() == 0 ==> later == before
        }),
{
    let before = segments_after(events, segment_size);
    let open = before.last();
    law_segments_hold_the_records_in_order(events, segment_size);
    laws::law_log_takes_its_size(open);
    if open.len() > 0 {
        lemma_log_size_positive(open.drop_first());
    }
    assert(events.push(LogEvent::Record(r)).drop_last() =~= events);
    assert(events.push(LogEvent::TimeOver).drop_last() =~= events);
    let after = segments_after(events.push(LogEvent::Record(r)), segment_size);
    assert(before.update(before.len() - 1, open.push(r)) =~= before.drop_last().push(open.push(r)));
}

} // verus!
