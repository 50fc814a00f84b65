//! What becomes of a captured frame.
use crate::endian;
use crate::guard::breaker::Breaker;
use crate::parse::frame;
use crate::parse::slicer::{self, Slicer};
use crate::wal::header::WalRecord;
use crate::wal::writer;
use vstd::prelude::*;

verus! {

/// What is to be done with a captured frame.
#[derive(Debug)]
pub enum FrameStep {
    /// The probe sheds load: the frame was dropped and counted.
    Dropped,
    /// The frame is not one that is recorded.
    Skipped,
    /// The record is to be sent to the writer.
    Send(WalRecord),
}

/// The step for a frame that was looked at.
pub open spec fn sent(step: FrameStep) -> Option<WalRecord> {
    match step {
        FrameStep::Send(record) => Some(record),
        _ => None,
    }
}

/// The nanoseconds of a time as a record keeps them: 0 if they do not fit in 64 bits.
pub fn timestamp_ns(nanos: u128) -> (r: u64)
    ensures
        r == if nanos <= u64::MAX { nanos as int } else { 0 },
{
    if nanos <= u64::MAX as u128 {
        nanos as u64
    } else {
        0
    }
}

/// The consumer of captured frames.
#[derive(Debug, Clone, Copy)]
pub struct Capture {
    pub slicer: Slicer,
}

impl Capture {
    /// A consumer that keeps `slice_bytes` bytes of each payload.
    pub fn new(slice_bytes: usize) -> (r: Self)
        ensures
            r.slicer.max_payload == slice_bytes,
    {
        Capture { slicer: Slicer::new(slice_bytes) }
    }

    /// Handles one frame, captured at `nanos` nanoseconds. While load is shed it is dropped without
    /// being looked at. Otherwise it is sliced, and skipped if it gives no record.
    pub fn consume(&self, breaker: &mut Breaker, frame: &[u8], nanos: u128) -> (r: FrameStep)
        ensures
            final(breaker).degraded == old(breaker).degraded,
            old(breaker).degraded ==> {
                &&& r is Dropped
                &&& final(breaker).dropped == writer::counted(old(breaker).dropped)
            },
            !old(breaker).degraded ==> {
                &&& r !is Dropped
                &&& final(breaker).dropped == old(breaker).dropped
                &&& match frame::ethernet_layers(frame@) {
                    Some(s) => slicer::record_view(sent(r)) == slicer::sliced_record(
                        s,
                        self.slicer.max_payload as int,
                        if nanos <= u64::MAX {
                            nanos as u64
                        } else {
                            0
                        },
                        false,
                    ),
                    None => r is Skipped,
                }
            },
            r is Dropped <==> old(breaker).degraded,
            final(breaker).dropped == (old(breaker).dropped + if old(breaker).degraded {
                1int
            } else {
                0
            }) % 0x1_0000_0000_0000_0000,
            !old(breaker).degraded && frame::is_plain_ipv4(frame@) && frame@[23] == 6
                && frame@.len() >= 54 && 5 <= frame@[46] / 16 && 34 + 4 * (frame@[46] / 16)
                <= frame@.len() ==> {
                &&& r matches FrameStep::Send(record)
                &&& record.timestamp_ns == (if nanos <= u64::MAX {
                    nanos as int
                } else {
                    0
                })
                &&& record.src_ip@ == frame@.subrange(26, 30)
                &&& record.dst_ip@ == frame@.subrange(30, 34)
                &&& record.src_port == endian::value16(frame@, 34)
                &&& record.dst_port == endian::value16(frame@, 36)
                &&& record.tcp_seq == endian::value32(frame@, 38)
                &&& record.tcp_ack == endian::value32(frame@, 42)
            },
    {
        if breaker.is_degraded() {
            breaker.count_drop();
            return FrameStep::Dropped;
        }
        match self.slicer.process(frame, timestamp_ns(nanos), breaker.is_degraded()) {
            Some(record) => FrameStep::Send(record),
            None => FrameStep::Skipped,
        }
    }
}

} // verus!
