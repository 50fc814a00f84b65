//! The circuit breaker: a watermark on the queue and limits on the process's memory and CPU use and
//! on the host's load decide whether the probe drops new frames.
use crate::config::Config;
use crate::wal::header::WalRecord;
use crossbeam_channel::Receiver;
use vstd::prelude::*;

verus! {

/// Declares the receiving end of a `crossbeam-channel` channel.
#[verifier::external_type_specification]
#[verifier::external_body]
#[verifier::reject_recursive_types(T)]
pub struct ExReceiver<T>(crossbeam_channel::Receiver<T>);

/// The number of records that a channel was made for; none for a channel without bound.
pub uninterp spec fn queue_capacity(rx: Receiver<WalRecord>) -> Option<usize>;

/// Calls `crossbeam_channel::Receiver::capacity`: the number of records that the channel was made
/// for, which does not change.
#[verifier::external_body]
fn capacity_of(rx: &Receiver<WalRecord>) -> (r: Option<usize>)
    ensures
        r == queue_capacity(*rx),
{
    rx.capacity()
}

/// Calls `crossbeam_channel::Receiver::len`: the number of records in the channel at this moment,
/// which other threads change. It is never more than the channel was made for.
#[verifier::external_body]
pub(crate) fn fill_of(rx: &Receiver<WalRecord>) -> (r: usize)
    ensures
        queue_capacity(*rx) matches Some(capacity) ==> r <= capacity,
{
    rx.len()
}

/// `fill` is a number that `Receiver::len` gave in a call on this queue. Only `fill_of` gives such
/// numbers.
pub closed spec fn was_read(rx: &Receiver<WalRecord>, fill: usize) -> bool {
    call_ensures(fill_of, (rx,), fill)
}

/// Calls `read` on a queue and hands out what it gave.
fn reading<F: Fn(&Receiver<WalRecord>) -> usize>(read: F, rx: &Receiver<WalRecord>) -> (r: usize)
    requires
        call_requires(read, (rx,)),
    ensures
        call_ensures(read, (rx,), r),
{
    read(rx)
}

/// The breaker's state: whether the probe sheds load, and how many frames it has shed.
#[derive(Debug)]
pub struct Breaker {
    pub degraded: bool,
    pub dropped: u64,
}

/// How full a queue is, in whole percent.
pub open spec fn fill_pct(fill: int, capacity: int) -> int {
    fill * 100 / capacity
}

/// Whether load is shed after a look at a bounded queue: yes from the watermark on, no below half
/// of it, and as before in between.
pub open spec fn after_watermark(degraded: bool, pct: int, watermark: u8) -> bool {
    if pct >= watermark {
        true
    } else if pct < watermark / 2 {
        false
    } else {
        degraded
    }
}

/// The memory limit in bytes.
pub open spec fn ram_limit_bytes(cfg: Config) -> int {
    cfg.ram_limit_mb * 1024 * 1024
}

/// The sampled memory is above its limit. A sample that could not be taken is above nothing.
pub open spec fn ram_exceeded(cfg: Config, rss_pages: Option<u64>) -> bool {
    rss_pages matches Some(pages) && pages * 4096 > ram_limit_bytes(cfg)
}

/// The sampled memory is above four fifths of its limit.
pub open spec fn ram_high(cfg: Config, rss_pages: Option<u64>) -> bool {
    rss_pages matches Some(pages) && pages * 4096 > ram_limit_bytes(cfg) * 8 / 10
}

/// The sampled load is above its limit.
pub open spec fn load_exceeded(cfg: Config, load_pct: Option<u8>) -> bool {
    load_pct matches Some(pct) && pct > cfg.host_cpu_limit_pct
}

/// The sampled load is above four fifths of its limit.
pub open spec fn load_high(cfg: Config, load_pct: Option<u8>) -> bool {
    load_pct matches Some(pct) && pct > cfg.host_cpu_limit_pct * 8 / 10
}

/// Whether load is shed after a sample: yes if memory, load or the process's CPU use is above its
/// limit, no if CPU use is not and neither of the others is above four fifths of its limit, and as
/// before in between. Whether CPU use is above its limit may be unknown.
pub open spec fn after_sample(
    degraded: bool,
    cfg: Config,
    rss_pages: Option<u64>,
    load_pct: Option<u8>,
    cpu_exceeded: Option<bool>,
) -> bool {
    if ram_exceeded(cfg, rss_pages) || load_exceeded(cfg, load_pct) || cpu_exceeded == Some(true) {
        true
    } else if !ram_high(cfg, rss_pages) && !load_high(cfg, load_pct) {
        false
    } else {
        degraded
    }
}

impl Breaker {
    /// A breaker that sheds no load and has shed none.
    pub fn new() -> (r: Self)
        ensures
            !r.degraded,
            r.dropped == 0,
    {
        Breaker { degraded: false, dropped: 0 }
    }

    /// The probe sheds load.
    pub fn is_degraded(&self) -> (r: bool)
        ensures
            r == self.degraded,
    {
        self.degraded
    }

    /// Counts a frame that was shed. The count wraps around.
    pub fn count_drop(&mut self)
        ensures
            final(self).degraded == old(self).degraded,
            final(self).dropped == (old(self).dropped + 1) % 0x1_0000_0000_0000_0000,
    {
        self.dropped = self.dropped.wrapping_add(1);
    }

    /// A look at a queue with the given capacity and fill. A queue without bound decides nothing.
    pub fn watermark_check(&mut self, capacity: Option<usize>, fill: usize, watermark: u8)
        requires
            capacity != Some(0usize),
        ensures
            final(self).dropped == old(self).dropped,
            final(self).degraded == match capacity {
                Some(c) => after_watermark(
                    old(self).degraded,
                    fill_pct(fill as int, c as int),
                    watermark,
                ),
                None => old(self).degraded,
            },
            capacity matches Some(c) ==> (fill * 100 >= watermark * c ==> final(self).degraded) && (
            fill * 100 < (watermark / 2) * c ==> !final(self).degraded) && ((watermark / 2) * c
                <= fill * 100 < watermark * c ==> final(self).degraded == old(self).degraded),
    {
        proof {
            if let Some(c) = capacity {
                law_watermark_counts_the_queue(self.degraded, fill as int, c as int, watermark);
            }
        }
        if let Some(c) = capacity {
            let pct: u128 = fill as u128 * 100 / c as u128;
            if pct >= watermark as u128 {
                self.degraded = true;
            } else if pct < (watermark / 2) as u128 {
                self.degraded = false;
            }
        }
    }

    /// A look at the writer's queue. The fill is the queue's at some moment of the call.
    pub fn hot_path_check(&mut self, rx: &Receiver<WalRecord>, watermark: u8)
        requires
            queue_capacity(*rx) != Some(0usize),
        ensures
            final(self).dropped == old(self).dropped,
            match queue_capacity(*rx) {
                Some(c) => exists|fill: usize|
                    #[trigger] was_read(rx, fill) && fill <= c && final(self).degraded
                        == after_watermark(
                        old(self).degraded,
                        fill_pct(fill as int, c as int),
                        watermark,
                    ) && (fill * 100 >= watermark * c ==> final(self).degraded) && (fill * 100 < (
                    watermark / 2) * c ==> !final(self).degraded) && ((watermark / 2) * c <= fill
                        * 100 < watermark * c ==> final(self).degraded == old(self).degraded),
                None => final(self).degraded == old(self).degraded,
            },
    {
        let capacity: Option<usize> = capacity_of(rx);
        let fill: usize = reading(fill_of, rx);
        assert(was_read(rx, fill));
        proof {
            if let Some(c) = capacity {
                law_watermark_counts_the_queue(self.degraded, fill as int, c as int, watermark);
            }
        }
        self.watermark_check(capacity, fill, watermark);
    }

    /// A look at the writer's queue, if it can hold records at all. A queue without any place has
    /// no fill in percent: then nothing changes and the result is `false`.
    pub fn try_hot_path_check(&mut self, rx: &Receiver<WalRecord>, watermark: u8) -> (r: bool)
        ensures
            r == (queue_capacity(*rx) != Some(0usize)),
            !r ==> *final(self) == *old(self),
            final(self).dropped == old(self).dropped,
            r ==> match queue_capacity(*rx) {
                Some(c) => exists|fill: usize|
                    #[trigger] was_read(rx, fill) && fill <= c && final(self).degraded
                        == after_watermark(
                        old(self).degraded,
                        fill_pct(fill as int, c as int),
                        watermark,
                    ) && (fill * 100 >= watermark * c ==> final(self).degraded) && (fill * 100 < (
                    watermark / 2) * c ==> !final(self).degraded) && ((watermark / 2) * c <= fill
                        * 100 < watermark * c ==> final(self).degraded == old(self).degraded),
                None => final(self).degraded == old(self).degraded,
            },
    {
        let capacity: Option<usize> = capacity_of(rx);
        match capacity {
            Some(c) => {
                if c == 0 {
                    return false;
                }
            },
            None => {},
        }
        self.hot_path_check(rx, watermark);
        true
    }

    /// A sample of the process's resident memory, in pages of 4096 bytes, of the host's load, in
    /// percent of its cores, and of whether the process uses more CPU than its limit. Each is absent
    /// if it could not be taken.
    pub fn background_sample(
        &mut self,
        cfg: &Config,
        rss_pages: Option<u64>,
        load_pct: Option<u8>,
        cpu_exceeded: Option<bool>,
    )
        ensures
            final(self).dropped == old(self).dropped,
            final(self).degraded == after_sample(
                old(self).degraded,
                *cfg,
                rss_pages,
                load_pct,
                cpu_exceeded,
            ),
            cpu_exceeded == Some(true) ==> final(self).degraded,
    {
        let mut should_recover: bool = true;
        if let Some(pages) = rss_pages {
            let rss_bytes: u128 = pages as u128 * 4096;
            let limit: u128 = cfg.ram_limit_mb as u128 * 1024 * 1024;
            if rss_bytes > limit {
                self.degraded = true;
                should_recover = false;
            } else if rss_bytes > limit * 8 / 10 {
                should_recover = false;
            }
        }
        if let Some(pct) = load_pct {
            if pct > cfg.host_cpu_limit_pct {
                self.degraded = true;
                should_recover = false;
            } else if pct as u32 > cfg.host_cpu_limit_pct as u32 * 8 / 10 {
                should_recover = false;
            }
        }
        if let Some(exceeded) = cpu_exceeded {
            if exceeded {
                self.degraded = true;
                should_recover = false;
            }
        }
        if should_recover {
            self.degraded = false;
        }
    }
}

impl Default for Breaker {
    fn default() -> (r: Self)
        ensures
            !r.degraded,
            r.dropped == 0,
    {
        Breaker::new()
    }
}

/// What `was_read` says is that the queue itself gave the number: nothing else makes it so, so a
/// decision that rests on such a number rests on the queue's own length.
pub(crate) proof fn law_reading_is_the_length_of_the_queue(rx: &Receiver<WalRecord>, fill: usize)
    ensures
        was_read(rx, fill) <==> call_ensures(fill_of, (rx,), fill),
        was_read(rx, fill) && queue_capacity(*rx) is Some ==> fill <= queue_capacity(*rx)->0,
{
}

/// The watermark is a share of the whole queue, however long it is: `fill` records of `capacity`
/// shed load once they are `watermark` hundredths of the places, end the shedding below half that
/// watermark, and leave everything as it was in between.
pub proof fn law_watermark_counts_the_queue(
    degraded: bool,
    fill: int,
    capacity: int,
    watermark: u8,
)
    requires
        0 <= fill,
        0 < capacity,
    ensures
        fill * 100 >= watermark * capacity ==> after_watermark(
            degraded,
            fill_pct(fill, capacity),
            watermark,
        ),
        fill * 100 < (watermark / 2) * capacity ==> !after_watermark(
            degraded,
            fill_pct(fill, capacity),
            watermark,
        ),
        (watermark / 2) * capacity <= fill * 100 < watermark * capacity ==> after_watermark(
            degraded,
            fill_pct(fill, capacity),
            watermark,
        ) == degraded,
{
    let x: int = fill * 100;
    let w: int = watermark as int;
    let h: int = (watermark / 2) as int;
    assert((x >= w * capacity) == (x / capacity >= w)) by (nonlinear_arith)
        requires
            0 < capacity,
            0 <= x,
    ;
    assert((x >= h * capacity) == (x / capacity >= h)) by (nonlinear_arith)
        requires
            0 < capacity,
            0 <= x,
    ;
}

/// A sample decides by the sizes themselves. Memory counts in pages of 4096 bytes against a limit in
/// units of 1048576 bytes. Anything above its limit sheds load, everything at most four fifths of it
/// ends the shedding, and in between nothing changes. What could not be measured decides nothing.
pub proof fn law_sample_measures_against_the_limits(
    degraded: bool,
    cfg: Config,
    rss_pages: Option<u64>,
    load_pct: Option<u8>,
    cpu_exceeded: Option<bool>,
)
    ensures
        ({
            let after = after_sample(degraded, cfg, rss_pages, load_pct, cpu_exceeded);
            let ram: int = if rss_pages is Some {
                rss_pages->0 * 4096
            } else {
                0
            };
            let load: int = if load_pct is Some {
                load_pct->0 as int
            } else {
                0
            };
            let over = ram > cfg.ram_limit_mb * 1048576 || load > cfg.host_cpu_limit_pct
                || cpu_exceeded == Some(true);
            let high = 5 * ram > 4 * (cfg.ram_limit_mb * 1048576) || 5 * load > 4
                * cfg.host_cpu_limit_pct;
            &&& over ==> after
            &&& !over && !high ==> !after
            &&& !over && high ==> after == degraded
        }),
{
}

/// The breaker recovers by itself: a queue below half the watermark ends the shedding, and so does
/// a sample in which memory and load are both at most four fifths of their limits and CPU use is not
/// above its own.
pub proof fn law_breaker_recovers(
    degraded: bool,
    pct: int,
    watermark: u8,
    cfg: Config,
    rss_pages: u64,
    load_pct: u8,
)
    ensures
        pct < watermark / 2 ==> !after_watermark(degraded, pct, watermark),
        rss_pages * 4096 <= ram_limit_bytes(cfg) * 8 / 10 && load_pct <= cfg.host_cpu_limit_pct * 8
            / 10 ==> !after_sample(degraded, cfg, Some(rss_pages), Some(load_pct), Some(false)),
{
}

/// Each limit trips the breaker by itself, whatever the other samples are.
pub proof fn law_each_limit_trips(
    degraded: bool,
    cfg: Config,
    rss_pages: Option<u64>,
    load_pct: Option<u8>,
    cpu_exceeded: Option<bool>,
)
    requires
        ram_exceeded(cfg, rss_pages) || load_exceeded(cfg, load_pct) || cpu_exceeded == Some(true),
    ensures
        after_sample(degraded, cfg, rss_pages, load_pct, cpu_exceeded),
{
}

/// The breaker does not flicker: after a look at the queue, a fill on the same side of half the
/// watermark, up to the watermark, changes nothing.
pub proof fn law_breaker_does_not_flicker(degraded: bool, pct: int, watermark: u8)
    ensures
        watermark / 2 <= pct < watermark ==> after_watermark(degraded, pct, watermark) == degraded,
        after_watermark(after_watermark(degraded, pct, watermark), pct, watermark)
            == after_watermark(degraded, pct, watermark),
{
}

} // verus!
