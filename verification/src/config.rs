//! The probe's parameters.
use crate::text::{self, split_list};
use vstd::prelude::*;
use vstd::string::StringExecFns;

verus! {

/// The parameters that the probe's decisions depend on.
#[derive(Debug, Clone)]
pub struct Config {
    /// The interfaces to capture on.
    pub interfaces: Vec<String>,
    /// The ports to capture; all of them if there is none.
    pub capture_ports: Vec<u16>,
    /// The payload bytes to keep of a packet.
    pub slice_bytes: usize,
    /// The bytes that a segment may hold.
    pub segment_size: u64,
    /// The seconds after which a segment that was written to is closed.
    pub rotate_interval_secs: u64,
    /// The segments that may exist at a time.
    pub max_segments: usize,
    /// The records that the queue to the writer holds.
    pub queue_capacity: usize,
    /// The queue fill, in percent, at which the probe starts to shed load.
    pub queue_high_watermark: u8,
    /// The process memory, in megabytes, above which the probe sheds load.
    pub ram_limit_mb: u64,
    /// The host load, in percent, above which the probe sheds load.
    pub host_cpu_limit_pct: u8,
    /// The directory of the segments.
    pub shm_path: String,
    /// The address on which the metrics are served.
    pub metrics_addr: String,
    /// The seconds between two samples of memory and load.
    pub sampler_interval_secs: u64,
}

/// Why a configuration is refused.
#[derive(Debug, Clone, Copy, PartialEq, Eq, Structural)]
pub enum ConfigError {
    NoInterface,
    SliceBytes,
    SegmentSize,
    MaxSegments,
    QueueHighWatermark,
}

/// The text for an error.
pub open spec fn message_of(e: ConfigError) -> Seq<char> {
    match e {
        ConfigError::NoInterface => "至少需要一个接口 --interface"@,
        ConfigError::SliceBytes => "slice_bytes 非法"@,
        ConfigError::SegmentSize => "segment_size 非法"@,
        ConfigError::MaxSegments => "max_segments >= 1"@,
        ConfigError::QueueHighWatermark => "queue_high_watermark 应在 0-100"@,
    }
}

impl ConfigError {
    /// The text for this error.
    pub fn message(&self) -> (r: String)
        ensures
            r@ == message_of(*self),
    {
        match self {
            ConfigError::NoInterface => String::from_str("至少需要一个接口 --interface"),
            ConfigError::SliceBytes => String::from_str("slice_bytes 非法"),
            ConfigError::SegmentSize => String::from_str("segment_size 非法"),
            ConfigError::MaxSegments => String::from_str("max_segments >= 1"),
            ConfigError::QueueHighWatermark => String::from_str("queue_high_watermark 应在 0-100"),
        }
    }
}

impl Default for Config {
    fn default() -> (r: Self)
        ensures
            r.interfaces@ == Seq::<String>::empty(),
            r.capture_ports@ == Seq::<u16>::empty(),
            r.slice_bytes == 4096,
            r.segment_size == 64 * 1024 * 1024,
            r.rotate_interval_secs == 5,
            r.max_segments == 8,
            r.queue_capacity == 100_000,
            r.queue_high_watermark == 80,
            r.ram_limit_mb == 64,
            r.host_cpu_limit_pct == 85,
            r.shm_path@ == "/dev/shm/sov-probe"@,
            r.metrics_addr@ == "0.0.0.0:9101"@,
            r.sampler_interval_secs == 1,
    {
        Config {
            interfaces: Vec::new(),
            capture_ports: Vec::new(),
            slice_bytes: 4096,
            segment_size: 64 * 1024 * 1024,
            rotate_interval_secs: 5,
            max_segments: 8,
            queue_capacity: 100_000,
            queue_high_watermark: 80,
            ram_limit_mb: 64,
            host_cpu_limit_pct: 85,
            shm_path: String::from_str("/dev/shm/sov-probe"),
            metrics_addr: String::from_str("0.0.0.0:9101"),
            sampler_interval_secs: 1,
        }
    }
}

/// What the command line says. Only the interfaces must be given, as a list with commas.
#[derive(Debug, Clone)]
pub struct Overrides {
    pub interface: String,
    pub capture_ports: Option<Vec<u16>>,
    pub slice_bytes: Option<usize>,
    pub segment_size: Option<u64>,
    pub rotate_interval: Option<u64>,
    pub shm_path: Option<String>,
}

/// The value given on the command line, or else the configured one.
pub open spec fn given_or<T>(given: Option<T>, configured: T) -> T {
    match given {
        Some(v) => v,
        None => configured,
    }
}

impl Config {
    /// The configuration with what the command line says put over it.
    pub fn overridden(self, cli: Overrides) -> (r: Self)
        ensures
            text::texts(r.interfaces@) == text::list_from(cli.interface@, 0),
            r.interfaces@.len() > 0,
            r.capture_ports == given_or(cli.capture_ports, self.capture_ports),
            r.slice_bytes == given_or(cli.slice_bytes, self.slice_bytes),
            r.segment_size == given_or(cli.segment_size, self.segment_size),
            r.rotate_interval_secs == given_or(cli.rotate_interval, self.rotate_interval_secs),
            r.shm_path == given_or(cli.shm_path, self.shm_path),
            r.max_segments == self.max_segments,
            r.queue_capacity == self.queue_capacity,
            r.queue_high_watermark == self.queue_high_watermark,
            r.ram_limit_mb == self.ram_limit_mb,
            r.host_cpu_limit_pct == self.host_cpu_limit_pct,
            r.metrics_addr == self.metrics_addr,
            r.sampler_interval_secs == self.sampler_interval_secs,
            cli.capture_ports matches Some(v) ==> r.capture_ports == v,
            cli.capture_ports is None ==> r.capture_ports == self.capture_ports,
            cli.slice_bytes matches Some(v) ==> r.slice_bytes == v,
            cli.slice_bytes is None ==> r.slice_bytes == self.slice_bytes,
            cli.segment_size matches Some(v) ==> r.segment_size == v,
            cli.segment_size is None ==> r.segment_size == self.segment_size,
            cli.rotate_interval matches Some(v) ==> r.rotate_interval_secs == v,
            cli.rotate_interval is None ==> r.rotate_interval_secs == self.rotate_interval_secs,
            cli.shm_path matches Some(v) ==> r.shm_path == v,
            cli.shm_path is None ==> r.shm_path == self.shm_path,
    {
        Config {
            interfaces: split_list(cli.interface.as_str()),
            capture_ports: match cli.capture_ports {
                Some(ports) => ports,
                None => self.capture_ports,
            },
            slice_bytes: match cli.slice_bytes {
                Some(v) => v,
                None => self.slice_bytes,
            },
            segment_size: match cli.segment_size {
                Some(v) => v,
                None => self.segment_size,
            },
            rotate_interval_secs: match cli.rotate_interval {
                Some(v) => v,
                None => self.rotate_interval_secs,
            },
            max_segments: self.max_segments,
            queue_capacity: self.queue_capacity,
            queue_high_watermark: self.queue_high_watermark,
            ram_limit_mb: self.ram_limit_mb,
            host_cpu_limit_pct: self.host_cpu_limit_pct,
            shm_path: match cli.shm_path {
                Some(v) => v,
                None => self.shm_path,
            },
            metrics_addr: self.metrics_addr,
            sampler_interval_secs: self.sampler_interval_secs,
        }
    }

    /// The first fault of a configuration, in the order of its checks.
    pub open spec fn first_fault(self) -> Option<ConfigError> {
        if self.interfaces@.len() == 0 {
            Some(ConfigError::NoInterface)
        } else if self.slice_bytes == 0 || self.slice_bytes > 65536 {
            Some(ConfigError::SliceBytes)
        } else if self.segment_size == 0 {
            Some(ConfigError::SegmentSize)
        } else if self.max_segments == 0 {
            Some(ConfigError::MaxSegments)
        } else if self.queue_high_watermark > 100 {
            Some(ConfigError::QueueHighWatermark)
        } else {
            None
        }
    }

    /// Refuses a configuration that the probe cannot run with.
    pub fn validate(&self) -> (r: Result<(), ConfigError>)
        ensures
            match self.first_fault() {
                Some(e) => r == Err::<(), ConfigError>(e),
                None => r == Ok::<(), ConfigError>(()),
            },
            r is Ok <==> self.interfaces@.len() > 0 && 1 <= self.slice_bytes <= 65536
                && self.segment_size > 0 && self.max_segments > 0 && self.queue_high_watermark
                <= 100,
    {
        if self.interfaces.len() == 0 {
            return Err(ConfigError::NoInterface);
        }
        if self.slice_bytes == 0 || self.slice_bytes > 65536 {
            return Err(ConfigError::SliceBytes);
        }
        if self.segment_size == 0 {
            return Err(ConfigError::SegmentSize);
        }
        if self.max_segments == 0 {
            return Err(ConfigError::MaxSegments);
        }
        if self.queue_high_watermark > 100 {
            return Err(ConfigError::QueueHighWatermark);
        }
        Ok(())
    }
}

/// A configuration is accepted exactly if it names an interface, keeps between 1 and 65536 bytes of a
/// payload, has room in its segments, allows a segment, and has a watermark of at most 100 percent.
/// Otherwise it is refused for the first of these that fails.
pub proof fn law_configuration_is_refused_for_its_first_fault(cfg: Config)
    ensures
        ({
            let named = cfg.interfaces@.len() > 0;
            let sliced = 1 <= cfg.slice_bytes <= 65536;
            let sized = cfg.segment_size > 0;
            let kept = cfg.max_segments > 0;
            let marked = cfg.queue_high_watermark <= 100;
            &&& cfg.first_fault() is None <==> named && sliced && sized && kept && marked
            &&& cfg.first_fault() == Some(ConfigError::NoInterface) <==> !named
            &&& cfg.first_fault() == Some(ConfigError::SliceBytes) <==> named && !sliced
            &&& cfg.first_fault() == Some(ConfigError::SegmentSize) <==> named && sliced && !sized
            &&& cfg.first_fault() == Some(ConfigError::MaxSegments) <==> named && sliced && sized
                && !kept
            &&& cfg.first_fault() == Some(ConfigError::QueueHighWatermark) <==> named && sliced
                && sized && kept && !marked
        }),
{
}

} // verus!
