//! An out-of-band network probe: frames are cut to their heads, written as records of a
//! write-ahead log, rotated through a bounded set of segment files, and put together again on
//! the receiving side.
pub mod capture;
pub mod config;
pub mod endian;
pub mod genwal;
pub mod guard;
pub mod metrics;
pub mod parse;
pub mod pcap;
pub mod reassembly;
pub mod text;
pub mod text_laws;
pub mod wal;
