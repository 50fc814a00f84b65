//! From captured frames to records.
pub mod frame;
pub mod laws;
pub mod slicer;
