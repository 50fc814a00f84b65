//! The write-ahead log: its record format, its segment files and its writer.
pub mod header;
pub mod laws;
pub mod layout;
pub mod retention;
pub mod rotate;
pub mod writer;
