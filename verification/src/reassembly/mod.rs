//! The receiving side: chunks of segments are decrypted, placed by their offsets and accounted for.
pub mod blind;
pub mod chunks;
pub mod cipher;
pub mod hexid;
pub mod laws;
pub mod reassembler;
pub mod segment;
