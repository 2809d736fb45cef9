//! Verified core of an SFV (Simple File Verification) checksum tool.
//!
//! The library computes CRC32 checksums of byte streams, enumerates a
//! snapshot of a directory tree into a deterministically sorted file list,
//! renders and parses the SFV text format, and judges per-record
//! verification outcomes. File and console I/O live outside the library;
//! callers hand in plain bytes and get structured values back.

pub mod checksum;
pub mod codec;
pub mod hex;
pub mod listing;
pub mod outcome;
pub mod relpath;
