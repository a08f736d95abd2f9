//! A portability linter for tar archives.
//!
//! The library decodes a byte stream as a sequence of fixed-size header
//! blocks plus payload blocks per the POSIX ustar model (and its PAX, GNU
//! and V7 variants) and reports every deviation from a strict, fully
//! portable subset of the format.

pub mod issues;
pub mod lint;
pub mod header;
pub mod pax;
pub mod archive;
