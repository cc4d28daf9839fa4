//! A codec for USTAR tape archives.
//!
//! An archive is a sequence of 512-byte records: one header record per
//! entry, followed for regular files by the content, zero-padded to the next
//! record boundary, and closed by two all-zero records.  The modules build
//! such a sequence from a description of a file tree and scan one back into
//! the list of entries to recreate.
pub mod numtext;
pub mod header;
pub mod accounts;
pub mod entry;
pub mod gzip;
pub mod packing;
pub mod unpacking;
pub mod roundtrip;
