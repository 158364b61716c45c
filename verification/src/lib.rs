//! A write-ahead log: append length-prefixed, checksummed records to an
//! exclusive directory of segment files, and iterate them back.
//!
//! ```text
//! Frame := [ len: u32 LE ][ payload: len bytes ][ crc: u32 LE ]
//! crc    = crc32_ieee( len_le_bytes ++ payload )
//! ```
//!
//! The crate holds the format and the decisions; the files are the caller's.
//! [`WalWriter`] names the commands that append, flush, sync and rotate,
//! [`WalReader`] asks for the bytes and files that it needs, and both are told how
//! each request went.
//!
//! # Durability
//!
//! [`WalWriter::push`] asks for no more than a buffer copy, unless the record
//! would exceed the live segment and rotation has to seal the previous file.
//! Two barriers turn pushed records into stored ones, and they form a hierarchy:
//! [`flush`](WalWriter::flush) makes records *visible* to a reader,
//! [`sync`](WalWriter::sync) makes them *durable*, and sync implies flush.
//! Rotation flushes and syncs the sealed file before creating the next one. The laws
//! in [`course`] and [`store`] say so.
//!
//! # Recovery
//!
//! A record on disk can be a prefix of the record that was written: buffers
//! split frames, writes are short, page-cache writeback happens per page, and
//! hardware guarantees atomicity only per sector. That is why frames carry a
//! checksum rather than a length alone.
//!
//! [`WalReader`] therefore distinguishes a clean end of file ([`Step::End`]) from a
//! [`TruncatedTail`](ReadError::TruncatedTail), the ordinary result of a crash
//! mid-append, from a [`ChecksumMismatch`](ReadError::ChecksumMismatch), which
//! means damage. It stops at the first sign of either, also at a torn tail on
//! a non-last segment: later files are orphans until the torn file is truncated
//! in place. A log that reads as a short prefix is recoverable; one that resumes
//! past a hole is a lie. The laws in [`replay`] and [`iteration`] say so.
//!
//! # In numbers
//!
//! What is in a file and in its name, byte by byte, is in [`layout`]; what a writer and a
//! reader say to each thing that can happen to them in [`conduct`]; and which bytes of
//! which files come out as records, in which order, in [`account`].

pub mod account;
pub mod conduct;
pub mod course;
pub mod crc;
pub mod error;
pub mod format;
pub mod iteration;
pub mod layout;
pub mod reader;
pub mod replay;
pub mod segment;
pub mod store;
pub mod text;
pub mod utf8;
pub mod writer;

pub use error::{IoError, IoErrorKind, ReadError, WriteError};
pub use format::MAX_RECORD_SIZE;
pub use reader::{Step, Strings, WalReader};
pub use writer::{Command, Progress, WalWriter};
