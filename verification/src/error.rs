//! What can go wrong while appending to a log and while reading one.

use std::string::FromUtf8Error;
use vstd::prelude::*;
use vstd::string::*;

use crate::format::MAX_RECORD_SIZE;
use crate::text::{decimal, hex_padded, push_decimal, push_hex_padded};

verus! {

/// The kinds of failed file operation that the log tells apart.
#[derive(Debug, PartialEq, Eq, Structural, Clone, Copy)]
pub enum IoErrorKind {
    AlreadyExists,
    Interrupted,
    InvalidInput,
    Other,
}

/// A failed operation on a file or a directory.
#[derive(Debug)]
pub struct IoError {
    pub kind: IoErrorKind,
    /// The failure in words.
    pub message: String,
}

/// What an [`IoError`] stands for.
pub struct IoErrorView {
    pub kind: IoErrorKind,
    pub message: Seq<char>,
}

impl View for IoError {
    type V = IoErrorView;

    open spec fn view(&self) -> IoErrorView {
        IoErrorView { kind: self.kind, message: self.message@ }
    }
}

/// Failures that can occur while appending to a segment.
///
/// Kept separate from [`ReadError`] because the two domains are disjoint: a
/// checksum can only fail on the way in from disk, and a record can only be
/// rejected for size on the way out to it. One combined enum would force every
/// caller to match arms that are structurally unreachable.
#[derive(Debug)]
pub enum WriteError {
    Io(IoError),
    /// A segment with this name already exists. Two writers appending to one
    /// segment is a corrupt log, so this is refused rather than resumed.
    AlreadyExists { path: String },
    /// The segments in the directory are not `1..=n`: this one is not there.
    MissingSegment { seq: u64 },
    /// Zero-length records carry no information, and forbidding them means
    /// `len == 0` is *always* an invalid frame: a cheap second signal that the
    /// reader is looking at padding rather than data.
    EmptyRecord,
    RecordTooLarge { len: usize },
}

/// What a [`WriteError`] stands for.
pub enum WriteErrorView {
    Io { error: IoErrorView },
    AlreadyExists { path: Seq<char> },
    MissingSegment { seq: u64 },
    EmptyRecord,
    RecordTooLarge { len: nat },
}

impl View for WriteError {
    type V = WriteErrorView;

    open spec fn view(&self) -> WriteErrorView {
        match *self {
            WriteError::Io(error) => WriteErrorView::Io { error: error@ },
            WriteError::AlreadyExists { path } => WriteErrorView::AlreadyExists { path: path@ },
            WriteError::MissingSegment { seq } => WriteErrorView::MissingSegment { seq },
            WriteError::EmptyRecord => WriteErrorView::EmptyRecord,
            WriteError::RecordTooLarge { len } => WriteErrorView::RecordTooLarge {
                len: len as nat,
            },
        }
    }
}

/// Failures that can occur while iterating a segment.
///
/// Every variant that indicates damage carries the file and the byte `offset` of
/// the frame it was found at; diagnosing a corrupt log without a location is
/// close to impossible.
#[derive(Debug)]
pub enum ReadError {
    Io(IoError),
    /// The segments in the directory are not `1..=n`: this one is not there.
    MissingSegment { seq: u64 },
    /// The bytes at `offset` did not match their checksum. Something rotted.
    ChecksumMismatch { path: String, offset: u64, expected: u32, actual: u32 },
    /// The file ends part-way through the frame at `offset`.
    ///
    /// This is *normal*: it is what a crash mid-append looks like on disk, and
    /// is deliberately distinct from [`ReadError::ChecksumMismatch`] so a caller
    /// can tell "we crashed here" from "these bytes are damaged".
    TruncatedTail { path: String, offset: u64 },
    /// The length prefix at `offset` is not a value the writer could have
    /// produced. Checked *before* the payload is read, since the checksum cannot
    /// vouch for a length until `len` bytes have already been read.
    InvalidLength { path: String, offset: u64, len: u32 },
    /// Only produced by `WalReader::strings`.
    InvalidUtf8 { path: String, offset: u64, source: FromUtf8Error },
}

/// How a [`WriteError`] reads.
pub open spec fn write_error_text(error: WriteError) -> Seq<char> {
    match error {
        WriteError::Io(e) => "wal write: "@ + e.message@,
        WriteError::AlreadyExists { path } => "wal segment already exists: "@ + path@,
        WriteError::MissingSegment { seq } => "wal write: segment "@ + decimal(seq as nat)
            + " is missing"@,
        WriteError::EmptyRecord => "wal write: empty records are not allowed"@,
        WriteError::RecordTooLarge { len } => "wal write: record of "@ + decimal(len as nat)
            + " bytes exceeds the "@ + decimal(MAX_RECORD_SIZE as nat) + " byte maximum"@,
    }
}

/// Whether `text` is how a [`ReadError`] reads. The words for bytes that are not
/// UTF-8 are those that their own error displays.
pub open spec fn is_read_error_text(error: ReadError, text: Seq<char>) -> bool {
    match error {
        ReadError::Io(e) => text == "wal read: "@ + e.message@,
        ReadError::MissingSegment { seq } => text == "wal read: segment "@ + decimal(seq as nat)
            + " is missing"@,
        ReadError::ChecksumMismatch { path: _, offset, expected, actual } => text
            == "wal read: checksum mismatch at offset "@ + decimal(offset as nat) + " (stored 0x"@
            + hex_padded(expected as nat, 8) + ", computed 0x"@ + hex_padded(actual as nat, 8)
            + ")"@,
        ReadError::TruncatedTail { path: _, offset } => text
            == "wal read: truncated frame at offset "@ + decimal(offset as nat),
        ReadError::InvalidLength { path: _, offset, len } => text
            == "wal read: invalid record length "@ + decimal(len as nat) + " at offset "@
            + decimal(offset as nat),
        ReadError::InvalidUtf8 { path: _, offset, source } => exists|words: String|
            #[trigger] to_string_from_display_ensures(&source, words) && text
                == "wal read: record at offset "@ + decimal(offset as nat) + " is not utf-8: "@
                + words@,
    }
}

impl WriteError {
    /// The error in words.
    pub fn message(&self) -> (text: String)
        ensures
            text@ == write_error_text(*self),
    {
        let mut text = String::new();
        match self {
            WriteError::Io(e) => {
                text.append("wal write: ");
                text.append(e.message.as_str());
            },
            WriteError::AlreadyExists { path } => {
                text.append("wal segment already exists: ");
                text.append(path.as_str());
            },
            WriteError::MissingSegment { seq } => {
                text.append("wal write: segment ");
                push_decimal(&mut text, *seq);
                text.append(" is missing");
            },
            WriteError::EmptyRecord => {
                text.append("wal write: empty records are not allowed");
            },
            WriteError::RecordTooLarge { len } => {
                text.append("wal write: record of ");
                push_decimal(&mut text, *len as u64);
                text.append(" bytes exceeds the ");
                push_decimal(&mut text, MAX_RECORD_SIZE as u64);
                text.append(" byte maximum");
            },
        }
        assert(text@ =~= write_error_text(*self));
        text
    }
}

impl ReadError {
    /// The error in words.
    pub fn message(&self) -> (text: String)
        ensures
            is_read_error_text(*self, text@),
    {
        let mut text = String::new();
        match self {
            ReadError::Io(e) => {
                text.append("wal read: ");
                text.append(e.message.as_str());
                assert(text@ =~= "wal read: "@ + e.message@);
            },
            ReadError::MissingSegment { seq } => {
                text.append("wal read: segment ");
                push_decimal(&mut text, *seq);
                text.append(" is missing");
                assert(text@ =~= "wal read: segment "@ + decimal(*seq as nat) + " is missing"@);
            },
            ReadError::ChecksumMismatch { path: _, offset, expected, actual } => {
                text.append("wal read: checksum mismatch at offset ");
                push_decimal(&mut text, *offset);
                text.append(" (stored 0x");
                push_hex_padded(&mut text, *expected, 8);
                text.append(", computed 0x");
                push_hex_padded(&mut text, *actual, 8);
                text.append(")");
                assert(text@ =~= "wal read: checksum mismatch at offset "@ + decimal(
                    *offset as nat,
                ) + " (stored 0x"@ + hex_padded(*expected as nat, 8) + ", computed 0x"@
                    + hex_padded(*actual as nat, 8) + ")"@);
            },
            ReadError::TruncatedTail { path: _, offset } => {
                text.append("wal read: truncated frame at offset ");
                push_decimal(&mut text, *offset);
                assert(text@ =~= "wal read: truncated frame at offset "@ + decimal(*offset as nat));
            },
            ReadError::InvalidLength { path: _, offset, len } => {
                text.append("wal read: invalid record length ");
                push_decimal(&mut text, *len as u64);
                text.append(" at offset ");
                push_decimal(&mut text, *offset);
                assert(text@ =~= "wal read: invalid record length "@ + decimal(*len as nat)
                    + " at offset "@ + decimal(*offset as nat));
            },
            ReadError::InvalidUtf8 { path: _, offset, source } => {
                text.append("wal read: record at offset ");
                push_decimal(&mut text, *offset);
                text.append(" is not utf-8: ");
                let words: String = source.to_string();
                text.append(words.as_str());
                assert(text@ =~= "wal read: record at offset "@ + decimal(*offset as nat)
                    + " is not utf-8: "@ + words@);
            },
        }
        text
    }
}

impl vstd::std_specs::convert::FromSpecImpl<IoError> for WriteError {
    open spec fn obeys_from_spec() -> bool {
        true
    }

    open spec fn from_spec(e: IoError) -> Self {
        WriteError::Io(e)
    }
}

impl From<IoError> for WriteError {
    fn from(e: IoError) -> (error: Self) {
        WriteError::Io(e)
    }
}

impl vstd::std_specs::convert::FromSpecImpl<IoError> for ReadError {
    open spec fn obeys_from_spec() -> bool {
        true
    }

    open spec fn from_spec(e: IoError) -> Self {
        ReadError::Io(e)
    }
}

impl From<IoError> for ReadError {
    fn from(e: IoError) -> (error: Self) {
        ReadError::Io(e)
    }
}

} // verus!
