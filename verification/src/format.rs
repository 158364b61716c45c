//! On-disk frame format shared by the writer and the reader.
//!
//! ```text
//! Frame := [ len: u32 LE ][ payload: len bytes ][ crc: u32 LE ]
//! crc    = crc32_ieee( len_le_bytes ++ payload )
//! ```
//!
//! The checksum deliberately covers the length prefix as well as the payload. A
//! corrupted length that was *not* checksummed would be undetectable: the reader
//! would consume the wrong number of bytes and desynchronise from every frame
//! that follows, turning one bad bit into a destroyed log.

use vstd::prelude::*;

use crate::crc::crc32;

verus! {

/// Largest record the log will accept, in bytes.
///
/// This is a property of the *format*, not a tuning knob. A writer that emitted
/// larger records than a reader accepted would make a configuration mismatch
/// indistinguishable from corruption.
pub const MAX_RECORD_SIZE: usize = 64 * 1024 * 1024;

/// Width of the length prefix, in bytes.
pub const LEN_SIZE: usize = 4;

/// Width of the checksum, in bytes.
pub const CRC_SIZE: usize = 4;

/// Bytes that a frame adds to its payload.
pub const FRAME_OVERHEAD: usize = LEN_SIZE + CRC_SIZE;

/// Default size of the writer's userspace buffer.
pub const DEFAULT_CAPACITY: usize = 8 * 1024;

/// The number that four bytes hold, least significant byte first.
pub open spec fn le_value(bytes: Seq<u8>) -> nat {
    (bytes[0] + 256 * bytes[1] + 65536 * bytes[2] + 16777216 * bytes[3]) as nat
}

/// The four bytes that hold `n`, least significant byte first.
pub open spec fn le_bytes(n: nat) -> Seq<u8> {
    seq![
        (n % 256) as u8,
        (n / 256 % 256) as u8,
        (n / 65536 % 256) as u8,
        (n / 16777216 % 256) as u8,
    ]
}

/// Whether the log accepts `record`.
pub open spec fn valid_record(record: Seq<u8>) -> bool {
    1 <= record.len() <= MAX_RECORD_SIZE
}

/// The checksum that a frame with this payload carries.
pub open spec fn frame_checksum(record: Seq<u8>) -> u32 {
    crc32(le_bytes(record.len()) + record)
}

/// The frame that holds `record`.
pub open spec fn frame(record: Seq<u8>) -> Seq<u8> {
    le_bytes(record.len()) + record + le_bytes(frame_checksum(record) as nat)
}

/// The length of the frame of a record of `len` bytes.
pub open spec fn frame_len(len: nat) -> nat {
    len + FRAME_OVERHEAD as nat
}

/// The frames of `records`, one after the other.
pub open spec fn frames(records: Seq<Seq<u8>>) -> Seq<u8>
    decreases records.len(),
{
    if records.len() == 0 {
        Seq::empty()
    } else {
        frames(records.drop_last()) + frame(records.last())
    }
}

/// What the bytes from the start of a frame onwards say about that frame.
pub enum Verdict {
    /// The bytes end before the frame does.
    Incomplete,
    /// The length prefix is one that the writer never produces.
    InvalidLength { len: nat },
    /// The stored checksum is not that of the length prefix and the payload.
    Mismatch { expected: u32, actual: u32 },
    /// An intact frame with this payload.
    Record { payload: Seq<u8> },
}

/// The payload of the frame at the start of `bytes`, where it is all there.
pub open spec fn payload_of(bytes: Seq<u8>) -> Seq<u8> {
    bytes.subrange(LEN_SIZE as int, LEN_SIZE + le_value(bytes))
}

/// The checksum stored in the frame at the start of `bytes`, where it is all there.
pub open spec fn stored_checksum(bytes: Seq<u8>) -> u32 {
    let end = LEN_SIZE + le_value(bytes);
    le_value(bytes.subrange(end, end + CRC_SIZE)) as u32
}

/// What `bytes` say about the frame that they start with. What follows the
/// frame has no say in it.
pub open spec fn judge(bytes: Seq<u8>) -> Verdict {
    if bytes.len() < LEN_SIZE {
        Verdict::Incomplete
    } else if !(1 <= le_value(bytes) <= MAX_RECORD_SIZE) {
        Verdict::InvalidLength { len: le_value(bytes) }
    } else if bytes.len() < frame_len(le_value(bytes)) {
        Verdict::Incomplete
    } else {
        let expected = stored_checksum(bytes);
        let actual = crc32(bytes.take(LEN_SIZE + le_value(bytes)));
        if expected == actual {
            Verdict::Record { payload: payload_of(bytes) }
        } else {
            Verdict::Mismatch { expected, actual }
        }
    }
}

/// `crc32fast::Hasher` over two byte strings: `Hasher::new`, one `update` for each
/// of them, `finalize`. The result is the CRC-32 (IEEE) of the two strings put
/// together: the remainder that [`crc32`] defines, of their concatenation.
#[verifier::external_body]
fn crc32_of_parts(head: &[u8], tail: &[u8]) -> (crc: u32)
    ensures
        crc == crc32(head@ + tail@),
{
    let mut hasher = crc32fast::Hasher::new();
    hasher.update(head);
    hasher.update(tail);
    hasher.finalize()
}

/// Checksum of a frame, over the length prefix followed by the payload.
pub fn checksum(len_bytes: &[u8], payload: &[u8]) -> (crc: u32)
    ensures
        crc == crc32(len_bytes@ + payload@),
{
    crc32_of_parts(len_bytes, payload)
}

/// The four bytes that hold `n`, least significant byte first.
pub fn to_le_bytes(n: u32) -> (bytes: [u8; 4])
    ensures
        bytes@ == le_bytes(n as nat),
{
    let b0: u8 = (n % 256) as u8;
    let b1: u8 = (n / 256 % 256) as u8;
    let b2: u8 = (n / 65536 % 256) as u8;
    let b3: u8 = (n / 16777216 % 256) as u8;
    let bytes: [u8; 4] = [b0, b1, b2, b3];
    assert(bytes@ =~= le_bytes(n as nat));
    bytes
}

/// The number that four bytes hold, least significant byte first.
pub fn from_le_bytes(bytes: &[u8]) -> (n: u32)
    requires
        bytes@.len() == 4,
    ensures
        n == le_value(bytes@),
{
    bytes[0] as u32 + 256 * (bytes[1] as u32) + 65536 * (bytes[2] as u32) + 16777216 * (
    bytes[3] as u32)
}

/// Reading a number back from its four bytes gives the number.
pub proof fn lemma_le_round_trip(n: nat)
    requires
        n <= u32::MAX,
    ensures
        le_bytes(n).len() == 4,
        le_value(le_bytes(n)) == n,
{
}

/// Four bytes are those of the number they hold.
pub proof fn lemma_le_round_trip_bytes(bytes: Seq<u8>)
    requires
        bytes.len() >= 4,
    ensures
        le_bytes(le_value(bytes)) == bytes.take(4),
{
    let n = le_value(bytes);
    assert(n % 256 == bytes[0]);
    assert(n / 256 == bytes[1] + 256 * bytes[2] + 65536 * bytes[3]);
    assert(n / 65536 == bytes[2] + 256 * bytes[3]);
    assert(n / 16777216 == bytes[3]);
    assert(le_bytes(n) =~= bytes.take(4));
}

} // verus!
