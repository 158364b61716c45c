//! What a log says: the records that its segments hold, and how it ends.
//!
//! [`read_from`] reads a log as a whole. The laws below it say what it makes of the
//! frames that a writer produces, of frames cut short and of damage. That a
//! [`WalReader`](crate::reader::WalReader), which reads the same files piece by piece,
//! yields just that is in [`iteration`](crate::iteration).

use vstd::prelude::*;

use crate::crc::law_altered_byte_alters_checksum;
use crate::format::{
    frame, frame_checksum, frame_len, frames, judge, le_bytes, le_value, lemma_le_round_trip,
    lemma_le_round_trip_bytes, payload_of, valid_record, Verdict, CRC_SIZE, LEN_SIZE,
    MAX_RECORD_SIZE,
};

verus! {

/// What can be wrong with a frame.
pub enum Damage {
    /// The file ends inside it.
    Truncated,
    /// Its length prefix is one that no writer produces.
    InvalidLength { len: nat },
    /// Its checksum is not the one stored.
    Mismatch { expected: u32, actual: u32 },
}

/// How a log ends.
pub enum Ending {
    /// On a frame boundary of its last segment.
    Clean,
    /// At the frame at `offset` in segment `index`, whatever comes after it.
    Damaged { index: int, offset: int, damage: Damage },
}

/// What a log, or the rest of one, says.
#[verifier::ext_equal]
pub struct Reading {
    pub records: Seq<Seq<u8>>,
    pub ending: Ending,
}

/// A log with nothing left to read.
pub open spec fn nothing() -> Reading {
    Reading { records: Seq::empty(), ending: Ending::Clean }
}

/// `records`, and what comes after them.
pub open spec fn preceded(records: Seq<Seq<u8>>, rest: Reading) -> Reading {
    Reading { records: records + rest.records, ending: rest.ending }
}

/// A log that ends in damage.
pub open spec fn damaged(index: int, offset: int, damage: Damage) -> Reading {
    Reading { records: Seq::empty(), ending: Ending::Damaged { index, offset, damage } }
}

/// What the log in `segments` says from the frame boundary at `offset` in segment
/// `index` on.
pub open spec fn read_from(segments: Seq<Seq<u8>>, index: int, offset: int) -> Reading
    decreases segments.len() - index, segments[index].len() - offset,
{
    if !(0 <= index < segments.len()) || offset < 0 {
        nothing()
    } else if offset >= segments[index].len() {
        read_from(segments, index + 1, 0)
    } else {
        match judge(segments[index].skip(offset)) {
            Verdict::Record { payload } => preceded(
                seq![payload],
                read_from(segments, index, offset + frame_len(payload.len())),
            ),
            Verdict::Incomplete => damaged(index, offset, Damage::Truncated),
            Verdict::InvalidLength { len } => damaged(
                index,
                offset,
                Damage::InvalidLength { len },
            ),
            Verdict::Mismatch { expected, actual } => damaged(
                index,
                offset,
                Damage::Mismatch { expected, actual },
            ),
        }
    }
}

/// Whether the log accepts every one of `records`.
pub open spec fn valid_records(records: Seq<Seq<u8>>) -> bool {
    forall|i: int| 0 <= i < records.len() ==> valid_record(#[trigger] records[i])
}

/// The records of segments `index` and after, in order.
pub open spec fn records_from(log: Seq<Seq<Seq<u8>>>, index: int) -> Seq<Seq<u8>>
    decreases log.len() - index,
{
    if !(0 <= index < log.len()) {
        Seq::empty()
    } else {
        log[index] + records_from(log, index + 1)
    }
}

/// How many of `records` have their whole frame in the first `len` bytes of their
/// frames.
pub open spec fn whole_frames(records: Seq<Seq<u8>>, len: int) -> int
    decreases records.len(),
{
    if records.len() == 0 || frames(records).len() <= len {
        records.len() as int
    } else {
        whole_frames(records.drop_last(), len)
    }
}

/// A frame has its record's length and the overhead.
pub proof fn lemma_frame_len(record: Seq<u8>)
    ensures
        frame(record).len() == frame_len(record.len()),
{
}

/// What decides about a frame is in the frame: more bytes after it change nothing.
pub proof fn lemma_judge_prefix(head: Seq<u8>, bytes: Seq<u8>)
    requires
        head.len() <= bytes.len(),
        head == bytes.take(head.len() as int),
        !(judge(head) is Incomplete),
    ensures
        judge(bytes) == judge(head),
{
    let len = le_value(head);
    assert(head[0] == bytes[0] && head[1] == bytes[1] && head[2] == bytes[2] && head[3]
        == bytes[3]);
    if 1 <= len <= MAX_RECORD_SIZE {
        let end = LEN_SIZE + len;
        assert(head.subrange(end, end + CRC_SIZE) =~= bytes.subrange(end, end + CRC_SIZE));
        assert(head.take(end) =~= bytes.take(end));
        assert(payload_of(head) =~= payload_of(bytes));
    }
}

/// The length that bytes start with.
proof fn lemma_length_prefix(bytes: Seq<u8>, len: nat)
    requires
        len <= u32::MAX,
        bytes.len() >= LEN_SIZE,
        forall|i: int| 0 <= i < LEN_SIZE ==> #[trigger] bytes[i] == le_bytes(len)[i],
    ensures
        le_value(bytes) == len,
{
    lemma_le_round_trip(len);
    assert(bytes[0] == le_bytes(len)[0] && bytes[1] == le_bytes(len)[1] && bytes[2] == le_bytes(
        len,
    )[2] && bytes[3] == le_bytes(len)[3]);
}

/// A frame reads back as the record it was made of, whatever follows it.
pub proof fn law_frame_reads_back(record: Seq<u8>, tail: Seq<u8>)
    requires
        valid_record(record),
    ensures
        judge(frame(record) + tail) == (Verdict::Record { payload: record }),
{
    let bytes = frame(record) + tail;
    let crc = frame_checksum(record);
    let end = LEN_SIZE + record.len();
    lemma_length_prefix(bytes, record.len());
    lemma_le_round_trip(crc as nat);
    assert(bytes.subrange(end, end + CRC_SIZE) =~= le_bytes(crc as nat));
    assert(bytes.take(end) =~= le_bytes(record.len()) + record);
    assert(payload_of(bytes) =~= record);
}

/// A frame whose payload has been altered in place is reported as a mismatch between
/// the checksum that was stored and that of what is there now, unless the two payloads
/// happen to have the same checksum.
pub proof fn law_altered_payload_is_a_mismatch(
    record: Seq<u8>,
    altered: Seq<u8>,
    tail: Seq<u8>,
)
    requires
        valid_record(record),
        altered.len() == record.len(),
        frame_checksum(altered) != frame_checksum(record),
    ensures
        judge(
            le_bytes(record.len()) + altered + le_bytes(frame_checksum(record) as nat) + tail,
        ) == (Verdict::Mismatch {
            expected: frame_checksum(record),
            actual: frame_checksum(altered),
        }),
{
    let crc = frame_checksum(record);
    let bytes = le_bytes(record.len()) + altered + le_bytes(crc as nat) + tail;
    let end = LEN_SIZE + record.len();
    lemma_length_prefix(bytes, record.len());
    lemma_le_round_trip(crc as nat);
    assert(bytes.subrange(end, end + CRC_SIZE) =~= le_bytes(crc as nat));
    assert(bytes.take(end) =~= le_bytes(record.len()) + altered);
}

/// A frame with one byte of its payload altered is always reported as a mismatch: the
/// two checksums cannot be the same.
pub proof fn law_altered_byte_is_caught(record: Seq<u8>, at: int, byte: u8, tail: Seq<u8>)
    requires
        valid_record(record),
        0 <= at < record.len(),
        record[at] != byte,
    ensures
        frame_checksum(record.update(at, byte)) != frame_checksum(record),
        judge(
            le_bytes(record.len()) + record.update(at, byte) + le_bytes(
                frame_checksum(record) as nat,
            ) + tail,
        ) == (Verdict::Mismatch {
            expected: frame_checksum(record),
            actual: frame_checksum(record.update(at, byte)),
        }),
{
    let altered = record.update(at, byte);
    let prefix = le_bytes(record.len());
    let covered = prefix + record;
    law_altered_byte_alters_checksum(covered, LEN_SIZE + at, byte);
    assert(covered.update(LEN_SIZE + at, byte) =~= prefix + altered);
    law_altered_payload_is_a_mismatch(record, altered, tail);
}

/// A frame whose stored checksum has been altered in any way is reported as a mismatch.
pub proof fn law_altered_checksum_is_caught(record: Seq<u8>, stored: Seq<u8>, tail: Seq<u8>)
    requires
        valid_record(record),
        stored.len() == CRC_SIZE,
        stored != le_bytes(frame_checksum(record) as nat),
    ensures
        judge(le_bytes(record.len()) + record + stored + tail) == (Verdict::Mismatch {
            expected: le_value(stored) as u32,
            actual: frame_checksum(record),
        }),
{
    let bytes = le_bytes(record.len()) + record + stored + tail;
    let end = LEN_SIZE + record.len();
    lemma_length_prefix(bytes, record.len());
    lemma_le_round_trip_bytes(stored);
    assert(stored.take(4) =~= stored);
    assert(bytes.subrange(end, end + CRC_SIZE) =~= stored);
    assert(bytes.take(end) =~= le_bytes(record.len()) + record);
}

/// A frame cut short, after its first byte at the earliest, is incomplete: it is
/// never taken for damage, nor for another record.
pub proof fn law_cut_frame_is_incomplete(record: Seq<u8>, len: int)
    requires
        valid_record(record),
        0 < len < frame(record).len(),
    ensures
        judge(frame(record).take(len)) is Incomplete,
{
    let bytes = frame(record).take(len);
    if len >= LEN_SIZE {
        lemma_length_prefix(bytes, record.len());
    }
}

/// A frame at a frame boundary reads back, and reading goes on behind it.
proof fn lemma_read_one(segments: Seq<Seq<u8>>, index: int, offset: int, record: Seq<u8>)
    requires
        0 <= index < segments.len(),
        0 <= offset,
        offset + frame(record).len() <= segments[index].len(),
        segments[index].subrange(offset, offset + frame(record).len()) == frame(record),
        valid_record(record),
    ensures
        read_from(segments, index, offset) == preceded(
            seq![record],
            read_from(segments, index, offset + frame(record).len()),
        ),
{
    let bytes = segments[index];
    let end = offset + frame(record).len();
    assert(bytes.skip(offset) =~= frame(record) + bytes.skip(end)) by {
        assert(bytes.skip(offset) =~= bytes.subrange(offset, end) + bytes.skip(end));
    }
    law_frame_reads_back(record, bytes.skip(end));
    lemma_frame_len(record);
}

/// Bytes that are the frames of several records are those of all but the last, and
/// the frame of the last.
proof fn lemma_frames_split(bytes: Seq<u8>, offset: int, records: Seq<Seq<u8>>)
    requires
        records.len() > 0,
        0 <= offset,
        offset + frames(records).len() <= bytes.len(),
        bytes.subrange(offset, offset + frames(records).len()) == frames(records),
    ensures
        ({
            let init = frames(records.drop_last());
            let last = frame(records.last());
            let middle = offset + init.len();
            &&& middle + last.len() == offset + frames(records).len()
            &&& bytes.subrange(offset, middle) == init
            &&& bytes.subrange(middle, middle + last.len()) == last
        }),
{
    let init = frames(records.drop_last());
    let last = frame(records.last());
    let middle = offset + init.len();
    let all = bytes.subrange(offset, offset + frames(records).len());
    assert(frames(records) == init + last);
    assert(bytes.subrange(offset, middle) =~= all.take(init.len() as int));
    assert((init + last).take(init.len() as int) =~= init);
    assert(bytes.subrange(middle, middle + last.len()) =~= all.skip(init.len() as int));
    assert((init + last).skip(init.len() as int) =~= last);
}

/// Frames at a frame boundary read back as their records, in order, and reading goes
/// on behind them. Whatever stands behind them, damage or not, takes nothing from
/// them.
pub proof fn law_frames_read_back(
    segments: Seq<Seq<u8>>,
    index: int,
    offset: int,
    records: Seq<Seq<u8>>,
)
    requires
        0 <= index < segments.len(),
        0 <= offset,
        offset + frames(records).len() <= segments[index].len(),
        segments[index].subrange(offset, offset + frames(records).len()) == frames(records),
        valid_records(records),
    ensures
        read_from(segments, index, offset) == preceded(
            records,
            read_from(segments, index, offset + frames(records).len()),
        ),
    decreases records.len(),
{
    if records.len() == 0 {
        assert(preceded(records, read_from(segments, index, offset)) =~= read_from(
            segments,
            index,
            offset,
        ));
    } else {
        let init = records.drop_last();
        let last = records.last();
        let middle = offset + frames(init).len();
        assert(valid_record(records[records.len() - 1]));
        assert forall|i: int| 0 <= i < init.len() implies valid_record(#[trigger] init[i]) by {
            assert(init[i] == records[i]);
        }
        lemma_frames_split(segments[index], offset, records);
        law_frames_read_back(segments, index, offset, init);
        lemma_read_one(segments, index, middle, last);
        let rest = read_from(segments, index, offset + frames(records).len());
        assert(records =~= init + seq![last]);
        assert(preceded(init, preceded(seq![last], rest)) =~= preceded(records, rest));
    }
}

/// What was written is what is read: segments that hold the frames of records give
/// those records back, in order from one segment to the next up to the last, and end
/// cleanly. `log` has the records of the segments from `base` on.
pub proof fn law_log_round_trip(
    segments: Seq<Seq<u8>>,
    base: int,
    log: Seq<Seq<Seq<u8>>>,
    index: int,
)
    requires
        0 <= base <= index <= segments.len(),
        base + log.len() == segments.len(),
        forall|i: int|
            base <= i < segments.len() ==> #[trigger] segments[i] == frames(log[i - base]),
        forall|i: int| 0 <= i < log.len() ==> valid_records(#[trigger] log[i]),
    ensures
        read_from(segments, index, 0) == (Reading {
            records: records_from(log, index - base),
            ending: Ending::Clean,
        }),
    decreases segments.len() - index,
{
    if index < segments.len() {
        let len = segments[index].len() as int;
        assert(segments[index].subrange(0, len) =~= frames(log[index - base]));
        law_frames_read_back(segments, index, 0, log[index - base]);
        law_log_round_trip(segments, base, log, index + 1);
    }
}

/// Only a frame reads as a record: bytes that give a record start with the frame of
/// that record, length prefix and checksum and all, and it is one the log accepts.
pub proof fn law_only_a_frame_reads_as_a_record(bytes: Seq<u8>)
    requires
        judge(bytes) is Record,
    ensures
        valid_record(judge(bytes)->payload),
        frame(judge(bytes)->payload).len() <= bytes.len(),
        bytes.take(frame(judge(bytes)->payload).len() as int) == frame(judge(bytes)->payload),
{
    let record = judge(bytes)->payload;
    let end = LEN_SIZE + record.len();
    let stored = bytes.subrange(end, end + CRC_SIZE);
    lemma_frame_len(record);
    lemma_le_round_trip_bytes(bytes);
    lemma_le_round_trip_bytes(stored);
    assert(stored.take(4) =~= stored);
    assert(bytes.take(end) =~= le_bytes(record.len()) + record);
    assert(bytes.take(end + CRC_SIZE) =~= bytes.take(end) + stored);
}

/// Frames of records one after the other: those of the first, and the rest.
proof fn lemma_frames_prepend(first: Seq<u8>, records: Seq<Seq<u8>>)
    ensures
        frames(seq![first] + records) == frame(first) + frames(records),
    decreases records.len(),
{
    let all = seq![first] + records;
    if records.len() == 0 {
        assert(all.drop_last() =~= Seq::<Seq<u8>>::empty());
        assert(frames(all.drop_last()) =~= Seq::<u8>::empty());
        assert(all.last() == first);
        assert(frames(all) =~= frame(first) + frames(records));
    } else {
        assert(all.drop_last() =~= seq![first] + records.drop_last());
        lemma_frames_prepend(first, records.drop_last());
        assert(frames(all) =~= frame(first) + frames(records));
    }
}

/// The record at a frame boundary, where there is one, and the frame that holds it.
proof fn lemma_next_record(segments: Seq<Seq<u8>>, index: int, offset: int)
    requires
        0 <= index < segments.len(),
        0 <= offset < segments[index].len(),
        judge(segments[index].skip(offset)) is Record,
    ensures
        ({
            let record = judge(segments[index].skip(offset))->payload;
            let next = offset + frame(record).len();
            &&& valid_record(record)
            &&& offset < next <= segments[index].len()
            &&& segments[index].subrange(offset, next) == frame(record)
            &&& read_from(segments, index, offset) == preceded(
                seq![record],
                read_from(segments, index, next),
            )
        }),
{
    let rest = segments[index].skip(offset);
    let record = judge(rest)->payload;
    law_only_a_frame_reads_as_a_record(rest);
    lemma_frame_len(record);
    assert(rest.take(frame(record).len() as int) =~= segments[index].subrange(
        offset,
        offset + frame(record).len(),
    ));
}

/// A frame and the frames behind it.
proof fn lemma_frames_join(
    bytes: Seq<u8>,
    offset: int,
    record: Seq<u8>,
    records: Seq<Seq<u8>>,
)
    requires
        0 <= offset,
        offset + frame(record).len() + frames(records).len() <= bytes.len(),
        bytes.subrange(offset, offset + frame(record).len()) == frame(record),
        bytes.subrange(
            offset + frame(record).len(),
            offset + frame(record).len() + frames(records).len(),
        ) == frames(records),
        valid_record(record),
        valid_records(records),
    ensures
        frames(seq![record] + records).len() == frame(record).len() + frames(records).len(),
        bytes.subrange(offset, offset + frames(seq![record] + records).len()) == frames(
            seq![record] + records,
        ),
        valid_records(seq![record] + records),
{
    let middle = offset + frame(record).len();
    let end = middle + frames(records).len();
    lemma_frames_prepend(record, records);
    assert(bytes.subrange(offset, end) =~= bytes.subrange(offset, middle) + bytes.subrange(
        middle,
        end,
    ));
    let all = seq![record] + records;
    assert forall|i: int| 0 <= i < all.len() implies valid_record(#[trigger] all[i]) by {
        if i > 0 {
            assert(all[i] == records[i - 1]);
        }
    }
}

/// Reading never skips a byte: the records read from a single segment are those
/// whose frames the segment starts with, and where reading stops in damage it is
/// right behind them.
pub proof fn law_reading_skips_nothing(bytes: Seq<u8>, offset: int)
    requires
        0 <= offset <= bytes.len(),
    ensures
        ({
            let reading = read_from(seq![bytes], 0, offset);
            let end = offset + frames(reading.records).len();
            &&& valid_records(reading.records)
            &&& end <= bytes.len()
            &&& bytes.subrange(offset, end) == frames(reading.records)
            &&& reading.ending is Clean ==> end == bytes.len()
            &&& reading.ending is Damaged ==> reading.ending->index == 0 && reading.ending->offset
                == end && end < bytes.len()
        }),
    decreases bytes.len() - offset,
{
    let segments = seq![bytes];
    let reading = read_from(segments, 0, offset);
    if offset == bytes.len() {
        assert(read_from(segments, 1, 0) == nothing());
        assert(bytes.subrange(offset, offset) =~= frames(reading.records));
    } else if judge(bytes.skip(offset)) is Record {
        let record = judge(bytes.skip(offset))->payload;
        let next = offset + frame(record).len();
        lemma_next_record(segments, 0, offset);
        law_reading_skips_nothing(bytes, next);
        let after = read_from(segments, 0, next);
        lemma_frames_join(bytes, offset, record, after.records);
    } else {
        assert(reading.records.len() == 0);
        assert(bytes.subrange(offset, offset) =~= frames(reading.records));
    }
}

/// The frames of the first `n` records are where the frames of all of them start.
pub proof fn lemma_frames_prefix(records: Seq<Seq<u8>>, n: int)
    requires
        0 <= n <= records.len(),
    ensures
        frames(records.take(n)).len() <= frames(records).len(),
        frames(records).take(frames(records.take(n)).len() as int) == frames(records.take(n)),
    decreases records.len(),
{
    let part = frames(records.take(n));
    if n == records.len() {
        assert(records.take(n) =~= records);
        assert(frames(records).take(part.len() as int) =~= part);
    } else {
        let init = records.drop_last();
        assert(init.take(n) =~= records.take(n));
        lemma_frames_prefix(init, n);
        assert(frames(records).take(part.len() as int) =~= frames(init).take(part.len() as int));
    }
}

/// What it means for a frame to be whole.
pub proof fn lemma_whole_frames(records: Seq<Seq<u8>>, len: int)
    requires
        0 <= len,
    ensures
        0 <= whole_frames(records, len) <= records.len(),
        frames(records.take(whole_frames(records, len))).len() <= len,
        whole_frames(records, len) < records.len() ==> len < frames(
            records.take(whole_frames(records, len) + 1),
        ).len(),
    decreases records.len(),
{
    let n = whole_frames(records, len);
    if records.len() == 0 || frames(records).len() <= len {
        assert(records.take(n) =~= records);
    } else {
        let init = records.drop_last();
        lemma_whole_frames(init, len);
        assert(init.take(n) =~= records.take(n));
        if n < init.len() {
            assert(init.take(n + 1) =~= records.take(n + 1));
        } else {
            assert(records.take(n + 1) =~= records);
        }
    }
}

/// A segment that a crash cut anywhere gives back the records whose frames are whole.
/// If the cut fell on a frame boundary, reading goes on with the next segment; if it
/// fell inside a frame, the log ends there, truncated at the start of that frame, and
/// later segments stay unreachable.
pub proof fn law_torn_segment(
    segments: Seq<Seq<u8>>,
    index: int,
    records: Seq<Seq<u8>>,
    len: int,
)
    requires
        0 <= index < segments.len(),
        valid_records(records),
        0 <= len <= frames(records).len(),
        segments[index] == frames(records).take(len),
    ensures
        ({
            let whole = records.take(whole_frames(records, len));
            let end = frames(whole).len() as int;
            read_from(segments, index, 0) == preceded(
                whole,
                if end == len {
                    read_from(segments, index + 1, 0)
                } else {
                    damaged(index, end, Damage::Truncated)
                },
            )
        }),
{
    let n = whole_frames(records, len);
    let whole = records.take(n);
    let end = frames(whole).len() as int;
    let bytes = segments[index];
    lemma_whole_frames(records, len);
    lemma_frames_prefix(records, n);
    assert(bytes.subrange(0, end) =~= frames(records).take(end));
    assert forall|i: int| 0 <= i < whole.len() implies valid_record(#[trigger] whole[i]) by {
        assert(whole[i] == records[i]);
    }
    law_frames_read_back(segments, index, 0, whole);
    if end < len {
        if n == records.len() {
            assert(whole =~= records);
        }
        let more = records.take(n + 1);
        assert(more.drop_last() =~= whole);
        assert(more.last() == records[n]);
        lemma_frames_prefix(records, n + 1);
        assert(frames(more) == frames(whole) + frame(records[n]));
        assert(bytes.skip(end) =~= frame(records[n]).take(len - end)) by {
            let known = frames(records).take(frames(more).len() as int);
            assert forall|i: int| 0 <= i < len - end implies #[trigger] bytes.skip(end)[i] == frame(
                records[n],
            ).take(len - end)[i] by {
                assert(bytes.skip(end)[i] == known[end + i]);
            }
        }
        law_cut_frame_is_incomplete(records[n], len - end);
    }
}

/// Zeros behind the frames, as a file system may leave them after a torn write, are
/// no records: the log ends at the first of them.
pub proof fn law_zero_tail_is_rejected(
    segments: Seq<Seq<u8>>,
    index: int,
    records: Seq<Seq<u8>>,
    zeros: Seq<u8>,
)
    requires
        0 <= index < segments.len(),
        valid_records(records),
        zeros.len() > 0,
        forall|i: int| 0 <= i < zeros.len() ==> #[trigger] zeros[i] == 0,
        segments[index] == frames(records) + zeros,
    ensures
        read_from(segments, index, 0) == preceded(
            records,
            damaged(
                index,
                frames(records).len() as int,
                if zeros.len() < LEN_SIZE {
                    Damage::Truncated
                } else {
                    Damage::InvalidLength { len: 0 }
                },
            ),
        ),
{
    let end = frames(records).len() as int;
    assert(segments[index].subrange(0, end) =~= frames(records));
    law_frames_read_back(segments, index, 0, records);
    assert(segments[index].skip(end) =~= zeros);
}

/// One altered byte in the payload of a frame ends the log there: the records before it
/// are read, it is reported with both checksums, and nothing behind it is read.
pub proof fn law_altered_byte_ends_the_log(
    segments: Seq<Seq<u8>>,
    index: int,
    records: Seq<Seq<u8>>,
    record: Seq<u8>,
    at: int,
    byte: u8,
    tail: Seq<u8>,
)
    requires
        0 <= index < segments.len(),
        valid_records(records),
        valid_record(record),
        0 <= at < record.len(),
        record[at] != byte,
        segments[index] == frames(records) + (le_bytes(record.len()) + record.update(at, byte)
            + le_bytes(frame_checksum(record) as nat) + tail),
    ensures
        read_from(segments, index, 0) == preceded(
            records,
            damaged(
                index,
                frames(records).len() as int,
                Damage::Mismatch {
                    expected: frame_checksum(record),
                    actual: frame_checksum(record.update(at, byte)),
                },
            ),
        ),
{
    let end = frames(records).len() as int;
    let rest = le_bytes(record.len()) + record.update(at, byte) + le_bytes(
        frame_checksum(record) as nat,
    ) + tail;
    assert(segments[index].subrange(0, end) =~= frames(records));
    law_frames_read_back(segments, index, 0, records);
    assert(segments[index].skip(end) =~= rest);
    law_altered_byte_is_caught(record, at, byte, tail);
}

/// Where a log ends in damage, later segments have no say: with any others in their
/// place, or none, it reads the same.
pub proof fn law_damage_hides_later_segments(
    segments: Seq<Seq<u8>>,
    others: Seq<Seq<u8>>,
    index: int,
    offset: int,
)
    requires
        0 <= index,
        0 <= offset,
        read_from(segments, index, offset).ending is Damaged,
        read_from(segments, index, offset).ending->index < others.len(),
        forall|i: int|
            0 <= i <= read_from(segments, index, offset).ending->index ==> #[trigger] segments[i]
                == others[i],
    ensures
        index <= read_from(segments, index, offset).ending->index < segments.len(),
        read_from(others, index, offset) == read_from(segments, index, offset),
    decreases segments.len() - index, segments[index].len() - offset,
{
    if index < segments.len() {
        if offset >= segments[index].len() {
            law_damage_hides_later_segments(segments, others, index + 1, 0);
        } else if judge(segments[index].skip(offset)) is Record {
            lemma_next_record(segments, index, offset);
            let record = judge(segments[index].skip(offset))->payload;
            let next = offset + frame(record).len();
            law_damage_hides_later_segments(segments, others, index, next);
            lemma_next_record(others, index, offset);
        }
    }
}

/// Segments are concatenated: where the first `count` of them end cleanly, the log
/// says what they say and goes on with the segments behind them.
pub proof fn law_segments_are_concatenated(
    segments: Seq<Seq<u8>>,
    count: int,
    index: int,
    offset: int,
)
    requires
        0 <= index <= count <= segments.len(),
        0 <= offset,
        index == count ==> offset == 0,
        read_from(segments.take(count), index, offset).ending is Clean,
    ensures
        read_from(segments, index, offset) == preceded(
            read_from(segments.take(count), index, offset).records,
            read_from(segments, count, 0),
        ),
    decreases count - index, segments[index].len() - offset,
{
    let first = segments.take(count);
    let rest = read_from(segments, count, 0);
    if index == count {
        assert(preceded(Seq::empty(), rest) =~= rest);
    } else if offset >= segments[index].len() {
        law_segments_are_concatenated(segments, count, index + 1, 0);
    } else {
        assert(first[index] == segments[index]);
        assert(judge(first[index].skip(offset)) is Record);
        lemma_next_record(first, index, offset);
        lemma_next_record(segments, index, offset);
        let record = judge(segments[index].skip(offset))->payload;
        let next = offset + frame(record).len();
        law_segments_are_concatenated(segments, count, index, next);
        let after = read_from(first, index, next).records;
        assert(preceded(seq![record], preceded(after, rest)) =~= preceded(
            seq![record] + after,
            rest,
        ));
    }
}

/// A segment with nothing in it yet, behind the others, changes nothing.
pub proof fn law_empty_segment_adds_nothing(segments: Seq<Seq<u8>>, index: int, offset: int)
    requires
        0 <= index < segments.len(),
        0 <= offset,
    ensures
        read_from(segments.push(Seq::empty()), index, offset) == read_from(
            segments,
            index,
            offset,
        ),
{
    let more = segments.push(Seq::empty());
    let reading = read_from(segments, index, offset);
    if reading.ending is Clean {
        assert(more.take(segments.len() as int) =~= segments);
        law_segments_are_concatenated(more, segments.len() as int, index, offset);
        assert(read_from(more, segments.len() as int + 1, 0) == nothing());
        assert(read_from(more, segments.len() as int, 0) == nothing());
        assert(preceded(reading.records, nothing()) =~= reading);
    } else {
        lemma_damage_is_in_a_segment(segments, index, offset);
        law_damage_hides_later_segments(segments, more, index, offset);
    }
}

/// Damage is in one of the segments.
proof fn lemma_damage_is_in_a_segment(segments: Seq<Seq<u8>>, index: int, offset: int)
    requires
        0 <= index,
        0 <= offset,
        read_from(segments, index, offset).ending is Damaged,
    ensures
        index <= read_from(segments, index, offset).ending->index < segments.len(),
    decreases segments.len() - index, segments[index].len() - offset,
{
    if index < segments.len() {
        if offset >= segments[index].len() {
            lemma_damage_is_in_a_segment(segments, index + 1, 0);
        } else if judge(segments[index].skip(offset)) is Record {
            lemma_next_record(segments, index, offset);
            let record = judge(segments[index].skip(offset))->payload;
            lemma_damage_is_in_a_segment(segments, index, offset + frame(record).len());
        }
    }
}

} // verus!
