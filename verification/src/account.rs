//! What is read of a log, accounted for byte by byte and file by file.
//!
//! The laws below say which bytes of the files the records are that a reader yields, in
//! what order it takes the files of a directory, and what stands where it stops.

use vstd::prelude::*;
use vstd::utf8::{encode_utf8, valid_utf8};

use crate::crc::crc32;
use crate::error::{IoError, ReadError};
use crate::format::{frame, frames, judge, valid_record};
use crate::iteration::{
    honest, is_at, is_portion, is_run, is_text_run, law_run_says_the_log, law_text_run_says_the_log,
    lengths, may_step, reads_as, said, yields,
};
use crate::layout::{
    is_numbered, law_found_segments, law_frames_stand_in_a_row, law_name_of_a_number,
    law_names_and_numbers_go_together, law_what_is_a_record, law_what_is_an_invalid_length,
    law_what_is_incomplete,
};
use crate::reader::{
    are_lengths, are_segments, is_length_of, latest_entry, ReaderView, StepView, Waiting,
};
use crate::replay::{
    law_log_round_trip, law_only_a_frame_reads_as_a_record, lemma_frame_len, read_from,
    records_from, valid_records, Damage, Ending, Reading,
};
use crate::segment::{contiguous, found_seqs, name_of, names_segment};
use crate::utf8::bytes_held;

verus! {

/// What is read at a frame boundary. With a length of zero or of more than 67,108,864, the
/// log ends there in that length, however much stands behind it. With fewer bytes than a
/// length takes, or than a valid length calls for, it ends there truncated. With a whole
/// frame its record is read, and reading goes on right behind it, unless its last four
/// bytes hold another number than the checksum of those before them. At the end of a
/// segment reading goes on with the next, and behind the last the log is over.
pub proof fn law_reading_at_a_boundary(segments: Seq<Seq<u8>>, index: int, offset: int)
    requires
        0 <= index,
        0 <= offset,
    ensures
        ({
            let b = segments[index].skip(offset);
            let n = b[0] + 256 * b[1] + 65_536 * b[2] + 16_777_216 * b[3];
            let stored = b[n + 4] + 256 * b[n + 5] + 65_536 * b[n + 6] + 16_777_216 * b[n + 7];
            let computed = crc32(b.take(n + 4));
            let here = read_from(segments, index, offset);
            let left = segments[index].len() - offset;
            &&& index >= segments.len() ==> here.records.len() == 0 && here.ending is Clean
            &&& index < segments.len() && left <= 0 ==> here == read_from(segments, index + 1, 0)
            &&& index < segments.len() && left >= 4 && !(1 <= n <= 67_108_864) ==> {
                &&& here.records.len() == 0
                &&& here.ending == (Ending::Damaged {
                    index,
                    offset,
                    damage: Damage::InvalidLength { len: n as nat },
                })
            }
            &&& index < segments.len() && 0 < left && (left < 4 || 1 <= n <= 67_108_864 && left < n
                + 8) ==> {
                &&& here.records.len() == 0
                &&& here.ending == (Ending::Damaged { index, offset, damage: Damage::Truncated })
            }
            &&& index < segments.len() && left >= n + 8 && 1 <= n <= 67_108_864 && stored
                != computed ==> {
                &&& here.records.len() == 0
                &&& here.ending == (Ending::Damaged {
                    index,
                    offset,
                    damage: Damage::Mismatch { expected: stored as u32, actual: computed },
                })
            }
            &&& index < segments.len() && left >= n + 8 && 1 <= n <= 67_108_864 && stored
                == computed ==> {
                let behind = read_from(segments, index, offset + n + 8);
                &&& here.records == seq![b.subrange(4, n + 4)] + behind.records
                &&& here.ending == behind.ending
            }
        }),
{
    if index < segments.len() && offset < segments[index].len() {
        let b = segments[index].skip(offset);
        let n = b[0] + 256 * b[1] + 65_536 * b[2] + 16_777_216 * b[3];
        law_what_is_incomplete(b);
        law_what_is_an_invalid_length(b);
        law_what_is_a_record(b);
        if judge(b) is Record {
            assert(judge(b)->payload =~= b.subrange(4, n + 4));
        }
    }
}

/// What stands where a log ends in damage. It ends truncated only where the file has fewer
/// bytes left than a length takes, or than a valid length and eight bytes more; in an
/// invalid length only where four bytes hold zero or more than 67,108,864; and in a
/// mismatch only where a whole frame stands with another checksum.
pub proof fn law_what_stands_at_the_end(segments: Seq<Seq<u8>>, index: int, offset: int)
    requires
        0 <= index,
        0 <= offset,
    ensures
        read_from(segments, index, offset).ending matches Ending::Damaged {
            index: d,
            offset: o,
            damage,
        } ==> {
            let b = segments[d].skip(o);
            let n = b[0] + 256 * b[1] + 65_536 * b[2] + 16_777_216 * b[3];
            let stored = b[n + 4] + 256 * b[n + 5] + 65_536 * b[n + 6] + 16_777_216 * b[n + 7];
            &&& index <= d < segments.len()
            &&& 0 <= o < segments[d].len()
            &&& damage is Truncated <==> b.len() < 4 || 1 <= n <= 67_108_864 && b.len() < n + 8
            &&& damage matches Damage::InvalidLength { len } ==> len == n && b.len() >= 4
            &&& damage is InvalidLength <==> b.len() >= 4 && (n == 0 || n > 67_108_864)
            &&& damage matches Damage::Mismatch { expected, actual } ==> {
                &&& b.len() >= n + 8 && 1 <= n <= 67_108_864
                &&& expected == stored
                &&& actual == crc32(b.take(n + 4))
                &&& expected != actual
            }
        },
    decreases segments.len() - index, segments[index].len() - offset,
{
    if index < segments.len() {
        law_reading_at_a_boundary(segments, index, offset);
        if offset >= segments[index].len() {
            law_what_stands_at_the_end(segments, index + 1, 0);
        } else {
            let b = segments[index].skip(offset);
            let n = b[0] + 256 * b[1] + 65_536 * b[2] + 16_777_216 * b[3];
            law_what_is_incomplete(b);
            law_what_is_an_invalid_length(b);
            law_what_is_a_record(b);
            if judge(b) is Record {
                law_what_stands_at_the_end(segments, index, offset + n + 8);
            }
        }
    }
}

/// Records that come first in one segment, put in front of the log.
proof fn lemma_flatten_first(log: Seq<Seq<Seq<u8>>>, first: Seq<Seq<u8>>)
    requires
        log.len() > 0,
    ensures
        log.update(0, first + log[0]).flatten() == first + log.flatten(),
        (seq![first] + log).flatten() == first + log.flatten(),
        seq![first].flatten() == first,
{
    let more = log.update(0, first + log[0]);
    assert(more.drop_first() =~= log.drop_first());
    assert(more.flatten() =~= first + log.flatten());
    assert((seq![first] + log).drop_first() =~= log);
    assert((seq![first] + log).first() == first);
    assert(seq![first].drop_first() =~= Seq::<Seq<Seq<u8>>>::empty());
    assert(seq![first].drop_first().flatten() =~= Seq::<Seq<u8>>::empty());
    assert(seq![first].first() == first);
    assert(seq![first].flatten() =~= first);
}

/// Whether segment `at` consists, from `start` to `end`, of the frames of these records.
spec fn consists(bytes: Seq<u8>, start: int, end: int, records: Seq<Seq<u8>>) -> bool {
    &&& 0 <= start <= end <= bytes.len()
    &&& bytes.subrange(start, end) == frames(records)
    &&& forall|i: int|
        0 <= i < records.len() ==> 1 <= (#[trigger] records[i]).len() <= 67_108_864
}

/// How far a segment is read: to where the log ends in damage, or to its end.
spec fn read_up_to(segments: Seq<Seq<u8>>, ending: Ending, at: int) -> int {
    match ending {
        Ending::Damaged { index, offset, .. } if at == index => offset,
        _ => segments[at].len() as int,
    }
}

/// Whether `log` has, segment by segment, the records of which the segments from `index` on
/// consist, the first of them from `offset` on: all of each, and of the one where the log
/// ends in damage as much as stands before that.
spec fn accounts(
    segments: Seq<Seq<u8>>,
    index: int,
    offset: int,
    reading: Reading,
    log: Seq<Seq<Seq<u8>>>,
) -> bool {
    let last = match reading.ending {
        Ending::Clean => segments.len() - 1,
        Ending::Damaged { index: d, .. } => d,
    };
    &&& index <= last < segments.len()
    &&& log.len() == last - index + 1
    &&& reading.records == log.flatten()
    &&& consists(
        segments[index],
        offset,
        read_up_to(segments, reading.ending, index),
        log[0],
    )
    &&& forall|k: int|
        0 < k < log.len() ==> consists(
            segments[index + k],
            0,
            read_up_to(segments, reading.ending, index + k),
            #[trigger] log[k],
        )
}

/// The account of a segment that is over, from that of those behind it.
proof fn lemma_account_moves_on(
    segments: Seq<Seq<u8>>,
    index: int,
    offset: int,
    reading: Reading,
    rest: Seq<Seq<Seq<u8>>>,
)
    requires
        0 <= index < segments.len() - 1,
        offset == segments[index].len(),
        accounts(segments, index + 1, 0, reading, rest),
    ensures
        accounts(segments, index, offset, reading, seq![Seq::<Seq<u8>>::empty()] + rest),
{
    let none = Seq::<Seq<u8>>::empty();
    let log = seq![none] + rest;
    lemma_flatten_first(rest, none);
    assert(none + rest.flatten() =~= rest.flatten());
    law_frames_stand_in_a_row(none, Seq::empty(), none);
    assert(segments[index].subrange(offset, offset) =~= frames(none));
    assert forall|k: int| 0 < k < log.len() implies consists(
        segments[index + k],
        0,
        read_up_to(segments, reading.ending, index + k),
        #[trigger] log[k],
    ) by {
        assert(log[k] == rest[k - 1]);
        assert(index + 1 + (k - 1) == index + k);
    }
}

/// A frame and the frames behind it.
proof fn lemma_consists_takes_in(
    bytes: Seq<u8>,
    start: int,
    end: int,
    record: Seq<u8>,
    records: Seq<Seq<u8>>,
)
    requires
        0 <= start,
        1 <= record.len() <= 67_108_864,
        start + frame(record).len() <= bytes.len(),
        bytes.subrange(start, start + frame(record).len()) == frame(record),
        consists(bytes, start + frame(record).len(), end, records),
    ensures
        consists(bytes, start, end, seq![record] + records),
{
    let next = start + frame(record).len();
    let all = seq![record] + records;
    law_frames_stand_in_a_row(seq![record], record, records);
    assert(bytes.subrange(start, end) =~= bytes.subrange(start, next) + bytes.subrange(next, end));
    assert forall|i: int| 0 <= i < all.len() implies 1 <= (#[trigger] all[i]).len()
        <= 67_108_864 by {
        if i > 0 {
            assert(all[i] == records[i - 1]);
        }
    }
}

/// The account of a segment that goes on with a record, from that of what is behind it.
proof fn lemma_account_takes_in(
    segments: Seq<Seq<u8>>,
    index: int,
    offset: int,
    record: Seq<u8>,
    behind: Reading,
    rest: Seq<Seq<Seq<u8>>>,
)
    requires
        0 <= index < segments.len(),
        0 <= offset,
        1 <= record.len() <= 67_108_864,
        offset + frame(record).len() <= segments[index].len(),
        segments[index].subrange(offset, offset + frame(record).len()) == frame(record),
        accounts(segments, index, offset + frame(record).len(), behind, rest),
    ensures
        accounts(
            segments,
            index,
            offset,
            Reading { records: seq![record] + behind.records, ending: behind.ending },
            rest.update(0, seq![record] + rest[0]),
        ),
{
    let log = rest.update(0, seq![record] + rest[0]);
    lemma_flatten_first(rest, seq![record]);
    lemma_consists_takes_in(
        segments[index],
        offset,
        read_up_to(segments, behind.ending, index),
        record,
        rest[0],
    );
    assert forall|k: int| 0 < k < log.len() implies consists(
        segments[index + k],
        0,
        read_up_to(segments, behind.ending, index + k),
        #[trigger] log[k],
    ) by {
        assert(log[k] == rest[k]);
    }
}

/// The account of a segment in which nothing more is read, and none behind it.
proof fn lemma_account_of_nothing(
    segments: Seq<Seq<u8>>,
    index: int,
    offset: int,
    ending: Ending,
)
    requires
        0 <= index < segments.len(),
        0 <= offset <= segments[index].len(),
        match ending {
            Ending::Clean => index + 1 == segments.len() && offset == segments[index].len(),
            Ending::Damaged { index: d, offset: o, .. } => d == index && o == offset,
        },
    ensures
        accounts(
            segments,
            index,
            offset,
            Reading { records: Seq::empty(), ending },
            seq![Seq::<Seq<u8>>::empty()],
        ),
{
    let none = Seq::<Seq<u8>>::empty();
    law_frames_stand_in_a_row(none, Seq::empty(), none);
    lemma_flatten_first(seq![none], none);
    assert(segments[index].subrange(offset, offset) =~= frames(none));
}

/// The account of a segment and those behind it.
proof fn lemma_account(segments: Seq<Seq<u8>>, index: int, offset: int) -> (log: Seq<
    Seq<Seq<u8>>,
>)
    requires
        0 <= index < segments.len(),
        0 <= offset <= segments[index].len(),
    ensures
        accounts(segments, index, offset, read_from(segments, index, offset), log),
    decreases segments.len() - index, segments[index].len() - offset,
{
    let none = Seq::<Seq<u8>>::empty();
    let reading = read_from(segments, index, offset);
    let b = segments[index].skip(offset);
    law_reading_at_a_boundary(segments, index, offset);
    if offset == segments[index].len() {
        if index + 1 == segments.len() {
            law_reading_at_a_boundary(segments, index + 1, 0);
            lemma_account_of_nothing(segments, index, offset, reading.ending);
            assert(reading =~= Reading { records: none, ending: reading.ending });
            seq![none]
        } else {
            let rest = lemma_account(segments, index + 1, 0);
            lemma_account_moves_on(segments, index, offset, reading, rest);
            seq![none] + rest
        }
    } else if judge(b) is Record {
        let record = judge(b)->payload;
        law_what_is_a_record(b);
        law_only_a_frame_reads_as_a_record(b);
        lemma_frame_len(record);
        let next = offset + frame(record).len();
        assert(segments[index].subrange(offset, next) =~= b.take(frame(record).len() as int));
        assert(record =~= b.subrange(4, record.len() as int + 4));
        let rest = lemma_account(segments, index, next);
        let behind = read_from(segments, index, next);
        lemma_account_takes_in(segments, index, offset, record, behind, rest);
        assert(reading =~= Reading {
            records: seq![record] + behind.records,
            ending: behind.ending,
        });
        rest.update(0, seq![record] + rest[0])
    } else {
        law_what_is_incomplete(b);
        law_what_is_an_invalid_length(b);
        law_what_is_a_record(b);
        lemma_account_of_nothing(segments, index, offset, reading.ending);
        assert(reading =~= Reading { records: none, ending: reading.ending });
        seq![none]
    }
}

/// Every byte of a log is accounted for. The records read are, segment by segment and in
/// order, those whose frames the segments consist of: of every segment all of it, from its
/// first byte to its last, and of the one in which the log ends in damage as much as stands
/// before the damage. No byte before that is left out, and none is read twice.
pub proof fn law_every_byte_is_accounted_for(segments: Seq<Seq<u8>>) -> (log: Seq<Seq<Seq<u8>>>)
    requires
        segments.len() > 0,
    ensures
        ({
            let reading = read_from(segments, 0, 0);
            &&& reading.records == log.flatten()
            &&& forall|k: int, i: int|
                0 <= k < log.len() && 0 <= i < log[k].len() ==> 1 <= (#[trigger] log[k][i]).len()
                    <= 67_108_864
            &&& reading.ending is Clean ==> {
                &&& log.len() == segments.len()
                &&& forall|k: int|
                    0 <= k < segments.len() ==> segments[k] == frames(#[trigger] log[k])
            }
            &&& reading.ending matches Ending::Damaged { index, offset, .. } ==> {
                &&& log.len() == index + 1
                &&& forall|k: int| 0 <= k < index ==> segments[k] == frames(#[trigger] log[k])
                &&& segments[index].take(offset) == frames(log[index])
            }
        }),
{
    let log = lemma_account(segments, 0, 0);
    let ending = read_from(segments, 0, 0).ending;
    assert forall|k: int| 0 <= k < log.len() implies consists(
        segments[k],
        0,
        read_up_to(segments, ending, k),
        #[trigger] log[k],
    ) by {
        assert(segments[0 + k] == segments[k]);
    }
    assert forall|k: int|
        0 <= k < log.len() && (ending is Clean || k < log.len() - 1) implies segments[k] == frames(
        #[trigger] log[k],
    ) by {
        assert(consists(segments[k], 0, read_up_to(segments, ending, k), log[k]));
        assert(segments[k].subrange(0, segments[k].len() as int) =~= segments[k]);
    }
    if let Ending::Damaged { index, offset, .. } = ending {
        assert(consists(segments[index], 0, offset, log[index]));
        assert(segments[index].subrange(0, offset) =~= segments[index].take(offset));
    }
    assert forall|k: int, i: int|
        0 <= k < log.len() && 0 <= i < log[k].len() implies 1 <= (#[trigger] log[k][i]).len()
        <= 67_108_864 by {
        assert(consists(segments[k], 0, read_up_to(segments, ending, k), log[k]));
    }
    log
}

/// The records of the segments from `index` on, one segment behind the other.
proof fn lemma_records_flatten(log: Seq<Seq<Seq<u8>>>, index: int)
    requires
        0 <= index <= log.len(),
    ensures
        records_from(log, index) == log.skip(index).flatten(),
    decreases log.len() - index,
{
    if index < log.len() {
        lemma_records_flatten(log, index + 1);
        assert(log.skip(index).drop_first() =~= log.skip(index + 1));
        assert(log.skip(index).first() == log[index]);
    } else {
        assert(log.skip(index) =~= Seq::<Seq<Seq<u8>>>::empty());
    }
}

/// What was written is what is read: segments that consist of the frames of records give
/// back these records, all of the first segment, then all of the second and so on to the
/// last, and end cleanly.
pub proof fn law_written_is_read(segments: Seq<Seq<u8>>, log: Seq<Seq<Seq<u8>>>)
    requires
        log.len() == segments.len(),
        forall|k: int| 0 <= k < segments.len() ==> #[trigger] segments[k] == frames(log[k]),
        forall|k: int, i: int|
            0 <= k < log.len() && 0 <= i < log[k].len() ==> 1 <= (#[trigger] log[k][i]).len()
                <= 67_108_864,
    ensures
        read_from(segments, 0, 0).records == log.flatten(),
        read_from(segments, 0, 0).ending is Clean,
{
    assert forall|k: int| 0 <= k < log.len() implies valid_records(#[trigger] log[k]) by {
        assert forall|i: int| 0 <= i < log[k].len() implies valid_record(#[trigger] log[k][i]) by {}
    }
    law_log_round_trip(segments, 0, log, 0);
    lemma_records_flatten(log, 0);
    assert(log.skip(0) =~= log);
}

/// What is yielded is all that a reader says but its requests, in the order in which it says
/// it.
pub proof fn law_yields_leave_out_requests<V>(steps: Seq<StepView<V>>)
    ensures
        yields(steps) == steps.filter(|step: StepView<V>| !(step is Read) && !(step is Open)),
    decreases steps.len(),
{
    reveal(Seq::filter);
    if steps.len() > 0 {
        law_yields_leave_out_requests(steps.drop_last());
    }
}

/// What a reader yields, however its files' bytes come: the records that its files said as
/// of open, in order; then, where they end in damage, the error that says what it is and
/// where; and then, for ever, that there is no more.
pub proof fn law_order_of_yields(
    files: Seq<String>,
    segments: Seq<Seq<u8>>,
    states: Seq<ReaderView>,
    steps: Seq<StepView<Seq<u8>>>,
    k: int,
)
    requires
        is_run(files, segments, states, steps),
        0 <= k < yields(steps).len(),
    ensures
        ({
            let whole = read_from(segments, 0, 0);
            let count = whole.records.len();
            &&& k < count ==> yields(steps)[k] == (StepView::Item { item: whole.records[k] })
            &&& k == count ==> match whole.ending {
                Ending::Clean => yields(steps)[k] is End,
                Ending::Damaged { index, offset, damage } => {
                    &&& yields(steps)[k] is Failed
                    &&& match damage {
                        Damage::Truncated => yields(steps)[k]->error == (ReadError::TruncatedTail {
                            path: files[index],
                            offset: offset as u64,
                        }),
                        Damage::InvalidLength { len } => yields(steps)[k]->error == (
                        ReadError::InvalidLength {
                            path: files[index],
                            offset: offset as u64,
                            len: len as u32,
                        }),
                        Damage::Mismatch { expected, actual } => yields(steps)[k]->error == (
                        ReadError::ChecksumMismatch {
                            path: files[index],
                            offset: offset as u64,
                            expected,
                            actual,
                        }),
                    }
                },
            }
            &&& k > count ==> yields(steps)[k] is End
        }),
{
    law_run_says_the_log(files, segments, states, steps);
    assert(yields(steps)[k] == said(files, read_from(segments, 0, 0), k));
}

/// What a reader of texts yields, however its files' bytes come: for each record its text,
/// or, where it is not UTF-8, an error that holds the record and says in which file and from
/// which byte on its frame stands; after the records what a reader of records yields.
pub proof fn law_order_of_texts(
    files: Seq<String>,
    segments: Seq<Seq<u8>>,
    states: Seq<ReaderView>,
    texts: Seq<StepView<Seq<char>>>,
    k: int,
)
    requires
        is_text_run(files, segments, states, texts),
        0 <= k < yields(texts).len(),
    ensures
        ({
            let whole = read_from(segments, 0, 0);
            let count = whole.records.len();
            &&& k < count && valid_utf8(whole.records[k]) ==> yields(texts)[k] is Item
                && encode_utf8(yields(texts)[k]->item) == whole.records[k]
            &&& k < count && !valid_utf8(whole.records[k]) ==> {
                &&& yields(texts)[k] is Failed
                &&& yields(texts)[k]->error matches ReadError::InvalidUtf8 { path, offset, source }
                    && bytes_held(source) == whole.records[k] && exists|index: int|
                    0 <= index < segments.len() && path == files[index] && offset
                        + whole.records[k].len() + 8 <= segments[index].len()
                        && (#[trigger] segments[index]).subrange(
                        offset as int,
                        offset + whole.records[k].len() + 8,
                    ) == frame(whole.records[k])
            }
            &&& k == count ==> match whole.ending {
                Ending::Clean => yields(texts)[k] is End,
                Ending::Damaged { index, offset, damage } => {
                    &&& yields(texts)[k] is Failed
                    &&& match damage {
                        Damage::Truncated => yields(texts)[k]->error == (ReadError::TruncatedTail {
                            path: files[index],
                            offset: offset as u64,
                        }),
                        Damage::InvalidLength { len } => yields(texts)[k]->error == (
                        ReadError::InvalidLength {
                            path: files[index],
                            offset: offset as u64,
                            len: len as u32,
                        }),
                        Damage::Mismatch { expected, actual } => yields(texts)[k]->error == (
                        ReadError::ChecksumMismatch {
                            path: files[index],
                            offset: offset as u64,
                            expected,
                            actual,
                        }),
                    }
                },
            }
            &&& k > count ==> yields(texts)[k] is End
        }),
{
    broadcast use vstd::utf8::decode_utf8_encode_utf8;

    let whole = read_from(segments, 0, 0);
    law_text_run_says_the_log(files, segments, states, texts);
    assert(reads_as(files, segments, said(files, whole, k), yields(texts)[k]));
    if k < whole.records.len() && !valid_utf8(whole.records[k]) {
        let record = whole.records[k];
        let offset = yields(texts)[k]->error->InvalidUtf8_offset as int;
        let path = yields(texts)[k]->error->InvalidUtf8_path;
        let index = choose|index: int|
            path == files[index] && #[trigger] is_at(segments, index, offset, record);
        let b = segments[index].skip(offset);
        law_only_a_frame_reads_as_a_record(b);
        lemma_frame_len(record);
        assert(segments[index].subrange(offset, offset + record.len() + 8) =~= b.take(
            frame(record).len() as int,
        ));
    }
}

/// A reader takes its files' bytes in whatever portions they come: a run goes on with any
/// part of what was asked for.
pub proof fn law_any_portion_will_do(
    files: Seq<String>,
    segments: Seq<Seq<u8>>,
    states: Seq<ReaderView>,
    steps: Seq<StepView<Seq<u8>>>,
    chunk: Vec<u8>,
)
    requires
        is_run(files, segments, states, steps),
        states.last().waiting == Waiting::Bytes ==> {
            let v = states.last();
            let at = v.offset + v.gathered.len();
            &&& 0 < chunk@.len() <= v.asked()
            &&& at + chunk@.len() <= segments[v.index].len()
            &&& chunk@ == segments[v.index].subrange(at, at + chunk@.len())
        },
    ensures
        ({
            let v = states.last();
            let (w, step) = match v.waiting {
                Waiting::Call => v.next(),
                Waiting::File => v.opened(Ok(())),
                Waiting::Bytes => v.received(Ok(chunk)),
            };
            is_run(files, segments, states.push(w), steps.push(step))
        }),
{
    let v = states.last();
    let (w, step) = match v.waiting {
        Waiting::Call => v.next(),
        Waiting::File => v.opened(Ok(())),
        Waiting::Bytes => v.received(Ok(chunk)),
    };
    let more = states.push(w);
    let all = steps.push(step);
    if v.waiting == Waiting::Bytes {
        let now = segments[v.index];
        assert(now.take(now.len() as int) =~= now);
        assert(is_portion(v, now, chunk@));
        assert(honest(v, segments, chunk@));
        let outcome: Result<Vec<u8>, IoError> = Ok(chunk);
        assert((w, step) == v.received(outcome));
    }
    assert(may_step(v, w, step, segments));
    assert forall|i: int| 0 <= i < all.len() implies may_step(
        more[i],
        more[i + 1],
        #[trigger] all[i],
        segments,
    ) by {
        if i < steps.len() {
            assert(all[i] == steps[i]);
            assert(more[i] == states[i] && more[i + 1] == states[i + 1]);
        }
    }
}

/// The files that a reader goes over, when it is opened on a directory: the `k`-th is the one
/// with the number `k` in its name, counted from one, so that the numbers go up; what is
/// read of it is as long as that same entry is; and no segment of the directory is left
/// out.
pub proof fn law_files_of_a_directory(
    names: Seq<Option<String>>,
    lens: Seq<u64>,
    files: Seq<String>,
    limits: Seq<u64>,
)
    requires
        lens.len() == names.len(),
        files.len() <= u64::MAX,
        limits.len() == files.len(),
        contiguous(found_seqs(names), files.len() as u64),
        are_segments(files, files.len()),
        are_lengths(limits, names, lens),
    ensures
        forall|k: int|
            0 <= k < files.len() ==> {
                &&& is_numbered((#[trigger] files[k])@, k + 1)
                &&& exists|i: int|
                    0 <= i < names.len() && (#[trigger] names[i]) is Some && names[i]->0@
                        == files[k]@ && lens[i] == limits[k]
            },
        forall|i: int, seq: u64|
            0 <= i < names.len() && (#[trigger] names[i]) is Some && #[trigger] is_numbered(
                names[i]->0@,
                seq as int,
            ) ==> 1 <= seq <= files.len() && names[i]->0@ == files[seq - 1]@,
{
    let count = files.len() as u64;
    assert(count <= 99_999_999) by {
        if count > 0 {
            assert(found_seqs(names).contains(count));
            let i = choose|i: int| #[trigger] names_segment(names, i, count);
            law_found_segments(names, count);
            law_names_and_numbers_go_together(names[i]->0@, names[i]->0@, count);
        }
    }
    assert forall|k: int| 0 <= k < files.len() implies is_numbered((#[trigger] files[k])@, k + 1) by {
        assert(files[k]@ == name_of((k + 1) as nat));
        law_name_of_a_number((k + 1) as u64);
    }
    assert forall|k: int| 0 <= k < files.len() implies {
        &&& is_numbered((#[trigger] files[k])@, k + 1)
        &&& exists|i: int|
            0 <= i < names.len() && (#[trigger] names[i]) is Some && names[i]->0@ == files[k]@
                && lens[i] == limits[k]
    } by {
        let seq = (k + 1) as u64;
        assert(is_length_of(names, lens, names.len() as int, seq, limits[k]));
        let i = choose|i: int| #[trigger]
            latest_entry(names, names.len() as int, i, seq) && limits[k] == lens[i];
        law_found_segments(names, seq);
        assert(names_segment(names, i, seq));
        assert(is_numbered(files[k]@, k + 1));
        law_names_and_numbers_go_together(names[i]->0@, files[k]@, seq);
        assert(names[i] is Some);
    }
    assert forall|i: int, seq: u64|
        0 <= i < names.len() && (#[trigger] names[i]) is Some && #[trigger] is_numbered(
            names[i]->0@,
            seq as int,
        ) implies 1 <= seq <= files.len() && names[i]->0@ == files[seq - 1]@ by {
        law_found_segments(names, seq);
        assert(names_segment(names, i, seq));
        assert(found_seqs(names).contains(seq));
        assert(is_numbered(files[seq - 1]@, seq as int));
        law_names_and_numbers_go_together(names[i]->0@, files[seq - 1]@, seq);
    }
}

/// A directory is read as one log. Where the file with the number `s` in its name consists of
/// the frames of the records `log[s - 1]`, a reader opened on the directory yields the
/// records of segment 1, then those of segment 2 and so on to the last, each once and in
/// order, and then that there is no more. `disk` gives what is in the file of a name.
pub proof fn law_directory_is_read_in_order(
    names: Seq<Option<String>>,
    lens: Seq<u64>,
    files: Seq<String>,
    limits: Seq<u64>,
    disk: spec_fn(Seq<char>) -> Seq<u8>,
    log: Seq<Seq<Seq<u8>>>,
    states: Seq<ReaderView>,
    steps: Seq<StepView<Seq<u8>>>,
    k: int,
)
    requires
        lens.len() == names.len(),
        files.len() <= u64::MAX,
        limits.len() == files.len(),
        contiguous(found_seqs(names), files.len() as u64),
        are_segments(files, files.len()),
        are_lengths(limits, names, lens),
        log.len() == files.len(),
        forall|name: Seq<char>, s: int| #[trigger]
            is_numbered(name, s) && 1 <= s <= log.len() ==> disk(name) == frames(log[s - 1]),
        forall|s: int, i: int|
            0 <= s < log.len() && 0 <= i < log[s].len() ==> 1 <= (#[trigger] log[s][i]).len()
                <= 67_108_864,
        is_run(files, Seq::new(files.len(), |i: int| disk(files[i]@)), states, steps),
        0 <= k < yields(steps).len(),
    ensures
        k < log.flatten().len() ==> yields(steps)[k] == (StepView::Item {
            item: log.flatten()[k],
        }),
        k >= log.flatten().len() ==> yields(steps)[k] is End,
{
    let segments = Seq::new(files.len(), |i: int| disk(files[i]@));
    law_files_of_a_directory(names, lens, files, limits);
    assert forall|i: int| 0 <= i < segments.len() implies #[trigger] segments[i] == frames(
        log[i],
    ) by {
        assert(is_numbered(files[i]@, i + 1));
    }
    law_written_is_read(segments, log);
    law_order_of_yields(files, segments, states, steps, k);
}

/// Opened on a directory whose entries are as long as their contents, a reader starts where
/// such a run starts.
pub proof fn law_reader_of_a_directory(
    names: Seq<Option<String>>,
    lens: Seq<u64>,
    files: Seq<String>,
    limits: Seq<u64>,
    disk: spec_fn(Seq<char>) -> Seq<u8>,
)
    requires
        lens.len() == names.len(),
        files.len() <= u64::MAX,
        limits.len() == files.len(),
        contiguous(found_seqs(names), files.len() as u64),
        are_segments(files, files.len()),
        are_lengths(limits, names, lens),
        forall|i: int|
            0 <= i < names.len() && (#[trigger] names[i]) is Some ==> disk(names[i]->0@).len()
                == lens[i],
    ensures
        is_run(
            files,
            Seq::new(files.len(), |i: int| disk(files[i]@)),
            seq![ReaderView::at_start(files, limits)],
            Seq::empty(),
        ),
{
    let segments = Seq::new(files.len(), |i: int| disk(files[i]@));
    law_files_of_a_directory(names, lens, files, limits);
    assert forall|k: int| 0 <= k < segments.len() implies (#[trigger] segments[k]).len()
        == limits[k] by {
        let i = choose|i: int|
            0 <= i < names.len() && (#[trigger] names[i]) is Some && names[i]->0@ == files[k]@
                && lens[i] == limits[k];
        assert(disk(names[i]->0@).len() == lens[i]);
    }
    assert(lengths(segments) =~= limits);
}

} // verus!
