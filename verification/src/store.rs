//! What becomes of the files when a writer's commands are performed.
//!
//! The files of a log are modelled as what has been appended to each, how much of it
//! is visible to readers and how much is durable. The laws below follow a writer
//! whose commands succeed or fail: what it has appended is what a reader finds, what it
//! has flushed is visible, and what it has synced or sealed survives a crash.

use vstd::prelude::*;

use crate::course::{
    law_buffer_cannot_be_observed, law_new_writers_differ_in_buffer_only, same_but_buffer,
    same_progress,
};
use crate::error::IoError;
use crate::format::{
    frame, frame_checksum, frame_len, frames, judge, le_bytes, valid_record, Verdict,
};
use crate::iteration::{
    is_run, items, law_run_says_the_log, law_run_yields_the_log, said, yields,
};
use crate::reader::{ReaderView, StepView};
use crate::replay::{
    damaged, law_frame_reads_back, law_frames_read_back, law_log_round_trip,
    law_segments_are_concatenated, law_torn_segment, lemma_frames_prefix, lemma_whole_frames,
    nothing, preceded, read_from, records_from, valid_records, whole_frames, Damage, Ending,
    Reading,
};
use crate::segment::{name_of, MAX_SEGMENT_SEQ};
use crate::writer::{
    append_ok, command_of, Append, CommandView, ProgressView, Task, WriterView, MAX_SEGMENT_SIZE,
};

verus! {

/// A segment file.
pub struct SegmentFile {
    /// What has been appended to it.
    pub bytes: Seq<u8>,
    /// How many of these bytes readers can see; the others are in the buffer.
    pub visible: int,
    /// How many of these bytes are sure to survive a crash.
    pub durable: int,
    /// Whether the file's name is sure to survive a crash.
    pub linked: bool,
}

/// A file that has just been created.
pub open spec fn new_file() -> SegmentFile {
    SegmentFile { bytes: Seq::empty(), visible: 0, durable: 0, linked: false }
}

impl SegmentFile {
    /// Durable implies visible.
    pub open spec fn wf(self) -> bool {
        0 <= self.durable <= self.visible <= self.bytes.len()
    }

    /// Whether all of the file is on disk.
    pub open spec fn sealed(self) -> bool {
        self.durable == self.visible == self.bytes.len()
    }
}

/// Whether appending `bytes` to the file `was` may leave the file `is`.
pub open spec fn is_appended(was: SegmentFile, bytes: Seq<u8>, is: SegmentFile) -> bool {
    &&& is.bytes == was.bytes + bytes
    &&& is.wf()
    &&& is.visible >= was.visible
    &&& is.durable >= was.durable
    &&& is.linked == was.linked
}

/// Whether performing `command` may turn the files `before` into the files `after`.
/// File `i` is segment `i + 1`; the live one is at `live`. A buffer may empty on its
/// own, and the kernel may write to disk on its own.
pub open spec fn performed(
    before: Seq<SegmentFile>,
    live: int,
    command: CommandView,
    after: Seq<SegmentFile>,
) -> bool {
    let was = before[live];
    let is = after[live];
    match command {
        CommandView::Create { path, capacity: _ } => {
            &&& path == name_of(before.len() + 1)
            &&& after == before.push(new_file())
        },
        CommandView::SyncDir => {
            &&& after.len() == before.len()
            &&& forall|i: int|
                0 <= i < before.len() ==> #[trigger] after[i] == (SegmentFile {
                    linked: true,
                    ..before[i]
                })
        },
        CommandView::Write { bytes } => {
            &&& after == before.update(live, is)
            &&& is_appended(was, bytes, is)
        },
        CommandView::WriteRecord { record } => {
            &&& after == before.update(live, is)
            &&& is_appended(was, record, is)
        },
        CommandView::Flush => {
            &&& after == before.update(live, is)
            &&& is.bytes == was.bytes
            &&& is.wf()
            &&& is.visible == is.bytes.len()
            &&& is.durable >= was.durable
            &&& is.linked == was.linked
        },
        CommandView::SyncData => {
            &&& after == before.update(live, is)
            &&& is == (SegmentFile { durable: was.visible, ..was })
        },
    }
}

/// Whether a failed attempt to append `bytes` to the file `was` may leave the file `is`:
/// some of them may be in, and not all.
pub open spec fn is_torn(was: SegmentFile, bytes: Seq<u8>, is: SegmentFile) -> bool {
    exists|part: int|
        0 <= part < bytes.len() && is_appended(was, #[trigger] bytes.take(part), is)
}

/// Whether `command`, when it fails, may turn the files `before` into the files `after`.
/// Nothing that was appended, visible or durable is undone by the failure. Where syncing
/// the directory fails, the file created before that is still there.
pub open spec fn miscarried(
    before: Seq<SegmentFile>,
    live: int,
    command: CommandView,
    after: Seq<SegmentFile>,
) -> bool {
    let was = before[live];
    let is = after[live];
    match command {
        CommandView::Create { path: _, capacity: _ } => after == before,
        CommandView::SyncDir => {
            &&& after.len() == before.len()
            &&& forall|i: int|
                0 <= i < before.len() ==> #[trigger] after[i] == (SegmentFile {
                    linked: before[i].linked || after[i].linked,
                    ..before[i]
                })
        },
        CommandView::Write { bytes } => {
            &&& after == before.update(live, is)
            &&& is_torn(was, bytes, is)
        },
        CommandView::WriteRecord { record } => {
            &&& after == before.update(live, is)
            &&& is_torn(was, record, is)
        },
        CommandView::Flush | CommandView::SyncData => {
            &&& after == before.update(live, is)
            &&& is.bytes == was.bytes
            &&& is.wf()
            &&& is.visible >= was.visible
            &&& is.durable >= was.durable
            &&& is.linked == was.linked
        },
    }
}

/// Whether a writer at `task` is writing a frame.
pub open spec fn writes_frame(task: Task) -> bool {
    task is WriteLength || task is WritePayload || task is WriteChecksum
}

/// The part of a frame that has been appended while a writer is at `task`.
pub open spec fn in_flight(task: Task) -> Seq<u8> {
    match task {
        Task::WritePayload(a) => le_bytes(a.len as nat),
        Task::WriteChecksum(a) => le_bytes(a.len as nat) + a.record@,
        _ => Seq::empty(),
    }
}

/// The record on its way while a writer is at `task`.
pub open spec fn appending(task: Task) -> Option<Append> {
    match task {
        Task::SealFlush(a) => Some(a),
        Task::SealSync(a) => Some(a),
        Task::CreateNext(a) => Some(a),
        Task::LinkNext(a) => Some(a),
        Task::WriteLength(a) => Some(a),
        Task::WritePayload(a) => Some(a),
        Task::WriteChecksum(a) => Some(a),
        _ => None,
    }
}

/// How many files there are while a writer is at its task.
pub open spec fn file_count(v: WriterView) -> int {
    match v.task {
        Task::CreateFirst => v.seq - 1,
        Task::LinkNext(_) => v.seq + 1,
        _ => v.seq as int,
    }
}

/// Whether `files` are those of a writer that found `base` segments and has appended
/// the records in `log` since, segment by segment.
pub open spec fn keeps(
    v: WriterView,
    files: Seq<SegmentFile>,
    base: int,
    log: Seq<Seq<Seq<u8>>>,
) -> bool {
    &&& v.wf()
    &&& 0 <= base < v.seq
    &&& files.len() == file_count(v)
    &&& appending(v.task) matches Some(a) ==> a.crc == frame_checksum(a.record@)
    &&& forall|i: int| 0 <= i < log.len() ==> valid_records(#[trigger] log[i])
    &&& if v.task is CreateFirst {
        log.len() == 0 && base == v.seq - 1 && v.offset == 0
    } else {
        let live = files[v.seq - 1];
        let written = log[log.len() - 1];
        &&& log.len() == v.seq - base
        &&& forall|i: int|
            base <= i < v.seq - 1 ==> {
                &&& (#[trigger] files[i]).bytes == frames(log[i - base])
                &&& files[i].sealed()
                &&& files[i].linked
            }
        &&& live.wf()
        &&& live.bytes == frames(written) + in_flight(v.task)
        &&& live.linked || v.task is LinkFirst
        &&& v.offset == frames(written).len()
        &&& v.synced_offset <= live.durable
        &&& v.unflushed == live.bytes.len() - live.visible
        &&& match v.task {
            Task::LinkFirst => written.len() == 0 && base == v.seq - 1,
            Task::SealSync(_) => live.visible == live.bytes.len(),
            Task::CreateNext(_) => live.sealed(),
            Task::LinkNext(_) => live.sealed() && files[v.seq as int] == new_file(),
            Task::SyncData { .. } => live.visible == live.bytes.len(),
            _ => true,
        }
    }
}

/// The records in the log after the command of a writer at `task` was performed.
pub open spec fn grown(task: Task, log: Seq<Seq<Seq<u8>>>) -> Seq<Seq<Seq<u8>>> {
    match task {
        Task::CreateFirst => log.push(Seq::empty()),
        Task::LinkNext(_) => log.push(Seq::empty()),
        Task::WriteChecksum(a) => log.update(log.len() - 1, log.last().push(a.record@)),
        _ => log,
    }
}

/// A new writer has nothing in the log yet.
pub proof fn law_new_writer_keeps(seq: u64, capacity: usize, files: Seq<SegmentFile>)
    requires
        1 <= seq <= MAX_SEGMENT_SEQ,
        files.len() == seq - 1,
    ensures
        keeps(WriterView::created(seq, capacity), files, seq - 1, Seq::empty()),
{
}

/// Starting to append a record, or refusing it, changes nothing yet.
pub proof fn law_push_keeps(
    v: WriterView,
    files: Seq<SegmentFile>,
    base: int,
    log: Seq<Seq<Seq<u8>>>,
    record: Seq<u8>,
)
    requires
        keeps(v, files, base, log),
        v.task is Idle,
    ensures
        keeps(v.pushed(record, frame_checksum(record)).0, files, base, log),
{
}

/// Starting to flush, to sync or to close changes nothing yet.
pub proof fn law_barrier_keeps(
    v: WriterView,
    files: Seq<SegmentFile>,
    base: int,
    log: Seq<Seq<Seq<u8>>>,
    closing: bool,
)
    requires
        keeps(v, files, base, log),
        v.task is Idle,
    ensures
        keeps(v.at(Task::Flush).0, files, base, log),
        keeps(v.at(Task::SyncFlush { closing }).0, files, base, log),
{
}

/// The frame of a record, put together from what is written one after the other.
proof fn lemma_frame_completed(written: Seq<Seq<u8>>, a: Append)
    requires
        append_ok(a),
        a.crc == frame_checksum(a.record@),
    ensures
        frames(written.push(a.record@)) == frames(written) + (le_bytes(a.len as nat) + a.record@)
            + le_bytes(a.crc as nat),
        frames(written.push(a.record@)).len() == frames(written).len() + frame_len(a.len as nat),
{
    assert(written.push(a.record@).drop_last() =~= written);
    assert(frames(written) + frame(a.record@) =~= frames(written) + (le_bytes(a.len as nat)
        + a.record@) + le_bytes(a.crc as nat));
}

/// A command that succeeds keeps the files and the log in step: a finished append
/// adds its record behind the others, rotation adds a segment, and nothing else
/// changes what has been appended.
pub proof fn law_resume_keeps(
    v: WriterView,
    before: Seq<SegmentFile>,
    after: Seq<SegmentFile>,
    base: int,
    log: Seq<Seq<Seq<u8>>>,
    unflushed: usize,
)
    requires
        keeps(v, before, base, log),
        !(v.task is Idle),
        performed(before, v.seq - 1, command_of(v), after),
        ({
            let live = after[v.resumed(Ok(()), unflushed).0.seq - 1];
            unflushed == live.bytes.len() - live.visible
        }),
    ensures
        keeps(v.resumed(Ok(()), unflushed).0, after, base, grown(v.task, log)),
{
    let w = v.resumed(Ok(()), unflushed).0;
    let more = grown(v.task, log);
    match v.task {
        Task::CreateFirst => {
            assert(after[v.seq - 1].bytes =~= frames(more.last()) + in_flight(w.task));
        },
        Task::LinkNext(_) => {
            assert(after[w.seq - 1].bytes =~= frames(more.last()) + in_flight(w.task));
        },
        Task::WriteLength(a) => {
            assert(after[v.seq - 1].bytes =~= frames(log.last()) + le_bytes(a.len as nat));
        },
        Task::WritePayload(a) => {
            assert(after[v.seq - 1].bytes =~= frames(log.last()) + (le_bytes(a.len as nat)
                + a.record@));
        },
        Task::WriteChecksum(a) => {
            lemma_frame_completed(log.last(), a);
            assert(after[v.seq - 1].bytes =~= frames(more.last()) + in_flight(w.task));
            assert forall|i: int| 0 <= i < more.len() implies valid_records(#[trigger] more[i]) by {
                assert(valid_records(log[i]));
            }
        },
        _ => {},
    }
}

/// A flush, a sync, a creation or a directory sync that fails keeps the files and the
/// log in step: what was appended is still there, as visible and as durable as before,
/// and the writer is where it was. A file left over by a failed directory sync is set
/// aside: it is empty, and no segment of this writer.
pub proof fn law_failure_keeps(
    v: WriterView,
    before: Seq<SegmentFile>,
    after: Seq<SegmentFile>,
    base: int,
    log: Seq<Seq<Seq<u8>>>,
    e: IoError,
    unflushed: usize,
)
    requires
        keeps(v, before, base, log),
        !(v.task is Idle),
        !(v.task is CreateFirst),
        !(v.task is LinkFirst),
        !writes_frame(v.task),
        miscarried(before, v.seq - 1, command_of(v), after),
        unflushed == after[v.seq - 1].bytes.len() - after[v.seq - 1].visible,
    ensures
        keeps(v.resumed(Err(e), unflushed).0, after.take(v.seq as int), base, log),
        v.task is LinkNext ==> after.len() == v.seq + 1 && after[v.seq as int].bytes
            == Seq::<u8>::empty(),
        !(v.task is LinkNext) ==> after.take(v.seq as int) == after,
{
    let left = after.take(v.seq as int);
    assert(left[v.seq - 1] == after[v.seq - 1]);
    assert(left[v.seq - 1].bytes =~= frames(log.last()) + in_flight(Task::Idle));
    assert forall|i: int| base <= i < v.seq - 1 implies {
        &&& (#[trigger] left[i]).bytes == frames(log[i - base])
        &&& left[i].sealed()
        &&& left[i].linked
    } by {
        assert(before[i].sealed());
        assert(left[i] == after[i]);
    }
}

/// What a reader, or a reader after a crash, may find in the files from segment
/// `base + 1` on: of each file at least what is durable and at most what is visible.
pub open spec fn may_find(
    files: Seq<SegmentFile>,
    base: int,
    contents: Seq<Seq<u8>>,
) -> bool {
    &&& contents.len() == files.len()
    &&& forall|i: int|
        base <= i < files.len() ==> {
            &&& files[i].durable <= (#[trigger] contents[i]).len() <= files[i].visible
            &&& contents[i] == files[i].bytes.take(contents[i].len() as int)
        }
}

/// What readers can see of the files.
pub open spec fn visible_parts(files: Seq<SegmentFile>) -> Seq<Seq<u8>> {
    Seq::new(files.len(), |i: int| files[i].bytes.take(files[i].visible))
}

/// The sealed segments give back all of their records, and lead on to the live one.
proof fn lemma_sealed_lead_on(
    v: WriterView,
    files: Seq<SegmentFile>,
    base: int,
    log: Seq<Seq<Seq<u8>>>,
    contents: Seq<Seq<u8>>,
)
    requires
        keeps(v, files, base, log),
        !(v.task is CreateFirst),
        contents.len() >= v.seq,
        forall|i: int| base <= i < v.seq - 1 ==> #[trigger] contents[i] == files[i].bytes,
    ensures
        read_from(contents, base, 0) == preceded(
            records_from(log.drop_last(), 0),
            read_from(contents, v.seq - 1, 0),
        ),
{
    let last = v.seq - 1;
    let first = contents.take(last);
    let sealed = log.drop_last();
    assert forall|i: int| base <= i < first.len() implies #[trigger] first[i] == frames(
        sealed[i - base],
    ) by {
        assert(first[i] == contents[i]);
        assert(files[i].bytes == frames(log[i - base]));
    }
    assert forall|i: int| 0 <= i < sealed.len() implies valid_records(#[trigger] sealed[i]) by {
        assert(sealed[i] == log[i]);
    }
    law_log_round_trip(first, base, sealed, base);
    law_segments_are_concatenated(contents, last, base, 0);
}

/// Of a sealed segment all is found.
proof fn lemma_sealed_is_found(
    v: WriterView,
    files: Seq<SegmentFile>,
    base: int,
    log: Seq<Seq<Seq<u8>>>,
    found: Seq<SegmentFile>,
    contents: Seq<Seq<u8>>,
)
    requires
        keeps(v, files, base, log),
        !(v.task is CreateFirst),
        found.len() == v.seq,
        forall|i: int| base <= i < v.seq - 1 ==> #[trigger] found[i] == files[i],
        may_find(found, base, contents),
    ensures
        forall|i: int| base <= i < v.seq - 1 ==> #[trigger] contents[i] == files[i].bytes,
{
    assert forall|i: int| base <= i < v.seq - 1 implies #[trigger] contents[i]
        == files[i].bytes by {
        assert(found[i] == files[i]);
        assert(files[i].sealed());
        assert(files[i].bytes.take(files[i].bytes.len() as int) =~= files[i].bytes);
    }
}

/// Whether `contents` read, from segment `base + 1` on, as a prefix of what a writer has
/// appended: every sealed segment in full, and of the live one the records whose frames
/// are whole, with a clean end or one truncated at the frame that was being written. No
/// record that was synced is missing.
pub open spec fn reads_as_prefix(
    v: WriterView,
    base: int,
    log: Seq<Seq<Seq<u8>>>,
    contents: Seq<Seq<u8>>,
) -> bool {
    let live = log.last();
    let len = contents.last().len() as int;
    let whole = live.take(whole_frames(live, len));
    let end = frames(whole).len() as int;
    &&& read_from(contents, base, 0) == preceded(
        records_from(log.drop_last(), 0) + whole,
        if end == len {
            nothing()
        } else {
            damaged(v.seq - 1, end, Damage::Truncated)
        },
    )
    &&& forall|n: int|
        0 <= n <= live.len() && (#[trigger] frames(live.take(n))).len() <= v.synced_offset
            ==> n <= whole.len()
}

/// Records whose frames end within the first `synced` bytes are among those whose
/// frames are whole in as many bytes or more.
proof fn lemma_synced_are_whole(records: Seq<Seq<u8>>, synced: int, len: int)
    requires
        0 <= synced <= len,
    ensures
        forall|n: int|
            0 <= n <= records.len() && (#[trigger] frames(records.take(n))).len() <= synced
                ==> n <= whole_frames(records, len),
{
    let m = whole_frames(records, len);
    lemma_whole_frames(records, len);
    assert forall|n: int|
        0 <= n <= records.len() && (#[trigger] frames(records.take(n))).len()
            <= synced implies n <= m by {
        if n > m {
            assert(records.take(n).take(m + 1) =~= records.take(m + 1));
            lemma_frames_prefix(records.take(n), m + 1);
        }
    }
}

/// A live segment that holds a part of the frames of its records, and of the one being
/// written, reads as a prefix.
proof fn lemma_part_reads_as_prefix(
    v: WriterView,
    base: int,
    log: Seq<Seq<Seq<u8>>>,
    contents: Seq<Seq<u8>>,
    attempt: Seq<Seq<u8>>,
)
    requires
        log.len() > 0,
        contents.len() == v.seq,
        v.seq >= 1,
        read_from(contents, base, 0) == preceded(
            records_from(log.drop_last(), 0),
            read_from(contents, v.seq - 1, 0),
        ),
        valid_records(attempt),
        attempt == log.last() || attempt.len() > 0 && attempt.drop_last() == log.last()
            && contents.last().len() < frames(attempt).len(),
        contents.last().len() <= frames(attempt).len(),
        contents.last() == frames(attempt).take(contents.last().len() as int),
        v.synced_offset <= contents.last().len(),
    ensures
        reads_as_prefix(v, base, log, contents),
{
    let last = v.seq - 1;
    let live = log.last();
    let len = contents.last().len() as int;
    let whole = live.take(whole_frames(live, len));
    lemma_whole_frames(live, len);
    if attempt != live {
        assert(whole_frames(attempt, len) == whole_frames(live, len));
        assert(attempt.take(whole_frames(live, len)) =~= whole);
    }
    law_torn_segment(contents, last, attempt, len);
    let sealed = records_from(log.drop_last(), 0);
    assert(read_from(contents, last + 1, 0) == nothing());
    let rest = if frames(whole).len() == len {
        nothing()
    } else {
        damaged(last, frames(whole).len() as int, Damage::Truncated)
    };
    assert(preceded(sealed, preceded(whole, rest)) =~= preceded(sealed + whole, rest));
    lemma_synced_are_whole(live, v.synced_offset as int, len);
}

/// The records of the live segment, with the one of which a part has been written.
spec fn attempted(task: Task, log: Seq<Seq<Seq<u8>>>) -> Seq<Seq<u8>> {
    match task {
        Task::WritePayload(a) | Task::WriteChecksum(a) => log.last().push(a.record@),
        _ => log.last(),
    }
}

/// The live segment holds a part of the frames of these records.
proof fn lemma_live_is_part(
    v: WriterView,
    files: Seq<SegmentFile>,
    base: int,
    log: Seq<Seq<Seq<u8>>>,
)
    requires
        keeps(v, files, base, log),
        !(v.task is CreateFirst),
    ensures
        ({
            let attempt = attempted(v.task, log);
            let bytes = files[v.seq - 1].bytes;
            &&& valid_records(attempt)
            &&& bytes.len() <= frames(attempt).len()
            &&& bytes == frames(attempt).take(bytes.len() as int)
            &&& attempt == log.last() || attempt.len() > 0 && attempt.drop_last() == log.last()
                && bytes.len() < frames(attempt).len()
        }),
{
    let live = log.last();
    let attempt = attempted(v.task, log);
    let bytes = files[v.seq - 1].bytes;
    assert(valid_records(log[log.len() - 1]));
    if let Some(a) = appending(v.task) {
        lemma_frame_completed(live, a);
        assert(live.push(a.record@).drop_last() =~= live);
    }
    assert(bytes =~= frames(attempt).take(bytes.len() as int));
}

/// What a reader finds at any moment, and after a crash at any moment that leaves of
/// each file what had reached the disk, is a prefix of what has been appended. A segment
/// that has been created and is not live yet is left out here: it is empty, and an empty
/// segment behind the others changes nothing.
pub proof fn law_any_moment_leaves_a_prefix(
    v: WriterView,
    files: Seq<SegmentFile>,
    base: int,
    log: Seq<Seq<Seq<u8>>>,
    contents: Seq<Seq<u8>>,
)
    requires
        keeps(v, files, base, log),
        !(v.task is CreateFirst),
        may_find(files.take(v.seq as int), base, contents),
    ensures
        reads_as_prefix(v, base, log, contents),
{
    let last = v.seq - 1;
    let len = contents[last].len() as int;
    let bytes = files[last].bytes;
    let attempt = attempted(v.task, log);
    assert(files.take(v.seq as int)[last] == files[last]);
    lemma_sealed_is_found(v, files, base, log, files.take(v.seq as int), contents);
    lemma_sealed_lead_on(v, files, base, log, contents);
    assert(contents.last() == contents[last]);
    lemma_live_is_part(v, files, base, log);
    assert(bytes.take(len) =~= frames(attempt).take(len));
    lemma_part_reads_as_prefix(v, base, log, contents, attempt);
}

/// A write that fails is a torn tail at most: what readers find after it, and after a
/// crash, is a prefix of what had been appended. The record is not in it.
pub proof fn law_failed_write_leaves_a_prefix(
    v: WriterView,
    before: Seq<SegmentFile>,
    after: Seq<SegmentFile>,
    base: int,
    log: Seq<Seq<Seq<u8>>>,
    e: IoError,
    unflushed: usize,
    contents: Seq<Seq<u8>>,
)
    requires
        keeps(v, before, base, log),
        writes_frame(v.task),
        miscarried(before, v.seq - 1, command_of(v), after),
        may_find(after, base, contents),
    ensures
        reads_as_prefix(v.resumed(Err(e), unflushed).0, base, log, contents),
{
    let w = v.resumed(Err(e), unflushed).0;
    let last = v.seq - 1;
    let live = log.last();
    let a = appending(v.task)->0;
    let attempt = live.push(a.record@);
    let len = contents[last].len() as int;
    lemma_sealed_is_found(v, before, base, log, after, contents);
    lemma_sealed_lead_on(v, before, base, log, contents);
    assert(contents.last() == contents[last]);
    assert(valid_records(log[log.len() - 1]));
    lemma_frame_completed(live, a);
    assert(attempt.drop_last() =~= live);
    let tail = le_bytes(a.crc as nat);
    let bytes = match v.task {
        Task::WriteLength(_) => le_bytes(a.len as nat),
        Task::WritePayload(_) => a.record@,
        _ => tail,
    };
    let part = choose|part: int|
        0 <= part < bytes.len() && is_appended(
            before[last],
            #[trigger] bytes.take(part),
            after[last],
        );
    assert(after[last].bytes == frames(live) + in_flight(v.task) + bytes.take(part));
    assert(after[last].bytes =~= frames(attempt).take(after[last].bytes.len() as int));
    assert(after[last].bytes.take(len) =~= frames(attempt).take(len));
    lemma_part_reads_as_prefix(w, base, log, contents, attempt);
}

/// Whether `contents` may be found after a crash: every sealed segment as it is, and of
/// the live one at least what is durable. Behind that anything may stand, since pages
/// reach the disk in any order, and behind the live segment any other.
pub open spec fn may_survive(
    v: WriterView,
    files: Seq<SegmentFile>,
    base: int,
    contents: Seq<Seq<u8>>,
) -> bool {
    let live = files[v.seq - 1];
    let found = contents[v.seq - 1];
    &&& contents.len() >= v.seq
    &&& forall|i: int| base <= i < v.seq - 1 ==> #[trigger] contents[i] == files[i].bytes
    &&& live.durable <= found.len()
    &&& found.take(live.durable) == live.bytes.take(live.durable)
}

/// The records of the live segment whose frames are durable.
pub open spec fn durable_records(
    v: WriterView,
    files: Seq<SegmentFile>,
    log: Seq<Seq<Seq<u8>>>,
) -> Seq<Seq<u8>> {
    log.last().take(whole_frames(log.last(), files[v.seq - 1].durable))
}

/// Whatever a crash leaves behind what is durable, the records of the sealed segments
/// and those whose frames are durable are read first. Every record that was synced is
/// among them; after a sync these are all.
pub proof fn law_synced_records_survive(
    v: WriterView,
    files: Seq<SegmentFile>,
    base: int,
    log: Seq<Seq<Seq<u8>>>,
    contents: Seq<Seq<u8>>,
)
    requires
        keeps(v, files, base, log),
        !(v.task is CreateFirst),
        may_survive(v, files, base, contents),
    ensures
        ({
            let live = log.last();
            let durable = durable_records(v, files, log);
            &&& read_from(contents, base, 0) == preceded(
                records_from(log.drop_last(), 0) + durable,
                read_from(contents, v.seq - 1, frames(durable).len() as int),
            )
            &&& forall|n: int|
                0 <= n <= live.len() && (#[trigger] frames(live.take(n))).len() <= v.synced_offset
                    ==> n <= durable.len()
            &&& v.synced_offset == v.offset ==> records_from(log.drop_last(), 0) + durable
                == records_from(log, 0)
        }),
{
    let last = v.seq - 1;
    let live = log.last();
    let len = files[last].durable;
    let durable = durable_records(v, files, log);
    let end = frames(durable).len() as int;
    let bytes = files[last].bytes;
    let found = contents[last];
    lemma_sealed_lead_on(v, files, base, log, contents);
    assert(valid_records(log[log.len() - 1]));
    lemma_whole_frames(live, len);
    lemma_frames_prefix(live, whole_frames(live, len));
    assert(found.subrange(0, end) =~= frames(durable)) by {
        assert(found.subrange(0, end) =~= found.take(len).take(end));
        assert(bytes.take(len).take(end) =~= frames(live).take(end)) by {
            assert(end <= frames(live).len());
        }
    }
    assert forall|i: int| 0 <= i < durable.len() implies valid_record(#[trigger] durable[i]) by {
        assert(durable[i] == live[i]);
    }
    law_frames_read_back(contents, last, 0, durable);
    let sealed = records_from(log.drop_last(), 0);
    let rest = read_from(contents, last, end);
    assert(preceded(sealed, preceded(durable, rest)) =~= preceded(sealed + durable, rest));
    lemma_synced_are_whole(live, v.synced_offset as int, len);
    if v.synced_offset == v.offset {
        assert(durable =~= live);
        lemma_records_split(log, 0);
    }
}

/// A reader after a crash, behind earlier segments that end cleanly, yields their records
/// first and after them those that were sealed or synced, whatever else the crash left.
pub proof fn law_synced_records_are_read_after_a_crash(
    v: WriterView,
    files: Seq<SegmentFile>,
    base: int,
    log: Seq<Seq<Seq<u8>>>,
    contents: Seq<Seq<u8>>,
    paths: Seq<String>,
    states: Seq<ReaderView>,
    steps: Seq<StepView<Seq<u8>>>,
    k: int,
)
    requires
        keeps(v, files, base, log),
        !(v.task is CreateFirst),
        may_survive(v, files, base, contents),
        read_from(contents.take(base), 0, 0).ending is Clean,
        is_run(paths, contents, states, steps),
        0 <= k < yields(steps).len(),
        k < (read_from(contents.take(base), 0, 0).records + records_from(log.drop_last(), 0)
            + durable_records(v, files, log)).len(),
    ensures
        yields(steps)[k] == (StepView::Item {
            item: (read_from(contents.take(base), 0, 0).records + records_from(
                log.drop_last(),
                0,
            ) + durable_records(v, files, log))[k],
        }),
{
    let earlier = read_from(contents.take(base), 0, 0).records;
    let sealed = records_from(log.drop_last(), 0);
    let durable = durable_records(v, files, log);
    law_synced_records_survive(v, files, base, log, contents);
    law_segments_are_concatenated(contents, base, 0, 0);
    law_run_says_the_log(paths, contents, states, steps);
    let whole = read_from(contents, 0, 0);
    let first = earlier + sealed + durable;
    assert(whole.records == earlier + read_from(contents, base, 0).records);
    assert(whole.records[k] == first[k]);
    assert(yields(steps)[k] == said(paths, whole, k));
}

/// The records of the sealed segments and those of the live one are all of them.
proof fn lemma_records_split(log: Seq<Seq<Seq<u8>>>, index: int)
    requires
        0 <= index < log.len(),
    ensures
        records_from(log, index) == records_from(log.drop_last(), index) + log.last(),
    decreases log.len() - index,
{
    if index == log.len() - 1 {
        assert(records_from(log, index + 1) =~= Seq::<Seq<u8>>::empty());
        assert(records_from(log, index) =~= records_from(log.drop_last(), index) + log.last());
    } else {
        lemma_records_split(log, index + 1);
        assert(records_from(log, index) =~= records_from(log.drop_last(), index) + log.last());
    }
}

/// With nothing in the buffer, readers see every record appended, and a clean end.
pub proof fn law_flushed_log_reads_back(
    v: WriterView,
    files: Seq<SegmentFile>,
    base: int,
    log: Seq<Seq<Seq<u8>>>,
)
    requires
        keeps(v, files, base, log),
        v.task is Idle,
        v.unflushed == 0,
    ensures
        read_from(visible_parts(files), base, 0) == (Reading {
            records: records_from(log, 0),
            ending: Ending::Clean,
        }),
{
    let contents = visible_parts(files);
    assert forall|i: int| base <= i < files.len() implies {
        &&& files[i].durable <= (#[trigger] contents[i]).len() <= files[i].visible
        &&& contents[i] == files[i].bytes.take(contents[i].len() as int)
    } by {
        if i < v.seq - 1 {
            assert(files[i].sealed());
        }
    }
    assert(files.take(v.seq as int) =~= files);
    law_any_moment_leaves_a_prefix(v, files, base, log, contents);
    assert(contents.last() == files[v.seq - 1].bytes.take(files[v.seq - 1].visible));
    assert(log.last().take(log.last().len() as int) =~= log.last());
    lemma_records_split(log, 0);
}

/// A flush makes everything appended visible, and so clears the one watermark; the
/// other is what has been appended since the last sync.
pub proof fn law_flush_makes_visible(
    v: WriterView,
    before: Seq<SegmentFile>,
    after: Seq<SegmentFile>,
    base: int,
    log: Seq<Seq<Seq<u8>>>,
    unflushed: usize,
)
    requires
        keeps(v, before, base, log),
        v.task is Flush,
        performed(before, v.seq - 1, command_of(v), after),
        unflushed == after[v.seq - 1].bytes.len() - after[v.seq - 1].visible,
    ensures
        ({
            let (w, progress) = v.resumed(Ok(()), unflushed);
            &&& progress is Completed
            &&& w.unflushed == 0
            &&& w.unsynced() == w.offset - w.synced_offset
            &&& read_from(visible_parts(after), base, 0) == (Reading {
                records: records_from(log, 0),
                ending: Ending::Clean,
            })
        }),
{
    law_resume_keeps(v, before, after, base, log, unflushed);
    law_flushed_log_reads_back(v.resumed(Ok(()), unflushed).0, after, base, log);
}

/// A sync makes everything appended visible and durable, clears both watermarks, and
/// from then on a crash takes nothing of it.
pub proof fn law_sync_makes_durable(
    v: WriterView,
    before: Seq<SegmentFile>,
    after: Seq<SegmentFile>,
    base: int,
    log: Seq<Seq<Seq<u8>>>,
    unflushed: usize,
    contents: Seq<Seq<u8>>,
)
    requires
        keeps(v, before, base, log),
        v.task is SyncData,
        performed(before, v.seq - 1, command_of(v), after),
        unflushed == after[v.seq - 1].bytes.len() - after[v.seq - 1].visible,
        may_find(after, base, contents),
    ensures
        ({
            let (w, progress) = v.resumed(Ok(()), unflushed);
            &&& progress is Completed
            &&& w.unflushed == 0
            &&& w.unsynced() == 0
            &&& w.synced_offset == w.offset
            &&& after[v.seq - 1].sealed()
            &&& read_from(contents, base, 0) == (Reading {
                records: records_from(log, 0),
                ending: Ending::Clean,
            })
        }),
{
    let w = v.resumed(Ok(()), unflushed).0;
    law_resume_keeps(v, before, after, base, log, unflushed);
    assert(after.take(v.seq as int) =~= after);
    law_any_moment_leaves_a_prefix(w, after, base, log, contents);
    assert(contents.last() == contents[v.seq - 1]);
    assert(log.last().take(log.last().len() as int) =~= log.last());
    lemma_records_split(log, 0);
}

/// A segment is on disk, name and all, before the next one is created.
pub proof fn law_rotation_seals_first(
    v: WriterView,
    files: Seq<SegmentFile>,
    base: int,
    log: Seq<Seq<Seq<u8>>>,
)
    requires
        keeps(v, files, base, log),
        v.task is CreateNext,
    ensures
        files[v.seq - 1].sealed(),
        files[v.seq - 1].linked,
        files[v.seq - 1].bytes == frames(log.last()),
{
    assert(files[v.seq - 1].bytes =~= frames(log.last()));
}

/// Between operations the live segment is as long as the writer counts, no longer
/// than a segment may be, and its name is durable. The watermarks tell the truth: so
/// many bytes are not visible yet, and so many that are visible were not synced.
pub proof fn law_writer_counts_right(
    v: WriterView,
    files: Seq<SegmentFile>,
    base: int,
    log: Seq<Seq<Seq<u8>>>,
)
    requires
        keeps(v, files, base, log),
        v.task is Idle,
    ensures
        files[v.seq - 1].bytes.len() == v.offset,
        v.offset <= MAX_SEGMENT_SIZE,
        files[v.seq - 1].linked,
        v.unflushed == files[v.seq - 1].bytes.len() - files[v.seq - 1].visible,
        v.unsynced() == files[v.seq - 1].visible - v.synced_offset,
        v.unflushed + v.unsynced() + v.synced_offset == v.offset,
{
}

/// The offset that an append reports is where its record is found again.
pub proof fn law_offset_finds_the_record(
    v: WriterView,
    before: Seq<SegmentFile>,
    after: Seq<SegmentFile>,
    base: int,
    log: Seq<Seq<Seq<u8>>>,
    unflushed: usize,
    a: Append,
)
    requires
        keeps(v, before, base, log),
        v.task == Task::WriteChecksum(a),
        performed(before, v.seq - 1, command_of(v), after),
    ensures
        v.resumed(Ok(()), unflushed).1 == (ProgressView::Appended { offset: v.offset }),
        judge(after[v.seq - 1].bytes.skip(v.offset as int)) == (Verdict::Record {
            payload: a.record@,
        }),
{
    let bytes = after[v.seq - 1].bytes;
    lemma_frame_completed(log.last(), a);
    assert(bytes =~= frames(log.last()) + frame(a.record@));
    assert(bytes.skip(v.offset as int) =~= frame(a.record@) + Seq::empty());
    law_frame_reads_back(a.record@, Seq::empty());
}

/// What was written is what is read. A reader, opened once a writer has flushed, that
/// goes over everything visible as of open, behind earlier segments that end cleanly, yields their
/// records and after them every record that was appended, in order, and ends without
/// an error.
pub proof fn law_what_was_written_is_read(
    v: WriterView,
    files: Seq<SegmentFile>,
    base: int,
    log: Seq<Seq<Seq<u8>>>,
    paths: Seq<String>,
    states: Seq<ReaderView>,
    steps: Seq<StepView<Seq<u8>>>,
)
    requires
        keeps(v, files, base, log),
        v.task is Idle,
        v.unflushed == 0,
        read_from(visible_parts(files).take(base), 0, 0).ending is Clean,
        is_run(paths, visible_parts(files), states, steps),
        steps.len() > 0,
        forall|i: int| 0 <= i < steps.len() - 1 ==> !(#[trigger] steps[i] is Failed),
        steps.last() is End || steps.last() is Failed,
    ensures
        steps.last() is End,
        items(steps) == read_from(visible_parts(files).take(base), 0, 0).records + records_from(
            log,
            0,
        ),
{
    let contents = visible_parts(files);
    law_flushed_log_reads_back(v, files, base, log);
    law_segments_are_concatenated(contents, base, 0, 0);
    law_run_yields_the_log(paths, contents, states, steps);
}

/// Something that happens to a writer: an operation is started, or the command of the
/// operation under way succeeds or fails and leaves so many bytes in the buffer.
pub enum Deed {
    Push { record: Seq<u8> },
    Flush,
    Sync { closing: bool },
    Performed { unflushed: usize },
    Failed { error: IoError, unflushed: usize },
}

/// Whether `deed` may take a writer and its files from one state to the next. A failure
/// to make the first segment, which ends the writer, and one to write a frame, which
/// leaves a torn tail, are not among them.
pub open spec fn may_do(
    before: WriterView,
    files: Seq<SegmentFile>,
    deed: Deed,
    after: WriterView,
    changed: Seq<SegmentFile>,
) -> bool {
    match deed {
        Deed::Push { record } => {
            &&& before.task is Idle
            &&& !before.closed
            &&& after == before.pushed(record, frame_checksum(record)).0
            &&& changed == files
        },
        Deed::Flush => {
            &&& before.task is Idle
            &&& !before.closed
            &&& after == before.at(Task::Flush).0
            &&& changed == files
        },
        Deed::Sync { closing } => {
            &&& before.task is Idle
            &&& !before.closed
            &&& after == before.at(Task::SyncFlush { closing }).0
            &&& changed == files
        },
        Deed::Performed { unflushed } => {
            &&& !(before.task is Idle)
            &&& performed(files, before.seq - 1, command_of(before), changed)
            &&& after == before.resumed(Ok(()), unflushed).0
            &&& unflushed == changed[after.seq - 1].bytes.len() - changed[after.seq - 1].visible
        },
        Deed::Failed { error, unflushed } => {
            &&& !(before.task is Idle)
            &&& !(before.task is CreateFirst)
            &&& !(before.task is LinkFirst)
            &&& !writes_frame(before.task)
            &&& exists|left: Seq<SegmentFile>| #[trigger]
                miscarried(files, before.seq - 1, command_of(before), left) && changed
                    == left.take(before.seq as int)
            &&& after == before.resumed(Err(error), unflushed).0
            &&& unflushed == changed[before.seq - 1].bytes.len() - changed[before.seq - 1].visible
        },
    }
}

/// Whether `states` and `files` are a course that a writer may take, from the moment
/// that it is made for segment `seq`, with `deeds` on the way.
pub open spec fn is_life(
    seq: u64,
    capacity: usize,
    states: Seq<WriterView>,
    files: Seq<Seq<SegmentFile>>,
    deeds: Seq<Deed>,
) -> bool {
    &&& 1 <= seq <= MAX_SEGMENT_SEQ
    &&& states.len() == deeds.len() + 1
    &&& files.len() == deeds.len() + 1
    &&& states[0] == WriterView::created(seq, capacity)
    &&& files[0].len() == seq - 1
    &&& forall|i: int|
        0 <= i < deeds.len() ==> may_do(
            states[i],
            files[i],
            #[trigger] deeds[i],
            states[i + 1],
            files[i + 1],
        )
}

/// The records whose append was reported done among the first `n` deeds, in order.
pub open spec fn appended(states: Seq<WriterView>, deeds: Seq<Deed>, n: int) -> Seq<Seq<u8>>
    decreases n,
{
    if n <= 0 {
        Seq::empty()
    } else {
        let before = appended(states, deeds, n - 1);
        match (deeds[n - 1], states[n - 1].task) {
            (Deed::Performed { .. }, Task::WriteChecksum(a)) => before.push(a.record@),
            _ => before,
        }
    }
}

/// A new segment adds no record, and a finished append adds its own.
proof fn lemma_grown_records(task: Task, log: Seq<Seq<Seq<u8>>>)
    requires
        task is WriteChecksum ==> log.len() > 0,
    ensures
        records_from(grown(task, log), 0) == match task {
            Task::WriteChecksum(a) => records_from(log, 0).push(a.record@),
            _ => records_from(log, 0),
        },
{
    let more = grown(task, log);
    match task {
        Task::CreateFirst | Task::LinkNext(_) => {
            lemma_records_split(more, 0);
            assert(more.drop_last() =~= log);
            assert(records_from(more, 0) =~= records_from(log, 0));
        },
        Task::WriteChecksum(a) => {
            lemma_records_split(more, 0);
            lemma_records_split(log, 0);
            assert(more.drop_last() =~= log.drop_last());
            assert(records_from(more, 0) =~= records_from(log, 0).push(a.record@));
        },
        _ => {},
    }
}

/// All through the life of a writer, its files hold the records reported done, in that
/// order, and nothing else but a frame being written.
pub proof fn law_files_hold_what_was_appended(
    seq: u64,
    capacity: usize,
    states: Seq<WriterView>,
    files: Seq<Seq<SegmentFile>>,
    deeds: Seq<Deed>,
    n: int,
) -> (log: Seq<Seq<Seq<u8>>>)
    requires
        is_life(seq, capacity, states, files, deeds),
        0 <= n <= deeds.len(),
    ensures
        keeps(states[n], files[n], seq - 1, log),
        records_from(log, 0) == appended(states, deeds, n),
    decreases n,
{
    if n == 0 {
        law_new_writer_keeps(seq, capacity, files[0]);
        assert(records_from(Seq::<Seq<Seq<u8>>>::empty(), 0) =~= appended(states, deeds, 0));
        Seq::empty()
    } else {
        let base = seq - 1;
        let log = law_files_hold_what_was_appended(seq, capacity, states, files, deeds, n - 1);
        let v = states[n - 1];
        let deed = deeds[n - 1];
        assert(may_do(v, files[n - 1], deed, states[n - 1 + 1], files[n - 1 + 1]));
        match deed {
            Deed::Push { record } => {
                law_push_keeps(v, files[n - 1], base, log, record);
                log
            },
            Deed::Flush => {
                law_barrier_keeps(v, files[n - 1], base, log, false);
                log
            },
            Deed::Sync { closing } => {
                law_barrier_keeps(v, files[n - 1], base, log, closing);
                log
            },
            Deed::Performed { unflushed } => {
                law_resume_keeps(v, files[n - 1], files[n], base, log, unflushed);
                lemma_grown_records(v.task, log);
                grown(v.task, log)
            },
            Deed::Failed { error, unflushed } => {
                let left = choose|left: Seq<SegmentFile>| #[trigger]
                    miscarried(files[n - 1], v.seq - 1, command_of(v), left) && files[n]
                        == left.take(v.seq as int);
                assert(left.take(v.seq as int)[v.seq - 1] == left[v.seq - 1]);
                law_failure_keeps(v, files[n - 1], left, base, log, error, unflushed);
                log
            },
        }
    }
}

/// Every record reported done is read back: once a writer is between operations with
/// nothing in its buffer, a reader opened on its directory yields what the
/// segments before it held and after that the records reported done, in order, and
/// ends without an error.
pub proof fn law_every_appended_record_is_read(
    seq: u64,
    capacity: usize,
    lives: Seq<WriterView>,
    files: Seq<Seq<SegmentFile>>,
    deeds: Seq<Deed>,
    paths: Seq<String>,
    states: Seq<ReaderView>,
    steps: Seq<StepView<Seq<u8>>>,
)
    requires
        is_life(seq, capacity, lives, files, deeds),
        lives.last().task is Idle,
        lives.last().unflushed == 0,
        read_from(visible_parts(files.last()).take(seq - 1), 0, 0).ending is Clean,
        is_run(paths, visible_parts(files.last()), states, steps),
        steps.len() > 0,
        forall|i: int| 0 <= i < steps.len() - 1 ==> !(#[trigger] steps[i] is Failed),
        steps.last() is End || steps.last() is Failed,
    ensures
        steps.last() is End,
        items(steps) == read_from(visible_parts(files.last()).take(seq - 1), 0, 0).records
            + appended(lives, deeds, deeds.len() as int),
{
    let n = deeds.len() as int;
    let log = law_files_hold_what_was_appended(seq, capacity, lives, files, deeds, n);
    law_what_was_written_is_read(lives[n], files[n], seq - 1, log, paths, states, steps);
}

/// Whether two deeds are the same, with buffers of whatever size.
pub open spec fn same_deed(a: Deed, b: Deed) -> bool {
    match (a, b) {
        (Deed::Performed { .. }, Deed::Performed { .. }) => true,
        (Deed::Failed { error, .. }, Deed::Failed { error: other, .. }) => error == other,
        _ => a == b,
    }
}

/// What a writer answers to `deed`.
pub open spec fn answer(v: WriterView, deed: Deed) -> ProgressView {
    match deed {
        Deed::Push { record } => v.pushed(record, frame_checksum(record)).1,
        Deed::Flush => v.at(Task::Flush).1,
        Deed::Sync { closing } => v.at(Task::SyncFlush { closing }).1,
        Deed::Performed { unflushed } => v.resumed(Ok(()), unflushed).1,
        Deed::Failed { error, unflushed } => v.resumed(Err(error), unflushed).1,
    }
}

/// Whether the files have had the same appended to them. Of the segments before `base`
/// readers see the same.
pub open spec fn same_appended(a: Seq<SegmentFile>, b: Seq<SegmentFile>, base: int) -> bool {
    &&& a.len() == b.len()
    &&& forall|i: int| 0 <= i < a.len() ==> (#[trigger] a[i]).bytes == b[i].bytes
    &&& forall|i: int| 0 <= i < base ==> (#[trigger] a[i]).visible == b[i].visible
}

/// Whatever the sizes of their buffers, writers to which the same happens from the
/// start answer the same, and fill as many files with the same bytes.
pub proof fn law_buffers_leave_no_trace(
    seq: u64,
    capacity: usize,
    states: Seq<WriterView>,
    files: Seq<Seq<SegmentFile>>,
    deeds: Seq<Deed>,
    capacity2: usize,
    states2: Seq<WriterView>,
    files2: Seq<Seq<SegmentFile>>,
    deeds2: Seq<Deed>,
    n: int,
)
    requires
        is_life(seq, capacity, states, files, deeds),
        is_life(seq, capacity2, states2, files2, deeds2),
        files[0] == files2[0],
        deeds.len() == deeds2.len(),
        forall|i: int| 0 <= i < deeds.len() ==> same_deed(#[trigger] deeds[i], deeds2[i]),
        0 <= n <= deeds.len(),
    ensures
        same_but_buffer(states[n], states2[n]),
        same_appended(files[n], files2[n], seq - 1),
        n < deeds.len() ==> same_progress(
            answer(states[n], deeds[n]),
            answer(states2[n], deeds2[n]),
        ),
    decreases n,
{
    if n == 0 {
        law_new_writers_differ_in_buffer_only(seq, capacity, capacity2);
    } else {
        let m = n - 1;
        law_buffers_leave_no_trace(
            seq,
            capacity,
            states,
            files,
            deeds,
            capacity2,
            states2,
            files2,
            deeds2,
            m,
        );
        lemma_one_deed(seq, capacity, states, files, deeds, m);
        lemma_one_deed(seq, capacity2, states2, files2, deeds2, m);
        assert(same_deed(deeds[m], deeds2[m]));
        lemma_deed_leaves_no_trace(
            states[m],
            files[m],
            deeds[m],
            states[n],
            files[n],
            states2[m],
            files2[m],
            deeds2[m],
            states2[n],
            files2[n],
            seq - 1,
        );
    }
    if n < deeds.len() {
        assert(same_deed(deeds[n], deeds2[n]));
        lemma_same_answer(states[n], deeds[n], states2[n], deeds2[n]);
    }
}

/// What deed `n` in the life of a writer starts from and may do.
proof fn lemma_one_deed(
    seq: u64,
    capacity: usize,
    states: Seq<WriterView>,
    files: Seq<Seq<SegmentFile>>,
    deeds: Seq<Deed>,
    n: int,
)
    requires
        is_life(seq, capacity, states, files, deeds),
        0 <= n < deeds.len(),
    ensures
        0 <= seq - 1 < states[n].seq,
        files[n].len() == file_count(states[n]),
        may_do(states[n], files[n], deeds[n], states[n + 1], files[n + 1]),
{
    let log = law_files_hold_what_was_appended(seq, capacity, states, files, deeds, n);
}

/// Two writers that differ in their buffers answer the same to one deed.
proof fn lemma_same_answer(v: WriterView, deed: Deed, v2: WriterView, deed2: Deed)
    requires
        same_but_buffer(v, v2),
        same_deed(deed, deed2),
    ensures
        same_progress(answer(v, deed), answer(v2, deed2)),
{
}

/// One deed does the same to the files of two writers that differ in their buffers.
proof fn lemma_deed_leaves_no_trace(
    v: WriterView,
    files: Seq<SegmentFile>,
    deed: Deed,
    after: WriterView,
    changed: Seq<SegmentFile>,
    v2: WriterView,
    files2: Seq<SegmentFile>,
    deed2: Deed,
    after2: WriterView,
    changed2: Seq<SegmentFile>,
    base: int,
)
    requires
        same_but_buffer(v, v2),
        same_appended(files, files2, base),
        same_deed(deed, deed2),
        may_do(v, files, deed, after, changed),
        may_do(v2, files2, deed2, after2, changed2),
        0 <= base < v.seq,
        files.len() == file_count(v),
    ensures
        same_but_buffer(after, after2),
        same_appended(changed, changed2, base),
{
    match (deed, deed2) {
        (Deed::Push { record }, _) => {
            law_buffer_cannot_be_observed(
                v,
                v2,
                record,
                frame_checksum(record),
                Task::Idle,
                Ok(()),
                0,
                0,
            );
        },
        (Deed::Performed { unflushed }, Deed::Performed { unflushed: other }) => {
            law_buffer_cannot_be_observed(
                v,
                v2,
                Seq::empty(),
                0,
                Task::Idle,
                Ok(()),
                unflushed,
                other,
            );
        },
        (Deed::Failed { error, unflushed }, Deed::Failed { error: _, unflushed: other }) => {
            law_buffer_cannot_be_observed(
                v,
                v2,
                Seq::empty(),
                0,
                Task::Idle,
                Err(error),
                unflushed,
                other,
            );
            let left = choose|left: Seq<SegmentFile>| #[trigger]
                miscarried(files, v.seq - 1, command_of(v), left) && changed == left.take(
                    v.seq as int,
                );
            let left2 = choose|left: Seq<SegmentFile>| #[trigger]
                miscarried(files2, v2.seq - 1, command_of(v2), left) && changed2 == left.take(
                    v2.seq as int,
                );
            assert(same_appended(left, left2, base));
        },
        _ => {},
    }
}

/// No reader can observe the size of a writer's buffer: once the same has happened to
/// two writers and both are between operations with nothing in their buffers, readers
/// see the same bytes in as many files.
pub proof fn law_buffer_size_is_not_seen(
    seq: u64,
    capacity: usize,
    states: Seq<WriterView>,
    files: Seq<Seq<SegmentFile>>,
    deeds: Seq<Deed>,
    capacity2: usize,
    states2: Seq<WriterView>,
    files2: Seq<Seq<SegmentFile>>,
    deeds2: Seq<Deed>,
)
    requires
        is_life(seq, capacity, states, files, deeds),
        is_life(seq, capacity2, states2, files2, deeds2),
        files[0] == files2[0],
        deeds.len() == deeds2.len(),
        forall|i: int| 0 <= i < deeds.len() ==> same_deed(#[trigger] deeds[i], deeds2[i]),
        states.last().task is Idle,
        states.last().unflushed == 0,
        states2.last().unflushed == 0,
    ensures
        visible_parts(files.last()) == visible_parts(files2.last()),
{
    let n = deeds.len() as int;
    law_buffers_leave_no_trace(
        seq,
        capacity,
        states,
        files,
        deeds,
        capacity2,
        states2,
        files2,
        deeds2,
        n,
    );
    let log = law_files_hold_what_was_appended(seq, capacity, states, files, deeds, n);
    let log2 = law_files_hold_what_was_appended(seq, capacity2, states2, files2, deeds2, n);
    let a = files[n];
    let b = files2[n];
    assert forall|i: int| 0 <= i < a.len() implies #[trigger] a[i].bytes.take(a[i].visible)
        == b[i].bytes.take(b[i].visible) by {
        assert(a[i].bytes == b[i].bytes);
        if seq - 1 <= i < states[n].seq - 1 {
            assert(a[i].sealed() && b[i].sealed());
        }
    }
    assert(visible_parts(a) =~= visible_parts(b));
}

} // verus!
