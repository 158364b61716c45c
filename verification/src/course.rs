//! What each operation of a writer has done to the files, from its first command to
//! its last.

use vstd::prelude::*;

use crate::error::{IoError, WriteErrorView};
use crate::format::{frame_len, le_bytes, valid_record};
use crate::segment::{name_of, MAX_SEGMENT_SEQ};
use crate::writer::{
    command_of, creation_failure, sequence_overflow, CommandView, ProgressView, Task, WriterView,
};

verus! {

/// How many commands an operation may still take at most.
pub open spec fn commands_left(task: Task) -> nat {
    match task {
        Task::Idle => 0,
        Task::CreateFirst => 2,
        Task::LinkFirst => 1,
        Task::SealFlush(_) => 7,
        Task::SealSync(_) => 6,
        Task::CreateNext(_) => 5,
        Task::LinkNext(_) => 4,
        Task::WriteLength(_) => 3,
        Task::WritePayload(_) => 2,
        Task::WriteChecksum(_) => 1,
        Task::Flush => 1,
        Task::SyncFlush { .. } => 2,
        Task::SyncData { .. } => 1,
    }
}

/// The commands that a writer has performed until its operation is over, if all of
/// them succeed.
pub open spec fn course(v: WriterView) -> Seq<CommandView>
    decreases commands_left(v.task),
{
    if v.task is Idle {
        Seq::empty()
    } else {
        seq![command_of(v)] + course(v.advanced(Ok(())).0)
    }
}

/// What the operation under way reports, if all of its commands succeed, and the
/// writer after it.
pub open spec fn conclusion(v: WriterView) -> (WriterView, ProgressView)
    decreases commands_left(v.task),
{
    let (w, progress) = v.advanced(Ok(()));
    if v.task is Idle || w.task is Idle {
        (w, progress)
    } else {
        conclusion(w)
    }
}

/// The writes of a frame.
pub open spec fn frame_writes(record: Seq<u8>, crc: u32) -> Seq<CommandView> {
    seq![
        CommandView::Write { bytes: le_bytes(record.len()) },
        CommandView::WriteRecord { record },
        CommandView::Write { bytes: le_bytes(crc as nat) },
    ]
}

/// Every operation comes to an end: each command brings it closer, whatever its
/// outcome, or is its last.
pub proof fn law_operations_end(v: WriterView, outcome: Result<(), IoError>, unflushed: usize)
    requires
        !(v.task is Idle),
    ensures
        commands_left(v.resumed(outcome, unflushed).0.task) < commands_left(v.task),
        v.resumed(outcome, unflushed).0.task is Idle <==> !(v.resumed(outcome, unflushed).1 is
            Perform),
{
}

/// What is in the buffer has no say in what is done.
pub proof fn law_buffer_has_no_say(v: WriterView, outcome: Result<(), IoError>, unflushed: usize)
    ensures
        v.resumed(outcome, unflushed).1 == v.advanced(outcome).1,
        v.resumed(outcome, unflushed).0 == (WriterView {
            unflushed,
            ..v.advanced(outcome).0
        }),
{
}

/// Whether two writers differ in nothing but their buffers: how large these are, and
/// how full.
pub open spec fn same_but_buffer(v: WriterView, w: WriterView) -> bool {
    w == WriterView { capacity: w.capacity, unflushed: w.unflushed, ..v }
}

/// Whether two commands do the same to the files, with buffers of whatever size.
pub open spec fn same_command(a: CommandView, b: CommandView) -> bool {
    match (a, b) {
        (
            CommandView::Create { path, capacity: _ },
            CommandView::Create { path: other, capacity: _ },
        ) => path == other,
        _ => a == b,
    }
}

/// Whether two writers have the same to say, with buffers of whatever size.
pub open spec fn same_progress(a: ProgressView, b: ProgressView) -> bool {
    match (a, b) {
        (
            ProgressView::Perform { command },
            ProgressView::Perform { command: other },
        ) => same_command(command, other),
        _ => a == b,
    }
}

/// The buffer is pure runtime tuning: writers that differ in nothing else say the same
/// to everything, and differ in nothing else after it.
pub proof fn law_buffer_cannot_be_observed(
    v: WriterView,
    w: WriterView,
    record: Seq<u8>,
    crc: u32,
    task: Task,
    outcome: Result<(), IoError>,
    unflushed: usize,
    other: usize,
)
    requires
        same_but_buffer(v, w),
    ensures
        same_but_buffer(v.pushed(record, crc).0, w.pushed(record, crc).0),
        same_progress(v.pushed(record, crc).1, w.pushed(record, crc).1),
        same_but_buffer(v.at(task).0, w.at(task).0),
        same_progress(v.at(task).1, w.at(task).1),
        same_but_buffer(v.resumed(outcome, unflushed).0, w.resumed(outcome, other).0),
        same_progress(v.resumed(outcome, unflushed).1, w.resumed(outcome, other).1),
        same_command(command_of(v), command_of(w)),
{
}

/// New writers differ in nothing but their buffers.
pub proof fn law_new_writers_differ_in_buffer_only(seq: u64, capacity: usize, other: usize)
    ensures
        same_but_buffer(WriterView::created(seq, capacity), WriterView::created(seq, other)),
{
}

/// A record with room in the live segment costs three writes to the buffer, which
/// make up its frame, and nothing else.
pub proof fn law_push_only_writes(v: WriterView, record: Seq<u8>, crc: u32)
    requires
        v.task is Idle,
        valid_record(record),
        v.has_room(record.len()),
    ensures
        course(v.pushed(record, crc).0) == frame_writes(record, crc),
        conclusion(v.pushed(record, crc).0) == (
            WriterView { offset: (v.offset + frame_len(record.len())) as u64, ..v },
            ProgressView::Appended { offset: v.offset },
        ),
{
    reveal_with_fuel(course, 4);
    reveal_with_fuel(conclusion, 4);
    assert(course(v.pushed(record, crc).0) =~= frame_writes(record, crc));
}

/// A record with no room in the live segment goes to the start of the next: the live
/// segment is flushed and synced, the next one is created and its name made durable,
/// and only after that is the frame written, to the new file.
pub proof fn law_push_rotates(v: WriterView, record: Seq<u8>, crc: u32)
    requires
        v.task is Idle,
        valid_record(record),
        !v.has_room(record.len()),
        v.seq < MAX_SEGMENT_SEQ,
    ensures
        course(v.pushed(record, crc).0) == seq![
            CommandView::Flush,
            CommandView::SyncData,
            CommandView::Create {
                path: name_of((v.seq + 1) as nat),
                capacity: v.capacity as nat,
            },
            CommandView::SyncDir,
        ] + frame_writes(record, crc),
        conclusion(v.pushed(record, crc).0) == (
            WriterView {
                seq: (v.seq + 1) as u64,
                offset: frame_len(record.len()) as u64,
                synced_offset: 0,
                ..v
            },
            ProgressView::Appended { offset: 0 },
        ),
{
    reveal_with_fuel(course, 8);
    reveal_with_fuel(conclusion, 8);
    assert(course(v.pushed(record, crc).0) =~= seq![
        CommandView::Flush,
        CommandView::SyncData,
        CommandView::Create { path: name_of((v.seq + 1) as nat), capacity: v.capacity as nat },
        CommandView::SyncDir,
    ] + frame_writes(record, crc));
}

/// When the numbers have run out, the full segment is sealed and the record refused.
pub proof fn law_push_runs_out_of_numbers(v: WriterView, record: Seq<u8>, crc: u32)
    requires
        v.task is Idle,
        valid_record(record),
        !v.has_room(record.len()),
        v.seq == MAX_SEGMENT_SEQ,
    ensures
        course(v.pushed(record, crc).0) == seq![CommandView::Flush, CommandView::SyncData],
        conclusion(v.pushed(record, crc).0) == (
            v,
            ProgressView::Failed { error: WriteErrorView::Io { error: sequence_overflow() } },
        ),
{
    reveal_with_fuel(course, 3);
    reveal_with_fuel(conclusion, 3);
    assert(course(v.pushed(record, crc).0) =~= seq![CommandView::Flush, CommandView::SyncData]);
}

/// A record that the log does not accept is refused at once, and nothing has changed.
pub proof fn law_refused_record_changes_nothing(v: WriterView, record: Seq<u8>, crc: u32)
    requires
        v.task is Idle,
        !valid_record(record),
    ensures
        v.pushed(record, crc) == (
            v,
            ProgressView::Failed {
                error: if record.len() == 0 {
                    WriteErrorView::EmptyRecord
                } else {
                    WriteErrorView::RecordTooLarge { len: record.len() }
                },
            },
        ),
{
}

/// A new writer creates its segment and makes the name durable.
pub proof fn law_new_writer_creates(seq: u64, capacity: usize)
    ensures
        course(WriterView::created(seq, capacity)) == seq![
            CommandView::Create { path: name_of(seq as nat), capacity: capacity as nat },
            CommandView::SyncDir,
        ],
        conclusion(WriterView::created(seq, capacity)) == (
            WriterView::created(seq, capacity).idle(),
            ProgressView::Completed,
        ),
{
    let v = WriterView::created(seq, capacity);
    reveal_with_fuel(course, 3);
    reveal_with_fuel(conclusion, 3);
    assert(course(v) =~= seq![
        CommandView::Create { path: name_of(seq as nat), capacity: capacity as nat },
        CommandView::SyncDir,
    ]);
}

/// A flush is one command. A sync, and so a close, is a flush and after it the sync
/// proper: it never reports success over data still in the buffer.
pub proof fn law_sync_flushes_first(v: WriterView, closing: bool)
    requires
        v.task is Idle,
    ensures
        course(v.at(Task::Flush).0) == seq![CommandView::Flush],
        conclusion(v.at(Task::Flush).0) == (v, ProgressView::Completed),
        course(v.at(Task::SyncFlush { closing }).0) == seq![
            CommandView::Flush,
            CommandView::SyncData,
        ],
        conclusion(v.at(Task::SyncFlush { closing }).0) == (
            WriterView { synced_offset: v.offset, closed: v.closed || closing, ..v },
            ProgressView::Completed,
        ),
{
    reveal_with_fuel(course, 3);
    reveal_with_fuel(conclusion, 3);
    assert(course(v.at(Task::Flush).0) =~= seq![CommandView::Flush]);
    assert(course(v.at(Task::SyncFlush { closing }).0) =~= seq![
        CommandView::Flush,
        CommandView::SyncData,
    ]);
}

/// A command that fails ends the operation in that failure and leaves the writer
/// where it was: same segment, same offsets, not closed by it. Only a writer whose first
/// segment could not be made is closed by that: it has none.
pub proof fn law_failure_ends_the_operation(v: WriterView, e: IoError, unflushed: usize)
    requires
        !(v.task is Idle),
    ensures
        v.resumed(Err(e), unflushed).0 == (WriterView {
            unflushed,
            closed: v.closed || v.task is CreateFirst || v.task is LinkFirst,
            ..v.idle()
        }),
        v.resumed(Err(e), unflushed).1 == (ProgressView::Failed {
            error: match command_of(v) {
                CommandView::Create { path, capacity: _ } => creation_failure(path, e),
                _ => WriteErrorView::Io { error: e@ },
            },
        }),
{
}

} // verus!
