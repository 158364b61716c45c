//! What a writer and a reader say to each thing that can happen to them, in numbers.
//!
//! The laws below follow an operation of a writer from its first command to its last, and
//! a reader from one request to the next, and say of each what is asked for, what is
//! reported and what has changed, for every size, offset and outcome.

use std::string::FromUtf8Error;
use vstd::prelude::*;
use vstd::string::*;
use vstd::utf8::{encode_utf8, valid_utf8};

use crate::crc::crc32;
use crate::error::{
    is_read_error_text, write_error_text, IoError, IoErrorKind, ReadError, WriteError,
    WriteErrorView,
};
use crate::format::{judge, le_bytes};
use crate::layout::{
    is_numbered, law_name_of_a_number, law_numbers_are_little_endian,
    law_what_is_a_record, law_what_is_an_invalid_length, law_what_is_incomplete,
};
use crate::reader::{brought, decodes, filling, Filling, ReaderView, Step, StepView, Waiting};
use crate::text::{decimal, hex_padded};
use crate::utf8::bytes_held;
use crate::writer::{
    is_new_writer, Command, CommandView, Progress, ProgressView, Task, WalWriter, WriterView,
};

verus! {

/// What a command, a report or an error stands for is what is in it.
pub proof fn law_words_of_a_writer(
    command: Command,
    progress: Progress,
    failure: IoError,
    error: WriteError,
)
    ensures
        match command {
            Command::Create { path, capacity } => command@ == (CommandView::Create {
                path: path@,
                capacity: capacity as nat,
            }),
            Command::SyncDir => command@ is SyncDir,
            Command::Write { bytes } => command@ == (CommandView::Write { bytes: bytes@ }),
            Command::WriteRecord { record } => command@ == (CommandView::WriteRecord {
                record: record@,
            }),
            Command::Flush => command@ is Flush,
            Command::SyncData => command@ is SyncData,
        },
        match progress {
            Progress::Perform(c) => progress@ == (ProgressView::Perform { command: c@ }),
            Progress::Appended { offset } => progress@ == (ProgressView::Appended { offset }),
            Progress::Completed => progress@ is Completed,
            Progress::Failed(e) => progress@ == (ProgressView::Failed { error: e@ }),
        },
        failure@.kind == failure.kind,
        failure@.message == failure.message@,
        match error {
            WriteError::Io(e) => error@ == (WriteErrorView::Io { error: e@ }),
            WriteError::AlreadyExists { path } => error@ == (WriteErrorView::AlreadyExists {
                path: path@,
            }),
            WriteError::MissingSegment { seq } => error@ == (WriteErrorView::MissingSegment {
                seq,
            }),
            WriteError::EmptyRecord => error@ is EmptyRecord,
            WriteError::RecordTooLarge { len } => error@ == (WriteErrorView::RecordTooLarge {
                len: len as nat,
            }),
        },
{
}

/// What a step over bytes or over text stands for is what is in it.
pub proof fn law_words_of_a_reader(step: Step<Vec<u8>>, text: Step<String>)
    ensures
        match step {
            Step::Read { want } => step@ == (StepView::<Seq<u8>>::Read { want: want as nat }),
            Step::Open { path } => step@ == (StepView::<Seq<u8>>::Open { path }),
            Step::Item(Ok(item)) => step@ == (StepView::Item { item: item@ }),
            Step::Item(Err(error)) => step@ == (StepView::<Seq<u8>>::Failed { error }),
            Step::End => step@ is End,
        },
        match text {
            Step::Read { want } => text@ == (StepView::<Seq<char>>::Read { want: want as nat }),
            Step::Open { path } => text@ == (StepView::<Seq<char>>::Open { path }),
            Step::Item(Ok(item)) => text@ == (StepView::Item { item: item@ }),
            Step::Item(Err(error)) => text@ == (StepView::<Seq<char>>::Failed { error }),
            Step::End => text@ is End,
        },
{
}

/// A record that leaves the live segment at 134,217,728 bytes or fewer, its frame
/// included, stays in that segment: three writes are asked for and nothing else, those of
/// the length, the record and the checksum, and the offset reported is where the segment
/// ended.
pub proof fn law_push_that_fits(
    v: WriterView,
    record: Seq<u8>,
    crc: u32,
    first: usize,
    second: usize,
    third: usize,
)
    requires
        v.task is Idle,
        1 <= record.len() <= 67_108_864,
        v.offset + record.len() + 8 <= 134_217_728,
    ensures
        ({
            let (a, p) = v.pushed(record, crc);
            let (b, q) = a.resumed(Ok(()), first);
            let (c, r) = b.resumed(Ok(()), second);
            let (d, s) = c.resumed(Ok(()), third);
            &&& p matches ProgressView::Perform { command: CommandView::Write { bytes } }
                && bytes.len() == 4 && bytes[0] + 256 * bytes[1] + 65_536 * bytes[2] + 16_777_216
                * bytes[3] == record.len()
            &&& q == (ProgressView::Perform { command: CommandView::WriteRecord { record } })
            &&& r matches ProgressView::Perform { command: CommandView::Write { bytes } }
                && bytes.len() == 4 && bytes[0] + 256 * bytes[1] + 65_536 * bytes[2] + 16_777_216
                * bytes[3] == crc
            &&& s == (ProgressView::Appended { offset: v.offset })
            &&& d.seq == v.seq
            &&& d.offset == v.offset + record.len() + 8
            &&& d.synced_offset == v.synced_offset
            &&& d.unflushed == third
            &&& d.capacity == v.capacity
            &&& d.closed == v.closed
            &&& d.task is Idle
        }),
{
    law_numbers_are_little_endian(record.len(), le_bytes(record.len()));
    law_numbers_are_little_endian(crc as nat, le_bytes(crc as nat));
}

/// A record that would leave the live segment at more than 134,217,728 bytes goes to the
/// start of the next one. The live segment is flushed and synced first, after that the next
/// is created with the same size of buffer and the directory synced, and after that the
/// frame is written, to it.
pub proof fn law_push_that_does_not_fit(
    v: WriterView,
    record: Seq<u8>,
    crc: u32,
    held: Seq<usize>,
)
    requires
        v.task is Idle,
        v.seq < 99_999_999,
        1 <= record.len() <= 67_108_864,
        v.offset + record.len() + 8 > 134_217_728,
        held.len() == 7,
    ensures
        ({
            let (a, p) = v.pushed(record, crc);
            let (b, q) = a.resumed(Ok(()), held[0]);
            let (c, r) = b.resumed(Ok(()), held[1]);
            let (d, s) = c.resumed(Ok(()), held[2]);
            let (e, t) = d.resumed(Ok(()), held[3]);
            let (f, u) = e.resumed(Ok(()), held[4]);
            let (g, w) = f.resumed(Ok(()), held[5]);
            let (h, x) = g.resumed(Ok(()), held[6]);
            &&& p == (ProgressView::Perform { command: CommandView::Flush })
            &&& q == (ProgressView::Perform { command: CommandView::SyncData })
            &&& r matches ProgressView::Perform {
                command: CommandView::Create { path, capacity },
            } && is_numbered(path, v.seq + 1) && capacity == v.capacity
            &&& s == (ProgressView::Perform { command: CommandView::SyncDir })
            &&& d.seq == v.seq && d.offset == v.offset && d.synced_offset == v.synced_offset
            &&& t matches ProgressView::Perform { command: CommandView::Write { bytes } }
                && bytes.len() == 4 && bytes[0] + 256 * bytes[1] + 65_536 * bytes[2] + 16_777_216
                * bytes[3] == record.len()
            &&& e.seq == v.seq + 1 && e.offset == 0 && e.synced_offset == 0
            &&& u == (ProgressView::Perform { command: CommandView::WriteRecord { record } })
            &&& w matches ProgressView::Perform { command: CommandView::Write { bytes } }
                && bytes.len() == 4 && bytes[0] + 256 * bytes[1] + 65_536 * bytes[2] + 16_777_216
                * bytes[3] == crc
            &&& x == (ProgressView::Appended { offset: 0 })
            &&& h.seq == v.seq + 1
            &&& h.offset == record.len() + 8
            &&& h.synced_offset == 0
            &&& h.unflushed == held[6]
            &&& h.capacity == v.capacity
            &&& h.closed == v.closed
            &&& h.task is Idle
        }),
{
    law_name_of_a_number((v.seq + 1) as u64);
    law_numbers_are_little_endian(record.len(), le_bytes(record.len()));
    law_numbers_are_little_endian(crc as nat, le_bytes(crc as nat));
}

/// When the last number is taken, a record that does not fit seals the live segment and is
/// refused; the writer stays where it was.
pub proof fn law_push_behind_the_last_number(
    v: WriterView,
    record: Seq<u8>,
    crc: u32,
    first: usize,
    second: usize,
)
    requires
        v.task is Idle,
        v.seq == 99_999_999,
        1 <= record.len() <= 67_108_864,
        v.offset + record.len() + 8 > 134_217_728,
    ensures
        ({
            let (a, p) = v.pushed(record, crc);
            let (b, q) = a.resumed(Ok(()), first);
            let (c, r) = b.resumed(Ok(()), second);
            &&& p == (ProgressView::Perform { command: CommandView::Flush })
            &&& q == (ProgressView::Perform { command: CommandView::SyncData })
            &&& r matches ProgressView::Failed { error: WriteErrorView::Io { error } } && error.kind
                == IoErrorKind::InvalidInput && error.message == "wal segment sequence overflow"@
            &&& c == (WriterView { unflushed: second, ..v })
        }),
{
}

/// A record of no bytes, or of more than 67,108,864, is refused at once, whatever the writer
/// holds, and nothing has changed.
pub proof fn law_push_that_is_refused(v: WriterView, record: Seq<u8>, crc: u32)
    requires
        v.task is Idle,
    ensures
        record.len() == 0 ==> v.pushed(record, crc) == (
            v,
            ProgressView::Failed { error: WriteErrorView::EmptyRecord },
        ),
        record.len() > 67_108_864 ==> v.pushed(record, crc) == (
            v,
            ProgressView::Failed {
                error: WriteErrorView::RecordTooLarge { len: record.len() },
            },
        ),
{
}

/// A flush is one command. A sync is a flush and a sync of the file, after which as much is
/// synced as has been appended; a close is the same, and closes the writer.
pub proof fn law_barriers(v: WriterView, closing: bool, first: usize, second: usize)
    requires
        v.task is Idle,
    ensures
        ({
            let (a, p) = v.at(Task::Flush);
            let (b, q) = a.resumed(Ok(()), first);
            &&& p == (ProgressView::Perform { command: CommandView::Flush })
            &&& q is Completed
            &&& b == (WriterView { unflushed: first, ..v })
        }),
        ({
            let (a, p) = v.at(Task::SyncFlush { closing });
            let (b, q) = a.resumed(Ok(()), first);
            let (c, r) = b.resumed(Ok(()), second);
            &&& p == (ProgressView::Perform { command: CommandView::Flush })
            &&& q == (ProgressView::Perform { command: CommandView::SyncData })
            &&& b.synced_offset == v.synced_offset && b.closed == v.closed
            &&& r is Completed
            &&& c == (WriterView {
                unflushed: second,
                synced_offset: v.offset,
                closed: v.closed || closing,
                ..v
            })
        }),
{
}

/// A new writer has appended nothing, and creates its segment and syncs the directory
/// before anything else.
pub proof fn law_creation(seq: u64, capacity: usize, first: usize, second: usize)
    requires
        1 <= seq <= 99_999_999,
    ensures
        ({
            let v = WriterView::created(seq, capacity);
            let (a, p) = v.resumed(Ok(()), first);
            let (b, q) = a.resumed(Ok(()), second);
            &&& v.task is CreateFirst
            &&& p == (ProgressView::Perform { command: CommandView::SyncDir })
            &&& q is Completed
            &&& b.seq == seq && b.capacity == capacity && b.offset == 0 && b.synced_offset == 0
            &&& b.unflushed == second && !b.closed && b.task is Idle
        }),
{
}

/// Opening a directory for appending: the segments there are 1 up to some number, and the
/// writer creates the next; or a number is missing, and it is reported; or all of the
/// 99,999,999 are there.
pub proof fn law_opening_for_appending(
    found: Set<u64>,
    capacity: usize,
    writer: Result<(WalWriter, Command), WriteError>,
)
    requires
        is_new_writer(found, capacity, writer),
    ensures
        match writer {
            Ok((w, command)) => {
                &&& 1 <= w@.seq <= 99_999_999
                &&& forall|s: u64| #[trigger] found.contains(s) <==> 1 <= s < w@.seq
                &&& w@ == WriterView::created(w@.seq, capacity)
                &&& command@ matches CommandView::Create { path, capacity: size } && is_numbered(
                    path,
                    w@.seq as int,
                ) && size == capacity
            },
            Err(WriteError::MissingSegment { seq }) => if found.contains(0) {
                seq == 1
            } else {
                &&& seq >= 1
                &&& !found.contains(seq)
                &&& forall|s: u64| 1 <= s < seq ==> #[trigger] found.contains(s)
                &&& exists|s: u64| s > seq && #[trigger] found.contains(s)
            },
            Err(e) => {
                &&& forall|s: u64| #[trigger] found.contains(s) <==> 1 <= s <= 99_999_999
                &&& e@ matches WriteErrorView::Io { error } && error.kind
                    == IoErrorKind::InvalidInput && error.message
                    == "wal segment sequence overflow"@
            },
        },
{
    if let Ok((w, _)) = writer {
        law_name_of_a_number(w@.seq);
    }
}

/// A command that fails ends the operation with nothing changed but what the buffer holds,
/// and is reported as it is; only a name that is taken is reported as that, with the name.
/// A writer that could not make its first segment is closed.
pub proof fn law_failed_command(v: WriterView, e: IoError, unflushed: usize)
    requires
        !(v.task is Idle),
        1 <= v.seq <= 99_999_999,
        v.task is CreateNext ==> v.seq < 99_999_999,
    ensures
        ({
            let (w, progress) = v.resumed(Err(e), unflushed);
            let creating = v.task is CreateFirst || v.task is CreateNext;
            &&& w.seq == v.seq
            &&& w.offset == v.offset
            &&& w.synced_offset == v.synced_offset
            &&& w.capacity == v.capacity
            &&& w.unflushed == unflushed
            &&& w.task is Idle
            &&& w.closed <==> v.closed || v.task is CreateFirst || v.task is LinkFirst
            &&& creating && e.kind == IoErrorKind::AlreadyExists ==> {
                progress matches ProgressView::Failed {
                    error: WriteErrorView::AlreadyExists { path },
                } && is_numbered(
                    path,
                    if v.task is CreateFirst {
                        v.seq as int
                    } else {
                        v.seq + 1
                    },
                )
            }
            &&& !(creating && e.kind == IoErrorKind::AlreadyExists) ==> {
                progress matches ProgressView::Failed { error: WriteErrorView::Io { error } }
                    && error.kind == e.kind && error.message == e.message@
            }
        }),
{
    law_name_of_a_number(v.seq);
    if v.task is CreateNext {
        law_name_of_a_number((v.seq + 1) as u64);
    }
}

/// What has been appended is in the buffer, or in the kernel only, or on disk: the three
/// make it up.
pub proof fn law_watermarks(v: WriterView)
    requires
        v.unflushed + v.synced_offset <= v.offset,
    ensures
        v.unflushed + v.unsynced() + v.synced_offset == v.offset,
{
}

/// Where more is in the buffer than was appended since the last sync, nothing is in the
/// kernel only.
pub proof fn law_watermarks_cross(v: WriterView)
    requires
        v.unflushed + v.synced_offset >= v.offset,
    ensures
        v.unsynced() == 0,
{
}

/// A buffer is full when it holds what it is to hold, and done short of that only when a
/// read brings nothing. An interrupted read is tried again.
pub proof fn law_filling_a_buffer(held: nat, want: nat, outcome: Result<Vec<u8>, IoError>)
    requires
        held < want <= usize::MAX,
        held + brought(outcome).len() <= want,
    ensures
        match outcome {
            Ok(chunk) => {
                &&& brought(outcome) == chunk@
                &&& chunk@.len() == 0 ==> filling(held, want, outcome) == (Filling::Done {
                    read: held as usize,
                })
                &&& held + chunk@.len() == want ==> filling(held, want, outcome) == (Filling::Done {
                    read: want as usize,
                })
                &&& 0 < chunk@.len() < want - held ==> filling(held, want, outcome) is Again
            },
            Err(e) => {
                &&& brought(outcome).len() == 0
                &&& e.kind == IoErrorKind::Interrupted ==> filling(held, want, outcome) is Again
                &&& e.kind != IoErrorKind::Interrupted ==> filling(held, want, outcome)
                    == Filling::Failed(e)
            },
        },
{
}

/// A new reader is at the start of the first of its files, and asks for its first bytes, as
/// far as it has four of them. Without files it is over.
pub proof fn law_first_request(files: Seq<String>, limits: Seq<u64>)
    requires
        limits.len() == files.len(),
    ensures
        ({
            let v = ReaderView::at_start(files, limits);
            let (w, step) = v.next();
            &&& v.files == files && v.limits == limits
            &&& v.waiting == Waiting::Call
            &&& v.index == 0 && v.offset == 0 && v.gathered.len() == 0 && !v.fused
            &&& files.len() > 0 ==> v.path() == files[0]
            &&& files.len() == 0 ==> step is End && w == v
            &&& files.len() > 0 && limits[0] > 0 ==> {
                &&& step == (StepView::<Seq<u8>>::Read {
                    want: if limits[0] < 4 {
                        limits[0] as nat
                    } else {
                        4
                    },
                })
                &&& w.index == 0 && w.offset == 0 && w.frame_start == 0 && w.gathered.len() == 0
            }
        }),
{
}

/// The open file is the one that the reader is at.
pub proof fn law_open_file(v: ReaderView)
    ensures
        v.path() == v.files[v.index],
{
}

/// Asked for the next item, a reader that is over stays over. Else it starts on the frame
/// where the last one ended, if the file goes on there; if not, it opens the next file, and
/// only behind the last one it is over.
pub proof fn law_next_item(v: ReaderView)
    requires
        v.waiting == Waiting::Call,
        v.gathered.len() == 0,
        v.offset <= v.limits[v.index],
    ensures
        ({
            let (w, step) = v.next();
            let over = v.fused || v.files.len() == 0;
            &&& w.files == v.files && w.limits == v.limits && w.index == v.index && w.offset
                == v.offset
            &&& over ==> step is End && w == v
            &&& !over && v.offset < v.limits[v.index] ==> {
                &&& w.waiting == Waiting::Bytes
                &&& w.gathered.len() == 0
                &&& w.frame_start == v.offset
                &&& step == (StepView::<Seq<u8>>::Read {
                    want: if v.limits[v.index] - v.offset < 4 {
                        (v.limits[v.index] - v.offset) as nat
                    } else {
                        4
                    },
                })
                &&& w.asked() == step->want
            }
            &&& !over && v.offset == v.limits[v.index] && v.index + 1 < v.files.len() ==> {
                &&& step == (StepView::<Seq<u8>>::Open { path: v.files[v.index + 1] })
                &&& w.waiting == Waiting::File
                &&& !w.fused
            }
            &&& !over && v.offset == v.limits[v.index] && v.index + 1 >= v.files.len() ==> {
                step is End && w.fused && w.waiting == Waiting::Call
            }
        }),
{
}

/// A file that was opened is read from its start, if it has bytes; if not, the one behind it
/// is opened, and only behind the last one the reader is over. A file that cannot be opened
/// ends the iteration in that failure.
pub proof fn law_file_opened(v: ReaderView, e: IoError)
    requires
        v.waiting == Waiting::File,
        !v.fused,
        v.gathered.len() == 0,
        0 <= v.index < v.files.len() - 1,
    ensures
        ({
            let (w, step) = v.opened(Ok(()));
            let len = v.limits[v.index + 1];
            &&& w.files == v.files && w.limits == v.limits
            &&& w.index == v.index + 1
            &&& w.offset == 0
            &&& len > 0 ==> {
                &&& w.waiting == Waiting::Bytes
                &&& w.gathered.len() == 0
                &&& w.frame_start == 0
                &&& !w.fused
                &&& step == (StepView::<Seq<u8>>::Read {
                    want: if len < 4 {
                        len as nat
                    } else {
                        4
                    },
                })
                &&& w.asked() == step->want
            }
            &&& len == 0 && v.index + 2 < v.files.len() ==> {
                &&& step == (StepView::<Seq<u8>>::Open { path: v.files[v.index + 2] })
                &&& w.waiting == Waiting::File
                &&& !w.fused
            }
            &&& len == 0 && v.index + 2 >= v.files.len() ==> {
                step is End && w.fused && w.waiting == Waiting::Call
            }
        }),
        v.opened(Err(e)).1 == (StepView::<Seq<u8>>::Failed { error: ReadError::Io(e) }),
        v.opened(Err(e)).0.fused,
        v.opened(Err(e)).0.waiting == Waiting::Call,
{
}

/// Bytes that came are taken together with those before them. With a length of zero, or of
/// more than 67,108,864, the iteration ends in that. With a whole frame, its record is the
/// item if the last four bytes hold the checksum of those before them, and the iteration
/// ends in both checksums if not. With less than a frame, more is asked for, and where the
/// file has no more, it ends in a truncated tail.
pub proof fn law_bytes_received(v: ReaderView, chunk: Vec<u8>)
    requires
        v.waiting == Waiting::Bytes,
        !v.fused,
        0 < chunk@.len() <= v.asked(),
        v.offset + v.gathered.len() + chunk@.len() <= v.limits[v.index],
        judge(v.gathered) is Incomplete,
    ensures
        ({
            let b = v.gathered + chunk@;
            let n = b[0] + 256 * b[1] + 65_536 * b[2] + 16_777_216 * b[3];
            let stored = b[n + 4] + 256 * b[n + 5] + 65_536 * b[n + 6] + 16_777_216 * b[n + 7];
            let computed = crc32(b.take(n + 4));
            let (w, step) = v.received(Ok(chunk));
            let short = b.len() < 4 || 1 <= n <= 67_108_864 && b.len() < n + 8;
            &&& w.files == v.files && w.limits == v.limits && w.index == v.index && w.frame_start
                == v.frame_start
            &&& b.len() >= 4 && !(1 <= n <= 67_108_864) ==> {
                &&& step == (StepView::<Seq<u8>>::Failed {
                    error: ReadError::InvalidLength {
                        path: v.files[v.index],
                        offset: v.offset,
                        len: n as u32,
                    },
                })
                &&& w.fused && w.waiting == Waiting::Call
            }
            &&& b.len() >= 4 && 1 <= n <= 67_108_864 && b.len() >= n + 8 && stored == computed
                ==> {
                &&& step == (StepView::Item { item: b.subrange(4, n + 4) })
                &&& b.len() == n + 8
                &&& w.offset == v.offset + n + 8
                &&& !w.fused && w.waiting == Waiting::Call && w.gathered.len() == 0
            }
            &&& b.len() >= 4 && 1 <= n <= 67_108_864 && b.len() >= n + 8 && stored != computed
                ==> {
                &&& step == (StepView::<Seq<u8>>::Failed {
                    error: ReadError::ChecksumMismatch {
                        path: v.files[v.index],
                        offset: v.offset,
                        expected: stored as u32,
                        actual: computed,
                    },
                })
                &&& w.fused && w.waiting == Waiting::Call
            }
            &&& short && v.offset + b.len() == v.limits[v.index] ==> {
                &&& step == (StepView::<Seq<u8>>::Failed {
                    error: ReadError::TruncatedTail {
                        path: v.files[v.index],
                        offset: v.offset,
                    },
                })
                &&& w.fused && w.waiting == Waiting::Call
            }
            &&& short && v.offset + b.len() < v.limits[v.index] ==> {
                &&& w.gathered == b
                &&& w.offset == v.offset
                &&& w.waiting == Waiting::Bytes
                &&& !w.fused
                &&& step matches StepView::Read { want } && {
                    &&& 0 < want <= v.limits[v.index] - v.offset - b.len()
                    &&& want == w.asked()
                    &&& b.len() < 4 ==> b.len() + want <= 4
                    &&& b.len() >= 4 ==> b.len() + want <= n + 8
                }
            }
        }),
{
    let b = v.gathered + chunk@;
    let n = b[0] + 256 * b[1] + 65_536 * b[2] + 16_777_216 * b[3];
    law_what_is_incomplete(b);
    law_what_is_an_invalid_length(b);
    law_what_is_a_record(b);
    law_what_is_incomplete(v.gathered);
    if v.gathered.len() >= 4 {
        assert(b[0] == v.gathered[0] && b[1] == v.gathered[1] && b[2] == v.gathered[2] && b[3]
            == v.gathered[3]);
    }
    if judge(b) is Record {
        assert(judge(b)->payload =~= b.subrange(4, n + 4));
    }
}

/// A read that brings nothing ends the file, in front of a frame or inside one. An
/// interrupted read is asked for again, and any other failure ends the iteration.
pub proof fn law_nothing_received(v: ReaderView, nothing: Vec<u8>, e: IoError)
    requires
        v.waiting == Waiting::Bytes,
        !v.fused,
        nothing@.len() == 0,
    ensures
        ({
            let (w, step) = v.received(Ok(nothing));
            &&& v.gathered.len() > 0 ==> {
                &&& step == (StepView::<Seq<u8>>::Failed {
                    error: ReadError::TruncatedTail {
                        path: v.files[v.index],
                        offset: v.offset,
                    },
                })
                &&& w.fused && w.waiting == Waiting::Call
            }
            &&& v.gathered.len() == 0 && v.index + 1 < v.files.len() ==> {
                &&& step == (StepView::<Seq<u8>>::Open { path: v.files[v.index + 1] })
                &&& w.waiting == Waiting::File && w.index == v.index && !w.fused
            }
            &&& v.gathered.len() == 0 && v.index + 1 >= v.files.len() ==> {
                step is End && w.fused && w.waiting == Waiting::Call
            }
        }),
        e.kind == IoErrorKind::Interrupted ==> {
            &&& v.received(Err(e)).0 == v
            &&& v.received(Err(e)).1 == (StepView::<Seq<u8>>::Read { want: v.asked() })
        },
        e.kind != IoErrorKind::Interrupted ==> {
            &&& v.received(Err(e)).1 == (StepView::<Seq<u8>>::Failed { error: ReadError::Io(e) })
            &&& v.received(Err(e)).0.fused
            &&& v.received(Err(e)).0.waiting == Waiting::Call
        },
{
}

/// A reader of texts says what a reader of records says, but for the records: one that is
/// UTF-8 comes as the text whose encoding it is, and one that is not as an error that names
/// the open file and the start of the frame, and holds the bytes.
pub proof fn law_text_of_a_record(
    v: ReaderView,
    step: StepView<Seq<u8>>,
    text: StepView<Seq<char>>,
)
    requires
        decodes(v, step, text),
    ensures
        match step {
            StepView::Read { want } => text == (StepView::<Seq<char>>::Read { want }),
            StepView::Open { path } => text == (StepView::<Seq<char>>::Open { path }),
            StepView::Failed { error } => text == (StepView::<Seq<char>>::Failed { error }),
            StepView::End => text is End,
            StepView::Item { item } => if valid_utf8(item) {
                text matches StepView::Item { item: chars } && encode_utf8(chars) == item
            } else {
                text matches StepView::Failed {
                    error: ReadError::InvalidUtf8 { path, offset, source },
                } && path == v.files[v.index] && offset == v.frame_start && bytes_held(source)
                    == item
            },
        },
{
    broadcast use vstd::utf8::decode_utf8_encode_utf8;

}

/// The words of every error of a writer.
pub proof fn law_words_of_write_errors(e: IoError, path: String, seq: u64, len: usize)
    ensures
        write_error_text(WriteError::Io(e)) == "wal write: "@ + e.message@,
        write_error_text(WriteError::AlreadyExists { path }) == "wal segment already exists: "@
            + path@,
        write_error_text(WriteError::MissingSegment { seq }) == "wal write: segment "@ + decimal(
            seq as nat,
        ) + " is missing"@,
        write_error_text(WriteError::EmptyRecord) == "wal write: empty records are not allowed"@,
        write_error_text(WriteError::RecordTooLarge { len }) == "wal write: record of "@ + decimal(
            len as nat,
        ) + " bytes exceeds the "@ + decimal(67_108_864) + " byte maximum"@,
{
}

/// The words of every error of a reader. Of bytes that are no text their own error has the
/// last word.
pub proof fn law_words_of_read_errors(
    e: IoError,
    path: String,
    seq: u64,
    offset: u64,
    len: u32,
    expected: u32,
    actual: u32,
    source: FromUtf8Error,
    text: Seq<char>,
)
    ensures
        is_read_error_text(ReadError::InvalidUtf8 { path, offset, source }, text) ==> exists|
            words: String,
        |
            #[trigger] to_string_from_display_ensures(&source, words) && text
                == "wal read: record at offset "@ + decimal(offset as nat) + " is not utf-8: "@
                + words@,
        is_read_error_text(ReadError::Io(e), text) ==> text == "wal read: "@ + e.message@,
        is_read_error_text(ReadError::MissingSegment { seq }, text) ==> text
            == "wal read: segment "@ + decimal(seq as nat) + " is missing"@,
        is_read_error_text(ReadError::TruncatedTail { path, offset }, text) ==> text
            == "wal read: truncated frame at offset "@ + decimal(offset as nat),
        is_read_error_text(ReadError::InvalidLength { path, offset, len }, text) ==> text
            == "wal read: invalid record length "@ + decimal(len as nat) + " at offset "@ + decimal(
            offset as nat,
        ),
        is_read_error_text(
            ReadError::ChecksumMismatch { path, offset, expected, actual },
            text,
        ) ==> text == "wal read: checksum mismatch at offset "@ + decimal(offset as nat)
            + " (stored 0x"@ + hex_padded(expected as nat, 8) + ", computed 0x"@ + hex_padded(
            actual as nat,
            8,
        ) + ")"@,
{
}

} // verus!
