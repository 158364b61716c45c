//! Appending to a log.
//!
//! The files themselves are the caller's. [`WalWriter`] decides, one [`Command`] at
//! a time, what is to be done to them, and is told how each command went.

use vstd::prelude::*;

use crate::error::{IoError, IoErrorKind, IoErrorView, WriteError, WriteErrorView};
use crate::format::{
    checksum, frame_checksum, frame_len, le_bytes, to_le_bytes, valid_record, DEFAULT_CAPACITY,
    FRAME_OVERHEAD, MAX_RECORD_SIZE,
};
use crate::segment::{
    contiguous, first_missing, found_seqs, last_seq, name_of, segment_name, ScanError,
    MAX_SEGMENT_SEQ,
};

verus! {

/// Largest a live segment may grow, in bytes. Tuning, not format: a reader
/// concatenates whatever files are there, so this can change without breaking
/// existing logs. It has room for the frame of the largest record.
pub const MAX_SEGMENT_SIZE: u64 = 128 * 1024 * 1024;

/// Something to be done to the files of the log.
pub enum Command {
    /// Create this file, which must not exist, for appending through a buffer of
    /// `capacity` bytes. It is not the live segment yet.
    Create { path: String, capacity: usize },
    /// Sync the *directory*. Until the directory entry is durable the segment's
    /// name can vanish in a crash, taking every record with it: no amount of
    /// syncing the file's contents would help. Once this is done, the file created
    /// last is the live segment.
    SyncDir,
    /// Append these bytes to the buffer of the live segment.
    Write { bytes: [u8; 4] },
    /// Append the record handed to `push`, which is this one, to the buffer of the live
    /// segment.
    WriteRecord { record: Ghost<Seq<u8>> },
    /// Move the buffered bytes of the live segment into the kernel.
    Flush,
    /// Force the kernel's copy of the live segment to disk.
    SyncData,
}

/// What a [`Command`] stands for.
pub enum CommandView {
    Create { path: Seq<char>, capacity: nat },
    SyncDir,
    Write { bytes: Seq<u8> },
    WriteRecord { record: Seq<u8> },
    Flush,
    SyncData,
}

impl View for Command {
    type V = CommandView;

    open spec fn view(&self) -> CommandView {
        match *self {
            Command::Create { path, capacity } => CommandView::Create {
                path: path@,
                capacity: capacity as nat,
            },
            Command::SyncDir => CommandView::SyncDir,
            Command::Write { bytes } => CommandView::Write { bytes: bytes@ },
            Command::WriteRecord { record } => CommandView::WriteRecord { record: record@ },
            Command::Flush => CommandView::Flush,
            Command::SyncData => CommandView::SyncData,
        }
    }
}

/// How far an operation on a writer has come.
pub enum Progress {
    /// Perform this command and hand its outcome to `resume`.
    Perform(Command),
    /// The record is in the live segment; its frame begins at `offset`.
    Appended { offset: u64 },
    /// The operation is done.
    Completed,
    /// The operation failed.
    Failed(WriteError),
}

/// What a [`Progress`] stands for.
pub enum ProgressView {
    Perform { command: CommandView },
    Appended { offset: u64 },
    Completed,
    Failed { error: WriteErrorView },
}

impl View for Progress {
    type V = ProgressView;

    open spec fn view(&self) -> ProgressView {
        match *self {
            Progress::Perform(command) => ProgressView::Perform { command: command@ },
            Progress::Appended { offset } => ProgressView::Appended { offset },
            Progress::Completed => ProgressView::Completed,
            Progress::Failed(error) => ProgressView::Failed { error: error@ },
        }
    }
}

/// A record on its way into the log.
#[derive(Clone, Copy)]
pub struct Append {
    pub record: Ghost<Seq<u8>>,
    /// The record's length.
    pub len: u32,
    /// The checksum that its frame carries.
    pub crc: u32,
}

/// What a writer is at. A state is named after the command whose outcome it waits
/// for.
#[derive(Clone, Copy)]
pub enum Task {
    Idle,
    /// Making the first segment of this writer.
    CreateFirst,
    LinkFirst,
    /// Sealing the live segment and making the next, for a record with no room in
    /// the live one.
    SealFlush(Append),
    SealSync(Append),
    CreateNext(Append),
    LinkNext(Append),
    /// Writing a frame.
    WriteLength(Append),
    WritePayload(Append),
    WriteChecksum(Append),
    /// A flush, a sync, and the sync that closes the log.
    Flush,
    SyncFlush { closing: bool },
    SyncData { closing: bool },
}

/// What a [`WalWriter`] stands for.
#[verifier::ext_equal]
pub struct WriterView {
    /// Number of the live segment.
    pub seq: u64,
    pub capacity: usize,
    /// Logical end of the live segment, counting bytes still in the buffer.
    pub offset: u64,
    /// Logical offset of the live segment known to be on disk.
    pub synced_offset: u64,
    /// Bytes of the live segment still in the buffer.
    pub unflushed: usize,
    pub closed: bool,
    pub task: Task,
}

/// The failure to number one segment more.
pub open spec fn sequence_overflow() -> IoErrorView {
    IoErrorView {
        kind: IoErrorKind::InvalidInput,
        message: "wal segment sequence overflow"@,
    }
}

/// The error for a segment that could not be created.
pub open spec fn creation_failure(path: Seq<char>, e: IoError) -> WriteErrorView {
    if e.kind == IoErrorKind::AlreadyExists {
        WriteErrorView::AlreadyExists { path }
    } else {
        WriteErrorView::Io { error: e@ }
    }
}

/// The command that a task waits for.
pub open spec fn command_of(v: WriterView) -> CommandView {
    match v.task {
        Task::Idle => arbitrary(),
        Task::CreateFirst => CommandView::Create {
            path: name_of(v.seq as nat),
            capacity: v.capacity as nat,
        },
        Task::CreateNext(_) => CommandView::Create {
            path: name_of((v.seq + 1) as nat),
            capacity: v.capacity as nat,
        },
        Task::LinkFirst | Task::LinkNext(_) => CommandView::SyncDir,
        Task::SealFlush(_) | Task::Flush | Task::SyncFlush { .. } => CommandView::Flush,
        Task::SealSync(_) | Task::SyncData { .. } => CommandView::SyncData,
        Task::WriteLength(a) => CommandView::Write { bytes: le_bytes(a.len as nat) },
        Task::WritePayload(a) => CommandView::WriteRecord { record: a.record@ },
        Task::WriteChecksum(a) => CommandView::Write { bytes: le_bytes(a.crc as nat) },
    }
}

impl WriterView {
    /// A writer about to create segment `seq`.
    pub open spec fn created(seq: u64, capacity: usize) -> WriterView {
        WriterView {
            seq,
            capacity,
            offset: 0,
            synced_offset: 0,
            unflushed: 0,
            closed: false,
            task: Task::CreateFirst,
        }
    }

    /// The writer at `task`, whose command is to be performed.
    pub open spec fn at(self, task: Task) -> (WriterView, ProgressView) {
        let v = WriterView { task, ..self };
        (v, ProgressView::Perform { command: command_of(v) })
    }

    /// The writer with nothing under way.
    pub open spec fn idle(self) -> WriterView {
        WriterView { task: Task::Idle, ..self }
    }

    /// The end of an operation in an error, with nothing else changed.
    pub open spec fn failed(self, error: WriteErrorView) -> (WriterView, ProgressView) {
        (self.idle(), ProgressView::Failed { error })
    }

    /// The end of a writer whose first segment could not be made: it has no file to
    /// append to, and takes no operation.
    pub open spec fn abandoned(self, error: WriteErrorView) -> (WriterView, ProgressView) {
        (WriterView { closed: true, ..self.idle() }, ProgressView::Failed { error })
    }

    /// Bytes in the kernel but not yet on disk.
    pub open spec fn unsynced(self) -> nat {
        if self.offset - self.unflushed < self.synced_offset {
            0
        } else {
            (self.offset - self.unflushed - self.synced_offset) as nat
        }
    }

    /// Whether a record of `len` bytes has room in the live segment.
    pub open spec fn has_room(self, len: nat) -> bool {
        self.offset + frame_len(len) <= MAX_SEGMENT_SIZE
    }

    /// The request to append `record` in a frame with this checksum.
    pub open spec fn pushed(self, record: Seq<u8>, crc: u32) -> (WriterView, ProgressView) {
        let append = Append { record: Ghost(record), len: record.len() as u32, crc };
        if record.len() == 0 {
            self.failed(WriteErrorView::EmptyRecord)
        } else if record.len() > MAX_RECORD_SIZE {
            self.failed(WriteErrorView::RecordTooLarge { len: record.len() })
        } else if self.has_room(record.len()) {
            self.at(Task::WriteLength(append))
        } else {
            self.at(Task::SealFlush(append))
        }
    }

    /// The outcome of the command that the writer waits for, after which `unflushed`
    /// bytes are in the buffer of the live segment.
    pub open spec fn resumed(self, outcome: Result<(), IoError>, unflushed: usize) -> (
        WriterView,
        ProgressView,
    ) {
        (WriterView { unflushed, ..self }).advanced(outcome)
    }

    /// The outcome of the command that the writer waits for, with what is in the
    /// buffer already noted.
    pub open spec fn advanced(self, outcome: Result<(), IoError>) -> (WriterView, ProgressView) {
        match outcome {
            Err(e) => match self.task {
                Task::CreateFirst => self.abandoned(
                    creation_failure(name_of(self.seq as nat), e),
                ),
                Task::LinkFirst => self.abandoned(WriteErrorView::Io { error: e@ }),
                Task::CreateNext(_) => self.failed(
                    creation_failure(name_of((self.seq + 1) as nat), e),
                ),
                _ => self.failed(WriteErrorView::Io { error: e@ }),
            },
            Ok(_) => match self.task {
                Task::Idle => (self, ProgressView::Completed),
                Task::CreateFirst => self.at(Task::LinkFirst),
                Task::LinkFirst => (self.idle(), ProgressView::Completed),
                Task::SealFlush(a) => self.at(Task::SealSync(a)),
                Task::SealSync(a) => if self.seq + 1 > MAX_SEGMENT_SEQ {
                    self.failed(WriteErrorView::Io { error: sequence_overflow() })
                } else {
                    self.at(Task::CreateNext(a))
                },
                Task::CreateNext(a) => self.at(Task::LinkNext(a)),
                Task::LinkNext(a) => (WriterView {
                    seq: (self.seq + 1) as u64,
                    offset: 0,
                    synced_offset: 0,
                    ..self
                }).at(Task::WriteLength(a)),
                Task::WriteLength(a) => self.at(Task::WritePayload(a)),
                Task::WritePayload(a) => self.at(Task::WriteChecksum(a)),
                Task::WriteChecksum(a) => (
                    WriterView {
                        offset: (self.offset + frame_len(a.len as nat)) as u64,
                        ..self.idle()
                    },
                    ProgressView::Appended { offset: self.offset },
                ),
                Task::Flush => (self.idle(), ProgressView::Completed),
                Task::SyncFlush { closing } => self.at(Task::SyncData { closing }),
                Task::SyncData { closing } => (
                    WriterView {
                        synced_offset: self.offset,
                        closed: self.closed || closing,
                        ..self.idle()
                    },
                    ProgressView::Completed,
                ),
            },
        }
    }
}

/// An append handle for a WAL directory.
///
/// The handle owns the directory exclusively: it names files `{seq:08}.wal`
/// starting at `00000001.wal`, never resumes an existing file, and rotates to
/// the next sequence when a record would push the live file past
/// [`MAX_SEGMENT_SIZE`]. Durability of the *live* file is the caller's
/// decision: [`push`](Self::push) never touches the disk, and the caller drives
/// [`flush`](Self::flush) and [`sync`](Self::sync). Rotation itself is a
/// durability barrier for the file it seals.
///
/// There are two barriers, and they form a hierarchy:
///
/// - [`flush`](Self::flush) moves bytes from the userspace buffer into the kernel
///   page cache. After it, a [`WalReader`](crate::WalReader) opened on the
///   directory can see them. They are *not* yet durable.
/// - [`sync`](Self::sync) flushes and then forces the kernel's copy to disk.
///   Durable implies visible.
///
/// Each operation names its first command; [`resume`](Self::resume) takes in the
/// outcome of a command and names the next, until the operation has ended.
pub struct WalWriter {
    seq: u64,
    path: String,
    capacity: usize,
    offset: u64,
    synced_offset: u64,
    unflushed: usize,
    closed: bool,
    task: Task,
}

impl View for WalWriter {
    type V = WriterView;

    closed spec fn view(&self) -> WriterView {
        WriterView {
            seq: self.seq,
            capacity: self.capacity,
            offset: self.offset,
            synced_offset: self.synced_offset,
            unflushed: self.unflushed,
            closed: self.closed,
            task: self.task,
        }
    }
}

/// Whether a record on its way is one the log accepts, with its own length.
pub open spec fn append_ok(a: Append) -> bool {
    valid_record(a.record@) && a.len == a.record@.len()
}

impl WriterView {
    /// What holds of a writer between calls: the live segment has a number and a
    /// name, and is no longer than it may be; what is synced has been written.
    pub open spec fn wf(self) -> bool {
        &&& 1 <= self.seq <= MAX_SEGMENT_SEQ
        &&& self.synced_offset <= self.offset <= MAX_SEGMENT_SIZE
        &&& match self.task {
            Task::SealFlush(a) | Task::SealSync(a) => append_ok(a),
            Task::CreateNext(a) | Task::LinkNext(a) => append_ok(a) && self.seq + 1
                <= MAX_SEGMENT_SEQ,
            Task::WriteLength(a) | Task::WritePayload(a) | Task::WriteChecksum(a) => append_ok(
                a,
            ) && self.has_room(a.len as nat),
            _ => true,
        }
    }
}

/// The command that creates segment `seq`, unless there is no number for it.
pub fn create_segment(seq: u64, capacity: usize) -> (command: Result<Command, WriteError>)
    ensures
        match command {
            Ok(c) => seq <= MAX_SEGMENT_SEQ && c@ == (CommandView::Create {
                path: name_of(seq as nat),
                capacity: capacity as nat,
            }),
            Err(e) => seq > MAX_SEGMENT_SEQ && e@ == (WriteErrorView::Io {
                error: sequence_overflow(),
            }),
        },
{
    if seq > MAX_SEGMENT_SEQ {
        return Err(
            WriteError::Io(
                IoError {
                    kind: IoErrorKind::InvalidInput,
                    message: "wal segment sequence overflow".to_owned(),
                },
            ),
        );
    }
    Ok(Command::Create { path: segment_name(seq), capacity })
}

/// The error for segment `seq`, which could not be created.
fn creation_error(seq: u64, e: IoError) -> (error: WriteError)
    ensures
        error@ == creation_failure(name_of(seq as nat), e),
{
    match e.kind {
        IoErrorKind::AlreadyExists => WriteError::AlreadyExists { path: segment_name(seq) },
        _ => WriteError::Io(e),
    }
}

impl WalWriter {
    /// What holds of a writer between calls.
    pub open spec fn wf(self) -> bool {
        self@.wf() && self.is_named()
    }

    /// Whether the name at hand is that of the live segment.
    pub closed spec fn is_named(self) -> bool {
        self.path@ == name_of(self.seq as nat)
    }

    /// A writer on the next segment of a directory, and the command that creates
    /// that segment.
    ///
    /// `names` are the names of the directory's entries; `None` stands for a name
    /// that is not Unicode. An empty directory is a valid empty log and yields
    /// `00000001.wal`. Matching `{seq:08}.wal` names must be contiguous `1..=n`; a
    /// gap is [`WriteError::MissingSegment`]. Never appends to an existing file:
    /// the live segment is always `n+1`.
    ///
    /// The command fails with [`WriteError::AlreadyExists`] if two writers race to
    /// create the same next name. A writer whose segment could not be created, or its
    /// name not be made durable, has nothing to append to: it counts as closed.
    pub fn new(names: &Vec<Option<String>>) -> (writer: Result<(Self, Command), WriteError>)
        ensures
            is_new_writer(found_seqs(names@), DEFAULT_CAPACITY, writer),
    {
        Self::with_capacity(names, DEFAULT_CAPACITY)
    }

    /// Like [`new`](Self::new), with an explicit userspace buffer size.
    ///
    /// The buffer is pure runtime tuning, which no reader can observe, so unlike
    /// the record size limit it is safe to vary per writer.
    pub fn with_capacity(names: &Vec<Option<String>>, capacity: usize) -> (writer: Result<
        (Self, Command),
        WriteError,
    >)
        ensures
            is_new_writer(found_seqs(names@), capacity, writer),
    {
        let last: u64 = match last_seq(names) {
            Ok(n) => n,
            Err(ScanError::Missing { seq }) => return Err(WriteError::MissingSegment { seq }),
        };
        let seq: u64 = last + 1;
        let command = match create_segment(seq, capacity) {
            Ok(command) => command,
            Err(e) => return Err(e),
        };
        let writer = WalWriter {
            seq,
            path: segment_name(seq),
            capacity,
            offset: 0,
            synced_offset: 0,
            unflushed: 0,
            closed: false,
            task: Task::CreateFirst,
        };
        Ok((writer, command))
    }

    /// Appends one record. [`Progress::Appended`] gives the byte offset at which its
    /// frame begins in the live segment.
    ///
    /// The offset is *logical*: it only becomes a valid seek target once
    /// [`flush`](Self::flush) has run. Until that it names bytes that exist
    /// nowhere but this process. After a rotation the first record of the new
    /// file is at `0`; [`path`](Self::path) names the file that record landed in.
    pub fn push(&mut self, record: &[u8]) -> (progress: Progress)
        requires
            old(self).wf(),
            old(self)@.task is Idle,
            !old(self)@.closed,
        ensures
            final(self).wf(),
            (final(self)@, progress@) == old(self)@.pushed(record@, frame_checksum(record@)),
    {
        if record.len() == 0 || record.len() > MAX_RECORD_SIZE {
            return self.push_with_checksum(record, 0);
        }
        let len_bytes: [u8; 4] = to_le_bytes(record.len() as u32);
        let crc: u32 = checksum(len_bytes.as_slice(), record);
        self.push_with_checksum(record, crc)
    }

    /// Appends one record in a frame that carries `crc`.
    pub fn push_with_checksum(&mut self, record: &[u8], crc: u32) -> (progress: Progress)
        requires
            old(self).wf(),
            old(self)@.task is Idle,
            !old(self)@.closed,
        ensures
            final(self).wf(),
            (final(self)@, progress@) == old(self)@.pushed(record@, crc),
    {
        if record.len() == 0 {
            return Progress::Failed(WriteError::EmptyRecord);
        }
        if record.len() > MAX_RECORD_SIZE {
            return Progress::Failed(WriteError::RecordTooLarge { len: record.len() });
        }
        let append = Append { record: Ghost(record@), len: record.len() as u32, crc };
        let size: u64 = (FRAME_OVERHEAD + record.len()) as u64;
        if self.offset + size > MAX_SEGMENT_SIZE {
            self.rotate(append)
        } else {
            self.begin_frame(append)
        }
    }

    /// Starts on sealing the live segment: flushed and synced before the next one
    /// is created.
    fn rotate(&mut self, append: Append) -> (progress: Progress)
        requires
            old(self).wf(),
            append_ok(append),
        ensures
            final(self).wf(),
            (final(self)@, progress@) == old(self)@.at(Task::SealFlush(append)),
    {
        self.task = Task::SealFlush(append);
        Progress::Perform(Command::Flush)
    }

    /// Starts on writing a frame. It takes three writes rather than one assembled
    /// buffer: against a buffered file these are copies into the existing buffer,
    /// so this avoids an allocation per record without costing extra system calls.
    fn begin_frame(&mut self, append: Append) -> (progress: Progress)
        requires
            old(self).wf(),
            append_ok(append),
            old(self)@.has_room(append.len as nat),
        ensures
            final(self).wf(),
            (final(self)@, progress@) == old(self)@.at(Task::WriteLength(append)),
    {
        self.task = Task::WriteLength(append);
        Progress::Perform(Command::Write { bytes: to_le_bytes(append.len) })
    }

    /// Moves buffered bytes into the kernel, making them visible to readers.
    ///
    /// Cheap relative to [`sync`](Self::sync), but it grants visibility, not
    /// durability.
    pub fn flush(&mut self) -> (progress: Progress)
        requires
            old(self).wf(),
            old(self)@.task is Idle,
            !old(self)@.closed,
        ensures
            final(self).wf(),
            (final(self)@, progress@) == old(self)@.at(Task::Flush),
    {
        self.task = Task::Flush;
        Progress::Perform(Command::Flush)
    }

    /// Flushes, and after that forces the kernel's copy of the live segment to disk.
    ///
    /// The flush exists so `sync` can never report success over data still sitting
    /// in userspace.
    pub fn sync(&mut self) -> (progress: Progress)
        requires
            old(self).wf(),
            old(self)@.task is Idle,
            !old(self)@.closed,
        ensures
            final(self).wf(),
            (final(self)@, progress@) == old(self)@.at(Task::SyncFlush { closing: false }),
    {
        self.task = Task::SyncFlush { closing: false };
        Progress::Perform(Command::Flush)
    }

    /// Flushes, syncs, and closes the live segment.
    ///
    /// The only way to *observe* a failing final flush. Previously sealed files
    /// were already synced at rotation. A writer that has been closed takes no further
    /// operation.
    pub fn close(&mut self) -> (progress: Progress)
        requires
            old(self).wf(),
            old(self)@.task is Idle,
            !old(self)@.closed,
        ensures
            final(self).wf(),
            (final(self)@, progress@) == old(self)@.at(Task::SyncFlush { closing: true }),
    {
        self.task = Task::SyncFlush { closing: true };
        Progress::Perform(Command::Flush)
    }

    /// Takes in the outcome of the command that the operation under way asked for,
    /// and how many bytes are in the buffer of the live segment after it.
    ///
    /// That number comes from the buffer itself rather than being tracked by hand,
    /// so it stays correct when the buffer empties on its own after filling up.
    pub fn resume(&mut self, outcome: Result<(), IoError>, unflushed: usize) -> (progress: Progress)
        requires
            old(self).wf(),
            !(old(self)@.task is Idle),
        ensures
            final(self).wf(),
            (final(self)@, progress@) == old(self)@.resumed(outcome, unflushed),
    {
        self.unflushed = unflushed;
        let task = self.task;
        if let Err(e) = outcome {
            self.task = Task::Idle;
            if let Task::CreateFirst | Task::LinkFirst = task {
                self.closed = true;
            }
            return Progress::Failed(
                match task {
                    Task::CreateFirst => creation_error(self.seq, e),
                    Task::CreateNext(_) => creation_error(self.seq + 1, e),
                    _ => WriteError::Io(e),
                },
            );
        }
        match task {
            Task::Idle => Progress::Completed,
            Task::CreateFirst => {
                self.task = Task::LinkFirst;
                Progress::Perform(Command::SyncDir)
            },
            Task::LinkFirst | Task::Flush => {
                self.task = Task::Idle;
                Progress::Completed
            },
            Task::SealFlush(a) => {
                self.task = Task::SealSync(a);
                Progress::Perform(Command::SyncData)
            },
            Task::SealSync(a) => match create_segment(self.seq + 1, self.capacity) {
                Ok(command) => {
                    self.task = Task::CreateNext(a);
                    Progress::Perform(command)
                },
                Err(e) => {
                    self.task = Task::Idle;
                    Progress::Failed(e)
                },
            },
            Task::CreateNext(a) => {
                self.task = Task::LinkNext(a);
                Progress::Perform(Command::SyncDir)
            },
            Task::LinkNext(a) => {
                self.seq = self.seq + 1;
                self.path = segment_name(self.seq);
                self.offset = 0;
                self.synced_offset = 0;
                self.task = Task::Idle;
                self.begin_frame(a)
            },
            Task::WriteLength(a) => {
                self.task = Task::WritePayload(a);
                Progress::Perform(Command::WriteRecord { record: a.record })
            },
            Task::WritePayload(a) => {
                self.task = Task::WriteChecksum(a);
                Progress::Perform(Command::Write { bytes: to_le_bytes(a.crc) })
            },
            Task::WriteChecksum(a) => {
                let start: u64 = self.offset;
                self.offset = start + (FRAME_OVERHEAD + a.len as usize) as u64;
                self.task = Task::Idle;
                Progress::Appended { offset: start }
            },
            Task::SyncFlush { closing } => {
                self.task = Task::SyncData { closing };
                Progress::Perform(Command::SyncData)
            },
            Task::SyncData { closing } => {
                self.synced_offset = self.offset;
                self.closed = self.closed || closing;
                self.task = Task::Idle;
                Progress::Completed
            },
        }
    }

    /// File name of the live segment. After a rotating [`push`](Self::push) this is
    /// the file the record just written landed in.
    pub fn path(&self) -> (path: &String)
        requires
            self.wf(),
        ensures
            path@ == name_of(self@.seq as nat),
    {
        &self.path
    }

    /// Bytes written but not yet in the kernel. Resets on [`flush`](Self::flush).
    ///
    /// Live segment only: sealed files were flushed at rotation.
    pub fn unflushed_bytes(&self) -> (bytes: usize)
        ensures
            bytes == self@.unflushed,
    {
        self.unflushed
    }

    /// Bytes in the kernel but not yet on disk. Resets on [`sync`](Self::sync).
    ///
    /// Live segment only: sealed files were synced at rotation.
    pub fn unsynced_bytes(&self) -> (bytes: usize)
        requires
            self.wf(),
            self@.unflushed <= self@.offset,
        ensures
            bytes == self@.unsynced(),
    {
        let in_kernel: u64 = self.offset - self.unflushed as u64;
        if in_kernel < self.synced_offset {
            0
        } else {
            (in_kernel - self.synced_offset) as usize
        }
    }

    /// Logical end of the live segment, counting bytes still in the buffer.
    pub fn offset(&self) -> (offset: u64)
        ensures
            offset == self@.offset,
    {
        self.offset
    }

    /// Whether dropping the writer now leaves bytes in the buffer that nobody has
    /// asked to be flushed.
    pub fn leaves_unflushed(&self) -> (leaves: bool)
        ensures
            leaves <==> !self@.closed && self@.unflushed > 0,
    {
        !(self.closed || self.unflushed == 0)
    }
}

/// Whether `writer` is what comes of opening a directory with the segments `found`
/// for appending.
pub open spec fn is_new_writer(
    found: Set<u64>,
    capacity: usize,
    writer: Result<(WalWriter, Command), WriteError>,
) -> bool {
    match writer {
        Ok((w, command)) => {
            &&& w.wf()
            &&& w@ == WriterView::created(w@.seq, capacity)
            &&& contiguous(found, (w@.seq - 1) as u64)
            &&& command@ == command_of(w@)
        },
        Err(WriteError::MissingSegment { seq }) => first_missing(found, seq),
        Err(e) => contiguous(found, MAX_SEGMENT_SEQ) && e@ == (WriteErrorView::Io {
            error: sequence_overflow(),
        }),
    }
}

} // verus!
