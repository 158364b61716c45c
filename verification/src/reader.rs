//! Reading a log back: the iteration over its frames and segments.
//!
//! The files themselves are the caller's. [`WalReader`] says which file to open and
//! how many bytes to read next, and is told how that went.

use std::string::FromUtf8Error;
use vstd::prelude::*;
use vstd::utf8::{decode_utf8, valid_utf8};

use crate::error::{IoError, IoErrorKind, ReadError};
use crate::format::{
    checksum, frame_len, from_le_bytes, judge, le_value, payload_of, Verdict, CRC_SIZE,
    FRAME_OVERHEAD, LEN_SIZE, MAX_RECORD_SIZE,
};
use crate::segment::{
    contiguous, first_missing, found_seqs, last_seq, name_of, names_segment, parse_segment_name,
    segment_name, ScanError,
};
use crate::utf8::{bytes_held, string_from_utf8};

verus! {

/// How far a buffer has been filled.
pub enum Filling {
    /// Not full yet: read once more.
    Again,
    /// Nothing more to read for this buffer, which holds this many bytes. It is
    /// short only where the file ended.
    Done { read: usize },
    /// Reading failed.
    Failed(IoError),
}

/// What one read does to a buffer that holds `held` bytes and is to hold `want`.
pub open spec fn filling(held: nat, want: nat, outcome: Result<Vec<u8>, IoError>) -> Filling {
    match outcome {
        Ok(chunk) => if chunk@.len() == 0 || held + chunk@.len() == want {
            Filling::Done { read: (held + chunk@.len()) as usize }
        } else {
            Filling::Again
        },
        Err(e) => if e.kind == IoErrorKind::Interrupted {
            Filling::Again
        } else {
            Filling::Failed(e)
        },
    }
}

/// The bytes that one read brought.
pub open spec fn brought(outcome: Result<Vec<u8>, IoError>) -> Seq<u8> {
    match outcome {
        Ok(chunk) => chunk@,
        Err(_) => Seq::empty(),
    }
}

/// Takes in the outcome of one read for a buffer that is to hold `want` bytes: no
/// bytes mean the end of the file, an interrupted read is to be tried again.
pub fn read_full(buf: &mut Vec<u8>, want: usize, outcome: Result<Vec<u8>, IoError>) -> (progress:
    Filling)
    requires
        old(buf)@.len() < want,
        old(buf)@.len() + brought(outcome).len() <= want,
    ensures
        final(buf)@ == old(buf)@ + brought(outcome),
        progress == filling(old(buf)@.len(), want as nat, outcome),
{
    match outcome {
        Ok(chunk) => {
            let mut chunk = chunk;
            let ended: bool = chunk.len() == 0;
            buf.append(&mut chunk);
            if ended || buf.len() == want {
                Filling::Done { read: buf.len() }
            } else {
                Filling::Again
            }
        },
        Err(e) => {
            assert(buf@ =~= old(buf)@ + Seq::<u8>::empty());
            match e.kind {
                IoErrorKind::Interrupted => Filling::Again,
                _ => Filling::Failed(e),
            }
        },
    }
}

/// The payload of a frame whose checksum is as stored, or the mismatch.
pub fn conclude_frame(
    path: &String,
    offset: u64,
    payload: Vec<u8>,
    expected: u32,
    actual: u32,
) -> (record: Result<Vec<u8>, ReadError>)
    ensures
        match record {
            Ok(bytes) => expected == actual && bytes@ == payload@,
            Err(e) => expected != actual && e == (ReadError::ChecksumMismatch {
                path: *path,
                offset,
                expected,
                actual,
            }),
        },
{
    if expected != actual {
        return Err(ReadError::ChecksumMismatch { path: path.clone(), offset, expected, actual });
    }
    Ok(payload)
}

/// What a reader asks for or has to say.
pub enum Step<T> {
    /// Read at most `want` bytes from where the open file has been read to, and
    /// hand the outcome to `received`. `want` is never zero, and never reaches past
    /// the length that the file had when the reader was made: bytes appended since
    /// are not asked for and not to be handed in.
    Read { want: usize },
    /// Open this file in place of the open one, and hand the outcome to `opened`.
    Open { path: String },
    /// The next item.
    Item(Result<T, ReadError>),
    /// There is no next item.
    End,
}

/// A [`Step`] over what the items stand for.
pub enum StepView<V> {
    Read { want: nat },
    Open { path: String },
    Item { item: V },
    Failed { error: ReadError },
    End,
}

impl<T: View> View for Step<T> {
    type V = StepView<T::V>;

    open spec fn view(&self) -> StepView<T::V> {
        match *self {
            Step::Read { want } => StepView::Read { want: want as nat },
            Step::Open { path } => StepView::Open { path },
            Step::Item(Ok(item)) => StepView::Item { item: item@ },
            Step::Item(Err(error)) => StepView::Failed { error },
            Step::End => StepView::End,
        }
    }
}

/// What a reader waits for.
#[derive(Debug, PartialEq, Eq, Structural, Clone, Copy)]
pub enum Waiting {
    /// The call that starts the next item.
    Call,
    /// The outcome of a read.
    Bytes,
    /// The outcome of opening the next file.
    File,
}

/// What a [`WalReader`] stands for.
#[verifier::ext_equal]
pub struct ReaderView {
    /// The files of the log, in order.
    pub files: Seq<String>,
    /// The length of each file when the reader was made. What lies beyond it was
    /// appended later, and is not read.
    pub limits: Seq<u64>,
    /// The open file among them.
    pub index: int,
    /// Start of the next frame to be read in the open file.
    pub offset: u64,
    /// Start of the frame most recently begun.
    pub frame_start: u64,
    /// Whether the iteration is over.
    pub fused: bool,
    /// The bytes of the current frame read so far.
    pub gathered: Seq<u8>,
    pub waiting: Waiting,
}

/// How many bytes to ask for next when the current frame begins with `gathered`:
/// what is missing of its length prefix, of its payload or of its checksum.
pub open spec fn wanted(gathered: Seq<u8>) -> nat {
    let len = le_value(gathered);
    if gathered.len() < LEN_SIZE {
        (LEN_SIZE - gathered.len()) as nat
    } else if gathered.len() < LEN_SIZE + len {
        (LEN_SIZE + len - gathered.len()) as nat
    } else {
        (frame_len(len) - gathered.len()) as nat
    }
}

impl ReaderView {
    /// A reader at the start of the first of `files`, which have these lengths.
    pub open spec fn at_start(files: Seq<String>, limits: Seq<u64>) -> ReaderView {
        ReaderView {
            files,
            limits,
            index: 0,
            offset: 0,
            frame_start: 0,
            fused: false,
            gathered: Seq::empty(),
            waiting: Waiting::Call,
        }
    }

    /// What holds of a reader between calls: it is at one of its files and within the
    /// length of that file, and has gathered part of a frame only while it waits for
    /// the rest.
    pub open spec fn wf(self) -> bool {
        &&& self.limits.len() == self.files.len()
        &&& self.files.len() > 0 ==> {
            &&& 0 <= self.index < self.files.len()
            &&& self.room() >= 0
        }
        &&& match self.waiting {
            Waiting::Call => self.gathered.len() == 0,
            Waiting::File => {
                &&& !self.fused
                &&& 0 <= self.index < self.files.len() - 1
                &&& self.gathered.len() == 0
            },
            Waiting::Bytes => {
                &&& !self.fused
                &&& self.files.len() > 0
                &&& self.frame_start == self.offset
                &&& judge(self.gathered) is Incomplete
                &&& self.room() > 0
            },
        }
    }

    /// How many bytes of the open file are left to read.
    pub open spec fn room(self) -> int {
        self.limits[self.index] - self.offset - self.gathered.len()
    }

    /// How many bytes to ask for next: what the field under way lacks, as far as the
    /// file has it.
    pub open spec fn asked(self) -> nat {
        if self.room() < wanted(self.gathered) {
            self.room() as nat
        } else {
            wanted(self.gathered)
        }
    }

    /// The open file.
    pub open spec fn path(self) -> String {
        self.files[self.index]
    }

    /// The reader with nothing under way.
    pub open spec fn idle(self) -> ReaderView {
        ReaderView { gathered: Seq::empty(), waiting: Waiting::Call, ..self }
    }

    /// The end of the iteration in an error.
    pub open spec fn failed(self, error: ReadError) -> (ReaderView, StepView<Seq<u8>>) {
        (ReaderView { fused: true, ..self.idle() }, StepView::Failed { error })
    }

    /// The request for more of the current frame; the end of the file where there is
    /// no more of it.
    pub open spec fn asking(self) -> (ReaderView, StepView<Seq<u8>>) {
        if self.room() > 0 {
            (self, StepView::Read { want: self.asked() })
        } else {
            self.bytes_ended()
        }
    }

    /// The start of a frame.
    pub open spec fn begun(self) -> (ReaderView, StepView<Seq<u8>>) {
        (ReaderView {
            frame_start: self.offset,
            gathered: Seq::empty(),
            waiting: Waiting::Bytes,
            ..self
        }).asking()
    }

    /// The request for the next item.
    pub open spec fn next(self) -> (ReaderView, StepView<Seq<u8>>) {
        if self.fused || self.files.len() == 0 {
            (self, StepView::End)
        } else {
            self.begun()
        }
    }

    /// The open file has ended on a frame boundary.
    pub open spec fn file_ended(self) -> (ReaderView, StepView<Seq<u8>>) {
        if self.index + 1 < self.files.len() {
            (
                ReaderView { waiting: Waiting::File, ..self.idle() },
                StepView::Open { path: self.files[self.index + 1] },
            )
        } else {
            (ReaderView { fused: true, ..self.idle() }, StepView::End)
        }
    }

    /// The open file has no more bytes: it ends cleanly, or inside a frame.
    pub open spec fn bytes_ended(self) -> (ReaderView, StepView<Seq<u8>>) {
        if self.gathered.len() == 0 {
            self.file_ended()
        } else {
            self.failed(ReadError::TruncatedTail { path: self.path(), offset: self.offset })
        }
    }

    /// The outcome of opening the next file.
    pub open spec fn opened(self, outcome: Result<(), IoError>) -> (
        ReaderView,
        StepView<Seq<u8>>,
    ) {
        match outcome {
            Ok(_) => (ReaderView { index: self.index + 1, offset: 0, ..self }).begun(),
            Err(e) => self.failed(ReadError::Io(e)),
        }
    }

    /// The frame so far, with `chunk` read.
    pub open spec fn gathered_more(self, chunk: Seq<u8>) -> (ReaderView, StepView<Seq<u8>>) {
        let gathered = self.gathered + chunk;
        match judge(gathered) {
            Verdict::Incomplete => (ReaderView { gathered, ..self }).asking(),
            Verdict::InvalidLength { len } => self.failed(
                ReadError::InvalidLength {
                    path: self.path(),
                    offset: self.offset,
                    len: len as u32,
                },
            ),
            Verdict::Mismatch { expected, actual } => self.failed(
                ReadError::ChecksumMismatch {
                    path: self.path(),
                    offset: self.offset,
                    expected,
                    actual,
                },
            ),
            Verdict::Record { payload } => (
                ReaderView { offset: (self.offset + gathered.len()) as u64, ..self.idle() },
                StepView::Item { item: payload },
            ),
        }
    }

    /// The outcome of a read.
    pub open spec fn received(self, outcome: Result<Vec<u8>, IoError>) -> (
        ReaderView,
        StepView<Seq<u8>>,
    ) {
        match outcome {
            Ok(chunk) => if chunk@.len() > 0 {
                self.gathered_more(chunk@)
            } else {
                self.bytes_ended()
            },
            Err(e) => if e.kind == IoErrorKind::Interrupted {
                (self, StepView::Read { want: self.asked() })
            } else {
                self.failed(ReadError::Io(e))
            },
        }
    }
}

/// A forward iterator over the records in a WAL directory.
///
/// [`open`](Self::open) snapshots matching `{seq:08}.wal` names at open and
/// concatenates them in sequence order. Later rotations are invisible to this
/// reader. [`open_file`](Self::open_file) reads a single segment.
///
/// Files are read piece by piece, so memory use does not depend on segment size:
/// recovering a multi-gigabyte log does not need a multi-gigabyte allocation at
/// the worst possible moment.
///
/// The reader sees a *consistent prefix* of each file as of open: records still
/// sitting in a live writer's buffer are simply absent, and so is what is appended
/// later. There is no tailing and no waiting.
///
/// Iteration terminates in one of three ways:
///
/// - [`Step::End`]: clean end of the last snapshotted file, exactly on a frame
///   boundary.
/// - [`TruncatedTail`](ReadError::TruncatedTail): a file ends inside a frame. This
///   is what a crash mid-append looks like. It fuses the whole reader, also when
///   later segments exist; those files are orphans until the torn file is
///   truncated in place.
/// - [`ChecksumMismatch`](ReadError::ChecksumMismatch) or
///   [`InvalidLength`](ReadError::InvalidLength): damaged bytes.
///
/// An error is yielded **once** and then iteration ends. The end is final too: it is
/// never followed by an item. The reader never resumes: once a checksum fails, the
/// length prefix that would say where the next frame begins is part of the data that
/// just failed verification, so "skip to the next record" would mean seeking to an
/// offset derived from bytes already proven untrustworthy.
pub struct WalReader {
    files: Vec<String>,
    limits: Vec<u64>,
    index: usize,
    offset: u64,
    frame_start: u64,
    fused: bool,
    len_bytes: Vec<u8>,
    payload: Vec<u8>,
    crc_bytes: Vec<u8>,
    waiting: Waiting,
}

impl View for WalReader {
    type V = ReaderView;

    closed spec fn view(&self) -> ReaderView {
        ReaderView {
            files: self.files@,
            limits: self.limits@,
            index: self.index as int,
            offset: self.offset,
            frame_start: self.frame_start,
            fused: self.fused,
            gathered: self.len_bytes@ + self.payload@ + self.crc_bytes@,
            waiting: self.waiting,
        }
    }
}

/// The names of segments `1..=last`, in order.
pub open spec fn are_segments(files: Seq<String>, last: nat) -> bool {
    &&& files.len() == last
    &&& forall|i: int| 0 <= i < last ==> (#[trigger] files[i])@ == name_of((i + 1) as nat)
}

/// Whether entry `i` is the last of the first `count` entries that names segment `seq`.
pub open spec fn latest_entry(names: Seq<Option<String>>, count: int, i: int, seq: u64) -> bool {
    &&& i < count
    &&& names_segment(names, i, seq)
    &&& forall|j: int| i < j < count ==> !#[trigger] names_segment(names, j, seq)
}

/// Whether `len` is the length of segment `seq`, where `lens` are those of the first
/// `count` entries with these names. No directory has a name twice; of a list that
/// does, the last entry counts.
pub open spec fn is_length_of(
    names: Seq<Option<String>>,
    lens: Seq<u64>,
    count: int,
    seq: u64,
    len: u64,
) -> bool {
    exists|i: int| #[trigger] latest_entry(names, count, i, seq) && len == lens[i]
}

/// Whether `limits` are the lengths of segments 1, 2, 3 and so on, where `lens` are
/// those of the entries with these names.
pub open spec fn are_lengths(
    limits: Seq<u64>,
    names: Seq<Option<String>>,
    lens: Seq<u64>,
) -> bool {
    forall|k: int|
        0 <= k < limits.len() ==> is_length_of(
            names,
            lens,
            names.len() as int,
            (k + 1) as u64,
            #[trigger] limits[k],
        )
}

impl WalReader {
    /// What holds of a reader between calls.
    pub open spec fn wf(self) -> bool {
        self@.wf() && self.is_parted()
    }

    /// Whether the bytes of the current frame are parted into its fields.
    pub closed spec fn is_parted(self) -> bool {
        self.waiting == Waiting::Bytes ==> {
            &&& self.len_bytes@.len() <= LEN_SIZE
            &&& self.len_bytes@.len() < LEN_SIZE ==> self.payload@.len() == 0
                && self.crc_bytes@.len() == 0
            &&& self.len_bytes@.len() == LEN_SIZE ==> {
                &&& self.payload@.len() <= le_value(self.len_bytes@)
                &&& self.payload@.len() < le_value(self.len_bytes@) ==> self.crc_bytes@.len() == 0
                &&& self.crc_bytes@.len() < CRC_SIZE
            }
        }
    }

    /// Reads every matching segment among the entries of a directory, concatenated
    /// in sequence order.
    ///
    /// `names` are the names of the directory's entries and `lens` the lengths of
    /// these files as of now; `None` stands for a name that is not Unicode. The length
    /// of an entry that is no segment does not matter. A directory with no matching
    /// names is a valid empty log. Matching names must be contiguous `1..=n`. The
    /// first file is to be opened before the first call of [`next`](Self::next):
    /// [`path`](Self::path) names it.
    pub fn open(names: &Vec<Option<String>>, lens: &Vec<u64>) -> (reader: Result<
        Self,
        ReadError,
    >)
        requires
            lens@.len() == names@.len(),
        ensures
            match reader {
                Ok(r) => {
                    &&& r.wf()
                    &&& r@ == ReaderView::at_start(r@.files, r@.limits)
                    &&& r@.files.len() <= u64::MAX
                    &&& contiguous(found_seqs(names@), r@.files.len() as u64)
                    &&& are_segments(r@.files, r@.files.len())
                    &&& are_lengths(r@.limits, names@, lens@)
                },
                Err(e) => e matches ReadError::MissingSegment { seq } && first_missing(
                    found_seqs(names@),
                    seq,
                ),
            },
    {
        let last: u64 = match last_seq(names) {
            Ok(n) => n,
            Err(ScanError::Missing { seq }) => return Err(ReadError::MissingSegment { seq }),
        };
        let mut files: Vec<String> = Vec::new();
        let mut seq: u64 = 0;
        while seq < last
            invariant
                seq <= last,
                are_segments(files@, seq as nat),
            decreases last - seq,
        {
            seq += 1;
            files.push(segment_name(seq));
        }
        let limits = Self::segment_lengths(names, lens, last);
        Ok(Self::from_files(files, limits))
    }

    /// The lengths of segments `1..=last`.
    fn segment_lengths(names: &Vec<Option<String>>, lens: &Vec<u64>, last: u64) -> (limits: Vec<
        u64,
    >)
        requires
            lens@.len() == names@.len(),
            contiguous(found_seqs(names@), last),
        ensures
            limits@.len() == last,
            are_lengths(limits@, names@, lens@),
    {
        let mut limits: Vec<u64> = Vec::new();
        let mut seq: u64 = 0;
        while seq < last
            invariant
                seq <= last,
                limits@.len() == seq,
            decreases last - seq,
        {
            seq += 1;
            limits.push(0);
        }
        let mut i: usize = 0;
        while i < names.len()
            invariant
                i <= names@.len(),
                lens@.len() == names@.len(),
                contiguous(found_seqs(names@), last),
                limits@.len() == last,
                forall|seq: u64, j: int|
                    1 <= seq <= last && j < i && #[trigger] names_segment(names@, j, seq)
                        ==> is_length_of(names@, lens@, i as int, seq, limits@[seq - 1]),
            decreases names@.len() - i,
        {
            let ghost before = limits@;
            let mut here: Option<u64> = None;
            if let Some(name) = &names[i] {
                here = parse_segment_name(name.as_str());
            }
            if let Some(seq) = here {
                proof {
                    assert(names_segment(names@, i as int, seq));
                    assert(found_seqs(names@).contains(seq));
                }
                assert(seq - 1 < limits.len());
                let at: usize = (seq - 1) as usize;
                limits[at] = lens[i];
            }
            proof {
                assert forall|seq: u64, j: int|
                    1 <= seq <= last && j < i + 1 && #[trigger] names_segment(
                        names@,
                        j,
                        seq,
                    ) implies is_length_of(names@, lens@, i + 1, seq, limits@[seq - 1]) by {
                    if here == Some(seq) {
                        assert(latest_entry(names@, i + 1, i as int, seq));
                    } else {
                        assert(!names_segment(names@, i as int, seq));
                        assert(is_length_of(names@, lens@, i as int, seq, before[seq - 1]));
                        let m = choose|m: int|
                            #[trigger] latest_entry(names@, i as int, m, seq) && before[seq - 1]
                                == lens@[m];
                        assert(latest_entry(names@, i + 1, m, seq));
                    }
                }
            }
            i += 1;
        }
        proof {
            assert forall|k: int| 0 <= k < limits@.len() implies is_length_of(
                names@,
                lens@,
                names@.len() as int,
                (k + 1) as u64,
                #[trigger] limits@[k],
            ) by {
                let seq = (k + 1) as u64;
                assert(found_seqs(names@).contains(seq));
                let j = choose|j: int| #[trigger] names_segment(names@, j, seq);
                assert(j < i && names_segment(names@, j, seq));
            }
        }
        limits
    }

    /// Reads a single segment file, which is `len` bytes long as of now. Does not
    /// validate the name against the directory scheme.
    pub fn open_file(path: String, len: u64) -> (reader: Self)
        ensures
            reader.wf(),
            reader@ == ReaderView::at_start(seq![path], seq![len]),
    {
        let mut files: Vec<String> = Vec::new();
        files.push(path);
        let mut limits: Vec<u64> = Vec::new();
        limits.push(len);
        assert(files@ =~= seq![path]);
        assert(limits@ =~= seq![len]);
        Self::from_files(files, limits)
    }

    fn from_files(files: Vec<String>, limits: Vec<u64>) -> (reader: Self)
        requires
            limits@.len() == files@.len(),
        ensures
            reader.wf(),
            reader@ == ReaderView::at_start(files@, limits@),
    {
        let reader = WalReader {
            files,
            limits,
            index: 0,
            offset: 0,
            frame_start: 0,
            fused: false,
            len_bytes: Vec::new(),
            payload: Vec::new(),
            crc_bytes: Vec::new(),
            waiting: Waiting::Call,
        };
        assert(reader@.gathered =~= Seq::<u8>::empty());
        reader
    }

    /// The open file, or the one to open first. A log without segments has none.
    pub fn path(&self) -> (path: Option<&String>)
        requires
            self.wf(),
        ensures
            match path {
                Some(p) => self@.files.len() > 0 && *p == self@.path(),
                None => self@.files.len() == 0,
            },
    {
        if self.files.len() == 0 {
            None
        } else {
            Some(&self.files[self.index])
        }
    }

    /// Whether the reader is at one of its files, and no further than it is long.
    spec fn is_placed(self) -> bool {
        &&& self.limits@.len() == self.files@.len()
        &&& self.index < self.files@.len()
        &&& self.offset <= self.limits@[self.index as int]
    }

    /// Drops the bytes of the current frame.
    fn reset(&mut self)
        ensures
            final(self).files == old(self).files,
            final(self).limits == old(self).limits,
            final(self).index == old(self).index,
            final(self).offset == old(self).offset,
            final(self).frame_start == old(self).frame_start,
            final(self).fused == old(self).fused,
            final(self).waiting == Waiting::Call,
            final(self).len_bytes@.len() == 0,
            final(self).payload@.len() == 0,
            final(self).crc_bytes@.len() == 0,
            final(self)@ == old(self)@.idle(),
    {
        self.len_bytes = Vec::new();
        self.payload = Vec::new();
        self.crc_bytes = Vec::new();
        self.waiting = Waiting::Call;
        assert(self@.gathered =~= Seq::<u8>::empty());
    }

    /// Ends the iteration in `error`.
    fn fail(&mut self, error: ReadError) -> (step: Step<Vec<u8>>)
        requires
            old(self).is_placed(),
        ensures
            final(self).wf(),
            (final(self)@, step@) == old(self)@.failed(error),
    {
        self.reset();
        self.fused = true;
        Step::Item(Err(error))
    }

    /// Starts on the frame at the current offset.
    fn begin_frame(&mut self) -> (step: Step<Vec<u8>>)
        requires
            !old(self).fused,
            old(self).is_placed(),
        ensures
            final(self).wf(),
            (final(self)@, step@) == old(self)@.begun(),
    {
        self.reset();
        self.frame_start = self.offset;
        self.waiting = Waiting::Bytes;
        self.ask(LEN_SIZE)
    }

    /// Asks for the `missing` bytes of the field under way, as far as the file has
    /// them.
    fn ask(&mut self, missing: usize) -> (step: Step<Vec<u8>>)
        requires
            !old(self).fused,
            old(self).is_placed(),
            old(self).waiting == Waiting::Bytes,
            old(self).frame_start == old(self).offset,
            old(self).is_parted(),
            old(self)@.room() >= 0,
            judge(old(self)@.gathered) is Incomplete,
            missing == wanted(old(self)@.gathered),
        ensures
            final(self).wf(),
            (final(self)@, step@) == old(self)@.asking(),
    {
        let held: u64 = self.len_bytes.len() as u64 + self.payload.len() as u64
            + self.crc_bytes.len() as u64;
        let room: u64 = self.limits[self.index] - self.offset - held;
        if room == 0 {
            if held == 0 {
                return self.open_next();
            }
            return self.torn();
        }
        if room < missing as u64 {
            Step::Read { want: room as usize }
        } else {
            Step::Read { want: missing }
        }
    }

    /// Starts on the next item. The log is over once the end has been reached or an
    /// error yielded.
    pub fn next(&mut self) -> (step: Step<Vec<u8>>)
        requires
            old(self).wf(),
            old(self)@.waiting == Waiting::Call,
        ensures
            final(self).wf(),
            (final(self)@, step@) == old(self)@.next(),
    {
        if self.fused || self.files.len() == 0 {
            return Step::End;
        }
        self.begin_frame()
    }

    /// Moves on to the next file, if there is one; else the iteration is over.
    fn open_next(&mut self) -> (step: Step<Vec<u8>>)
        requires
            !old(self).fused,
            old(self).is_placed(),
        ensures
            final(self).wf(),
            (final(self)@, step@) == old(self)@.file_ended(),
    {
        self.reset();
        if self.files.len() - self.index <= 1 {
            self.fused = true;
            return Step::End;
        }
        self.waiting = Waiting::File;
        Step::Open { path: self.files[self.index + 1].clone() }
    }

    /// Takes in the outcome of opening the file that a [`Step::Open`] named.
    pub fn opened(&mut self, outcome: Result<(), IoError>) -> (step: Step<Vec<u8>>)
        requires
            old(self).wf(),
            old(self)@.waiting == Waiting::File,
        ensures
            final(self).wf(),
            (final(self)@, step@) == old(self)@.opened(outcome),
    {
        match outcome {
            Ok(_) => {
                assert(self.index + 1 < self.files.len());
                self.index = self.index + 1;
                self.offset = 0;
                self.begin_frame()
            },
            Err(e) => self.fail(ReadError::Io(e)),
        }
    }

    /// The current frame turned out to be torn.
    fn torn(&mut self) -> (step: Step<Vec<u8>>)
        requires
            old(self).is_placed(),
        ensures
            final(self).wf(),
            (final(self)@, step@) == old(self)@.failed(
                ReadError::TruncatedTail { path: old(self)@.path(), offset: old(self)@.offset },
            ),
    {
        let path = self.files[self.index].clone();
        let offset: u64 = self.offset;
        self.fail(ReadError::TruncatedTail { path, offset })
    }

    /// Takes in the outcome of the read that a [`Step::Read`] asked for: the bytes
    /// that came, none at the end of the file, or the failure. Bytes appended to the
    /// file after open are not to be handed in; they lie beyond what was asked for.
    pub fn received(&mut self, outcome: Result<Vec<u8>, IoError>) -> (step: Step<Vec<u8>>)
        requires
            old(self).wf(),
            old(self)@.waiting == Waiting::Bytes,
            brought(outcome).len() <= old(self)@.asked(),
        ensures
            final(self).wf(),
            (final(self)@, step@) == old(self)@.received(outcome),
    {
        if self.len_bytes.len() < LEN_SIZE {
            self.read_length(outcome)
        } else {
            let len: u32 = from_le_bytes(self.len_bytes.as_slice());
            if self.payload.len() < len as usize {
                self.read_payload(len as usize, outcome)
            } else {
                self.read_checksum(outcome)
            }
        }
    }

    /// Reads on in the length prefix. Its value is checked before anything is read
    /// on the strength of it: the checksum cannot vouch for a length until that
    /// many bytes have been read, so a corrupt prefix claiming four billion bytes
    /// has to be caught here or not at all. A length of zero is never valid, which
    /// also rejects a zero-filled tail.
    fn read_length(&mut self, outcome: Result<Vec<u8>, IoError>) -> (step: Step<Vec<u8>>)
        requires
            old(self).wf(),
            old(self)@.waiting == Waiting::Bytes,
            old(self).len_bytes@.len() < LEN_SIZE,
            brought(outcome).len() <= old(self)@.asked(),
        ensures
            final(self).wf(),
            (final(self)@, step@) == old(self)@.received(outcome),
    {
        assert(self@.gathered =~= self.len_bytes@);
        let progress = read_full(&mut self.len_bytes, LEN_SIZE, outcome);
        assert(self@.gathered =~= old(self)@.gathered + brought(outcome));
        assert(self@.gathered =~= self.len_bytes@);
        match progress {
            Filling::Again => {
                self.ask(LEN_SIZE - self.len_bytes.len())
            },
            Filling::Failed(e) => self.fail(ReadError::Io(e)),
            Filling::Done { read } => {
                if read == 0 {
                    return self.open_next();
                }
                if read < LEN_SIZE {
                    return self.torn();
                }
                let len: u32 = from_le_bytes(self.len_bytes.as_slice());
                if len == 0 || len as usize > MAX_RECORD_SIZE {
                    let path = self.files[self.index].clone();
                    let offset: u64 = self.offset;
                    return self.fail(ReadError::InvalidLength { path, offset, len });
                }
                self.ask(len as usize)
            },
        }
    }

    /// Reads on in the payload, which is `len` bytes long.
    fn read_payload(&mut self, len: usize, outcome: Result<Vec<u8>, IoError>) -> (step: Step<
        Vec<u8>,
    >)
        requires
            old(self).wf(),
            old(self)@.waiting == Waiting::Bytes,
            old(self).len_bytes@.len() == LEN_SIZE,
            len == le_value(old(self).len_bytes@),
            old(self).payload@.len() < len,
            brought(outcome).len() <= old(self)@.asked(),
        ensures
            final(self).wf(),
            (final(self)@, step@) == old(self)@.received(outcome),
    {
        assert(self@.gathered =~= self.len_bytes@ + self.payload@);
        let progress = read_full(&mut self.payload, len, outcome);
        assert(self@.gathered =~= old(self)@.gathered + brought(outcome));
        assert(self@.gathered =~= self.len_bytes@ + self.payload@);
        match progress {
            Filling::Again => {
                self.ask(len - self.payload.len())
            },
            Filling::Failed(e) => self.fail(ReadError::Io(e)),
            Filling::Done { read } => {
                if read < len {
                    return self.torn();
                }
                self.ask(CRC_SIZE)
            },
        }
    }

    /// Reads on in the checksum, and judges the frame once it is all there.
    fn read_checksum(&mut self, outcome: Result<Vec<u8>, IoError>) -> (step: Step<Vec<u8>>)
        requires
            old(self).wf(),
            old(self)@.waiting == Waiting::Bytes,
            old(self).len_bytes@.len() == LEN_SIZE,
            old(self).payload@.len() == le_value(old(self).len_bytes@),
            brought(outcome).len() <= old(self)@.asked(),
        ensures
            final(self).wf(),
            (final(self)@, step@) == old(self)@.received(outcome),
    {
        let progress = read_full(&mut self.crc_bytes, CRC_SIZE, outcome);
        let ghost len = self.payload@.len();
        let ghost gathered = self@.gathered;
        assert(gathered =~= old(self)@.gathered + brought(outcome));
        match progress {
            Filling::Again => {
                self.ask(CRC_SIZE - self.crc_bytes.len())
            },
            Filling::Failed(e) => self.fail(ReadError::Io(e)),
            Filling::Done { read } => {
                if read < CRC_SIZE {
                    return self.torn();
                }
                let expected: u32 = from_le_bytes(self.crc_bytes.as_slice());
                let actual: u32 = checksum(self.len_bytes.as_slice(), self.payload.as_slice());
                proof {
                    assert(gathered.subrange(LEN_SIZE + len, LEN_SIZE + len + CRC_SIZE)
                        =~= self.crc_bytes@);
                    assert(gathered.take(LEN_SIZE + len) =~= self.len_bytes@ + self.payload@);
                    assert(payload_of(gathered) =~= self.payload@);
                }
                let mut payload: Vec<u8> = Vec::new();
                std::mem::swap(&mut payload, &mut self.payload);
                let size: u64 = (FRAME_OVERHEAD + payload.len()) as u64;
                let path = self.files[self.index].clone();
                let offset: u64 = self.offset;
                match conclude_frame(&path, offset, payload, expected, actual) {
                    Ok(record) => {
                        self.reset();
                        self.offset = offset + size;
                        Step::Item(Ok(record))
                    },
                    Err(e) => self.fail(e),
                }
            },
        }
    }

    /// Consumes the reader, yielding records decoded as UTF-8.
    ///
    /// Consuming rather than borrowing on purpose: interleaving byte reads and
    /// string reads against one cursor is a confusing capability, so the element
    /// type is chosen once.
    pub fn strings(self) -> (texts: Strings)
        requires
            self.wf(),
        ensures
            texts.wf(),
            texts@ == self@,
    {
        Strings { reader: self }
    }
}

/// The item for a record that was read as UTF-8 with this outcome.
pub fn conclude_text(path: &String, offset: u64, text: Result<String, FromUtf8Error>) -> (item:
    Result<String, ReadError>)
    ensures
        item == match text {
            Ok(s) => Ok::<String, ReadError>(s),
            Err(source) => Err(ReadError::InvalidUtf8 { path: *path, offset, source }),
        },
{
    match text {
        Ok(s) => Ok(s),
        Err(source) => Err(ReadError::InvalidUtf8 { path: path.clone(), offset, source }),
    }
}

/// Whether `text` is the step over decoded records that `step` is over bytes, for a
/// reader that is at `reader` after it.
pub open spec fn decodes(
    reader: ReaderView,
    step: StepView<Seq<u8>>,
    text: StepView<Seq<char>>,
) -> bool {
    match step {
        StepView::Read { want } => text == StepView::<Seq<char>>::Read { want },
        StepView::Open { path } => text == StepView::<Seq<char>>::Open { path },
        StepView::Item { item } => if valid_utf8(item) {
            text == StepView::Item { item: decode_utf8(item) }
        } else {
            text matches StepView::Failed {
                error: ReadError::InvalidUtf8 { path, offset, source },
            } && path == reader.path() && offset == reader.frame_start && bytes_held(source)
                == item
        },
        StepView::Failed { error } => text == StepView::<Seq<char>>::Failed { error },
        StepView::End => text == StepView::<Seq<char>>::End,
    }
}

/// Iterator returned by [`WalReader::strings`]. A record that is not UTF-8 is
/// reported and does not end the iteration.
pub struct Strings {
    reader: WalReader,
}

impl View for Strings {
    type V = ReaderView;

    closed spec fn view(&self) -> ReaderView {
        self.reader@
    }
}

impl Strings {
    /// What holds of the iterator between calls.
    pub open spec fn wf(self) -> bool {
        self@.wf() && self.is_parted()
    }

    /// Whether the bytes of the current frame are parted into its fields.
    pub closed spec fn is_parted(self) -> bool {
        self.reader.is_parted()
    }

    /// Turns a step over bytes into one over text.
    fn decode(&self, step: Step<Vec<u8>>) -> (text: Step<String>)
        requires
            self.wf(),
            step is Item ==> self@.files.len() > 0,
        ensures
            decodes(self@, step@, text@),
    {
        match step {
            Step::Read { want } => Step::Read { want },
            Step::Open { path } => Step::Open { path },
            Step::Item(Ok(bytes)) => {
                let offset: u64 = self.reader.frame_start;
                let path: &String = &self.reader.files[self.reader.index];
                Step::Item(conclude_text(path, offset, string_from_utf8(bytes)))
            },
            Step::Item(Err(e)) => Step::Item(Err(e)),
            Step::End => Step::End,
        }
    }

    /// Starts on the next item.
    pub fn next(&mut self) -> (step: Step<String>)
        requires
            old(self).wf(),
            old(self)@.waiting == Waiting::Call,
        ensures
            final(self).wf(),
            final(self)@ == old(self)@.next().0,
            decodes(final(self)@, old(self)@.next().1, step@),
    {
        let step = self.reader.next();
        self.decode(step)
    }

    /// Takes in the outcome of opening the file that a [`Step::Open`] named.
    pub fn opened(&mut self, outcome: Result<(), IoError>) -> (step: Step<String>)
        requires
            old(self).wf(),
            old(self)@.waiting == Waiting::File,
        ensures
            final(self).wf(),
            final(self)@ == old(self)@.opened(outcome).0,
            decodes(final(self)@, old(self)@.opened(outcome).1, step@),
    {
        let step = self.reader.opened(outcome);
        self.decode(step)
    }

    /// Takes in the outcome of the read that a [`Step::Read`] asked for.
    pub fn received(&mut self, outcome: Result<Vec<u8>, IoError>) -> (step: Step<String>)
        requires
            old(self).wf(),
            old(self)@.waiting == Waiting::Bytes,
            brought(outcome).len() <= old(self)@.asked(),
        ensures
            final(self).wf(),
            final(self)@ == old(self)@.received(outcome).0,
            decodes(final(self)@, old(self)@.received(outcome).1, step@),
    {
        let step = self.reader.received(outcome);
        self.decode(step)
    }
}

} // verus!
