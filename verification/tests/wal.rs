//! The correctness of this design lives almost entirely in failure paths, so
//! most of what follows constructs damage deliberately: torn writes by cutting a
//! file short, corruption by flipping bits. The files are kept in memory; a real
//! `BufWriter` stands between the writer and its file.

use std::cell::RefCell;
use std::collections::BTreeMap;
use std::io::{BufWriter, Write};
use std::rc::Rc;

use wal_writer::{
    Command, IoError, IoErrorKind, Progress, ReadError, Step, Strings, WalReader, WalWriter,
    WriteError, MAX_RECORD_SIZE,
};

/// Frame overhead: 4-byte length prefix plus 4-byte checksum.
const OVERHEAD: u64 = 8;
/// Both fixture records are five bytes, so every frame is thirteen.
const FRAME: u64 = OVERHEAD + 5;

// --- fixtures ---------------------------------------------------------------

type Bytes = Rc<RefCell<Vec<u8>>>;

/// A directory in memory. `None` is one that does not exist.
struct TmpDir {
    files: Rc<RefCell<Option<BTreeMap<String, Bytes>>>>,
}

struct MemFile(Bytes);

impl Write for MemFile {
    fn write(&mut self, buf: &[u8]) -> std::io::Result<usize> {
        self.0.borrow_mut().extend_from_slice(buf);
        Ok(buf.len())
    }

    fn flush(&mut self) -> std::io::Result<()> {
        Ok(())
    }
}

fn failure(kind: IoErrorKind, message: &str) -> IoError {
    IoError { kind, message: message.to_string() }
}

impl TmpDir {
    fn new() -> Self {
        TmpDir { files: Rc::new(RefCell::new(Some(BTreeMap::new()))) }
    }

    fn missing() -> Self {
        TmpDir { files: Rc::new(RefCell::new(None)) }
    }

    fn names(&self) -> Result<Vec<Option<String>>, IoError> {
        match &*self.files.borrow() {
            Some(files) => Ok(files.keys().map(|name| Some(name.clone())).collect()),
            None => Err(failure(IoErrorKind::Other, "no such directory")),
        }
    }

    /// The lengths of the files, in the order of their names.
    fn lens(&self) -> Vec<u64> {
        match &*self.files.borrow() {
            Some(files) => files.values().map(|bytes| bytes.borrow().len() as u64).collect(),
            None => Vec::new(),
        }
    }

    fn len(&self, name: &str) -> u64 {
        self.file(name).borrow().len() as u64
    }

    fn file(&self, name: &str) -> Bytes {
        self.files.borrow().as_ref().unwrap()[name].clone()
    }

    fn put(&self, name: &str, bytes: &[u8]) {
        let bytes = Rc::new(RefCell::new(bytes.to_vec()));
        self.files.borrow_mut().as_mut().unwrap().insert(name.to_string(), bytes);
    }

    fn remove(&self, name: &str) {
        self.files.borrow_mut().as_mut().unwrap().remove(name);
    }

    fn create(&self, name: &str) -> Result<MemFile, IoError> {
        let mut files = self.files.borrow_mut();
        let files = files.as_mut().unwrap();
        if files.contains_key(name) {
            return Err(failure(IoErrorKind::AlreadyExists, "file exists"));
        }
        let bytes: Bytes = Rc::new(RefCell::new(Vec::new()));
        files.insert(name.to_string(), bytes.clone());
        Ok(MemFile(bytes))
    }
}

/// A writer whose commands are performed on a directory in memory.
struct Wal {
    core: WalWriter,
    files: Rc<RefCell<Option<BTreeMap<String, Bytes>>>>,
    file: Option<BufWriter<MemFile>>,
    next: Option<BufWriter<MemFile>>,
    performed: Vec<&'static str>,
    /// The command that fails when it comes next.
    failing: Option<&'static str>,
}

impl Wal {
    fn new(dir: &TmpDir) -> Result<Self, WriteError> {
        Self::start(dir, WalWriter::new(&dir.names()?)?)
    }

    fn with_capacity(dir: &TmpDir, capacity: usize) -> Result<Self, WriteError> {
        Self::start(dir, WalWriter::with_capacity(&dir.names()?, capacity)?)
    }

    fn start(dir: &TmpDir, first: (WalWriter, Command)) -> Result<Self, WriteError> {
        let (core, command) = first;
        let mut wal = Wal {
            core,
            files: dir.files.clone(),
            file: None,
            next: None,
            performed: Vec::new(),
            failing: None,
        };
        wal.drive(&[], Progress::Perform(command))?;
        Ok(wal)
    }

    fn perform(&mut self, command: Command, record: &[u8]) -> Result<(), IoError> {
        let word = match &command {
            Command::Create { .. } => "create",
            Command::SyncDir => "sync dir",
            Command::Write { .. } => "write",
            Command::WriteRecord { .. } => "write record",
            Command::Flush => "flush",
            Command::SyncData => "sync data",
        };
        if self.failing == Some(word) {
            self.failing = None;
            // A failed write may leave a part behind.
            if let Command::WriteRecord { .. } = command {
                self.file.as_mut().unwrap().write_all(&record[..record.len() / 2]).unwrap();
            }
            return Err(failure(IoErrorKind::Other, word));
        }
        match command {
            Command::Create { path, capacity } => {
                self.performed.push("create");
                let dir = TmpDir { files: self.files.clone() };
                self.next = Some(BufWriter::with_capacity(capacity, dir.create(&path)?));
            }
            Command::SyncDir => {
                self.performed.push("sync dir");
                self.file = self.next.take();
            }
            Command::Write { bytes } => {
                self.performed.push("write");
                self.file.as_mut().unwrap().write_all(&bytes).unwrap();
            }
            Command::WriteRecord { .. } => {
                self.performed.push("write record");
                self.file.as_mut().unwrap().write_all(record).unwrap();
            }
            Command::Flush => {
                self.performed.push("flush");
                self.file.as_mut().unwrap().flush().unwrap();
            }
            Command::SyncData => self.performed.push("sync data"),
        }
        Ok(())
    }

    fn drive(&mut self, record: &[u8], progress: Progress) -> Result<u64, WriteError> {
        let mut progress = progress;
        loop {
            progress = match progress {
                Progress::Perform(command) => {
                    let outcome = self.perform(command, record);
                    let unflushed = self.file.as_ref().map_or(0, |file| file.buffer().len());
                    self.core.resume(outcome, unflushed)
                }
                Progress::Appended { offset } => return Ok(offset),
                Progress::Completed => return Ok(0),
                Progress::Failed(error) => return Err(error),
            };
        }
    }

    fn push(&mut self, record: &[u8]) -> Result<u64, WriteError> {
        let progress = self.core.push(record);
        self.drive(record, progress)
    }

    fn flush(&mut self) -> Result<(), WriteError> {
        let progress = self.core.flush();
        self.drive(&[], progress).map(|_| ())
    }

    fn sync(&mut self) -> Result<(), WriteError> {
        let progress = self.core.sync();
        self.drive(&[], progress).map(|_| ())
    }

    fn close(mut self) -> Result<(), WriteError> {
        let progress = self.core.close();
        self.drive(&[], progress).map(|_| ())
    }

    fn path(&self) -> String {
        self.core.path().clone()
    }

    fn unflushed_bytes(&self) -> usize {
        self.core.unflushed_bytes()
    }

    fn unsynced_bytes(&self) -> usize {
        self.core.unsynced_bytes()
    }
}

/// Files in memory, read in portions of at most `portion` bytes.
struct Source {
    dir: TmpDir,
    portion: usize,
    open: Option<Bytes>,
    at: usize,
}

impl Source {
    fn new(dir: &TmpDir, portion: usize) -> Self {
        Source { dir: TmpDir { files: dir.files.clone() }, portion, open: None, at: 0 }
    }

    fn open(&mut self, path: &str) {
        self.open = Some(self.dir.file(path));
        self.at = 0;
    }

    fn read(&mut self, want: usize) -> Vec<u8> {
        let file = self.open.as_ref().unwrap().borrow();
        let end = file.len().min(self.at + want.min(self.portion));
        let chunk = file[self.at..end].to_vec();
        self.at = end;
        chunk
    }
}

/// A reader of files in memory.
struct Reader {
    core: WalReader,
    source: Source,
}

impl Reader {
    fn start(core: WalReader, mut source: Source) -> Self {
        if let Some(path) = core.path() {
            let path = path.clone();
            source.open(&path);
        }
        Reader { core, source }
    }

    fn open(dir: &TmpDir, portion: usize) -> Result<Self, ReadError> {
        let core = WalReader::open(&dir.names()?, &dir.lens())?;
        Ok(Self::start(core, Source::new(dir, portion)))
    }

    fn open_file(dir: &TmpDir, path: &str, portion: usize) -> Self {
        let core = WalReader::open_file(path.to_string(), dir.len(path));
        Self::start(core, Source::new(dir, portion))
    }
}

impl Iterator for Reader {
    type Item = Result<Vec<u8>, ReadError>;

    fn next(&mut self) -> Option<Self::Item> {
        let mut step = self.core.next();
        loop {
            step = match step {
                Step::Read { want } => self.core.received(Ok(self.source.read(want))),
                Step::Open { path } => {
                    self.source.open(&path);
                    self.core.opened(Ok(()))
                }
                Step::Item(item) => return Some(item),
                Step::End => return None,
            };
        }
    }
}

/// A reader of texts from files in memory.
struct Texts {
    core: Strings,
    source: Source,
}

impl Texts {
    fn open(dir: &TmpDir, portion: usize) -> Result<Self, ReadError> {
        let reader = Reader::open(dir, portion)?;
        Ok(Texts { core: reader.core.strings(), source: reader.source })
    }

    fn open_file(dir: &TmpDir, path: &str, portion: usize) -> Self {
        let reader = Reader::open_file(dir, path, portion);
        Texts { core: reader.core.strings(), source: reader.source }
    }
}

impl Iterator for Texts {
    type Item = Result<String, ReadError>;

    fn next(&mut self) -> Option<Self::Item> {
        let mut step = self.core.next();
        loop {
            step = match step {
                Step::Read { want } => self.core.received(Ok(self.source.read(want))),
                Step::Open { path } => {
                    self.source.open(&path);
                    self.core.opened(Ok(()))
                }
                Step::Item(item) => return Some(item),
                Step::End => return None,
            };
        }
    }
}

/// All texts of one file.
fn read_strings(dir: &TmpDir, path: &str) -> Vec<Result<String, ReadError>> {
    Texts::open_file(dir, path, 4096).take(64).collect()
}

/// Writes `records` to a fresh segment and returns its path.
fn segment(dir: &TmpDir, records: &[&[u8]]) -> String {
    let mut wal = Wal::new(dir).unwrap();
    for record in records {
        wal.push(record).unwrap();
    }
    let path = wal.path();
    wal.close().unwrap();
    path
}

/// A segment holding `b"hello"` then `b"world"`: two thirteen-byte frames.
fn two_records(dir: &TmpDir) -> String {
    segment(dir, &[b"hello", b"world"])
}

fn truncate_to(dir: &TmpDir, path: &str, len: u64) {
    dir.file(path).borrow_mut().truncate(len as usize);
}

fn flip_bit(dir: &TmpDir, path: &str, at: u64) {
    dir.file(path).borrow_mut()[at as usize] ^= 0x01;
}

fn append_zeros(dir: &TmpDir, path: &str, n: usize) {
    dir.file(path).borrow_mut().extend_from_slice(&vec![0u8; n]);
}

/// Bounded on purpose. If the reader ever regresses to yielding an error
/// forever, an unbounded `collect()` here would exhaust the machine's memory
/// rather than fail a test. `iteration_ends_after_corruption` is what actually
/// pins the termination guarantee.
fn read_file(dir: &TmpDir, path: &str) -> Vec<Result<Vec<u8>, ReadError>> {
    Reader::open_file(dir, path, 1 << 20).take(64).collect()
}

fn read_dir(dir: &TmpDir) -> Vec<Result<Vec<u8>, ReadError>> {
    Reader::open(dir, 1 << 20).unwrap().take(64).collect()
}

// --- happy path -------------------------------------------------------------

#[test]
fn round_trips_records_in_order() {
    let dir = TmpDir::new();
    let path = segment(&dir, &[b"alpha", b"beta", b"gamma"]);

    let records: Vec<_> = Reader::open_file(&dir, &path, 4096).map(Result::unwrap).collect();

    assert_eq!(records, vec![b"alpha".to_vec(), b"beta".to_vec(), b"gamma".to_vec()]);
}

#[test]
fn push_returns_frame_start_offsets() {
    let dir = TmpDir::new();
    let mut wal = Wal::new(&dir).unwrap();

    assert_eq!(wal.push(b"hello").unwrap(), 0);
    assert_eq!(wal.push(b"world").unwrap(), FRAME);
    assert_eq!(wal.push(b"!").unwrap(), FRAME * 2);
    assert!(wal.path().ends_with("00000001.wal"));

    wal.close().unwrap();
}

#[test]
fn strings_decodes_utf8() {
    let dir = TmpDir::new();
    let path = segment(&dir, &[b"one", b"two"]);

    let records: Vec<String> =
        read_strings(&dir, &path).into_iter().map(Result::unwrap).collect();

    assert_eq!(records, vec!["one", "two"]);
}

#[test]
fn empty_segment_yields_nothing() {
    let dir = TmpDir::new();
    let path = segment(&dir, &[]);

    assert!(read_file(&dir, &path).is_empty());
}

#[test]
fn empty_directory_is_a_valid_empty_log() {
    let dir = TmpDir::new();
    assert!(read_dir(&dir).is_empty());
}

#[test]
fn missing_directory_is_an_error() {
    // The listing fails before a reader or a writer is made; what is seen here is that
    // its failure becomes the error of either.
    let gone = TmpDir::missing();
    assert!(matches!(Wal::new(&gone), Err(WriteError::Io(_))));
    assert!(matches!(Reader::open(&gone, 4096), Err(ReadError::Io(_))));
}

// --- torn writes ------------------------------------------------------------
//
// A crash mid-append can leave the file ending anywhere inside a frame. Each cut
// below lands in a different field, and each is a distinct code path in the
// reader.

#[test]
fn truncation_inside_length_prefix_is_a_truncated_tail() {
    let dir = TmpDir::new();
    let path = two_records(&dir);
    truncate_to(&dir, &path, FRAME + 2);

    let results = read_file(&dir, &path);
    assert_eq!(results[0].as_ref().unwrap(), b"hello");
    assert!(matches!(results[1], Err(ReadError::TruncatedTail { offset: 13, .. })));
}

#[test]
fn truncation_inside_payload_is_a_truncated_tail() {
    let dir = TmpDir::new();
    let path = two_records(&dir);
    truncate_to(&dir, &path, FRAME + 4 + 2);

    let results = read_file(&dir, &path);
    assert_eq!(results[0].as_ref().unwrap(), b"hello");
    assert!(matches!(results[1], Err(ReadError::TruncatedTail { offset: 13, .. })));
}

#[test]
fn truncation_inside_checksum_is_a_truncated_tail() {
    let dir = TmpDir::new();
    let path = two_records(&dir);
    truncate_to(&dir, &path, FRAME + 4 + 5 + 2);

    let results = read_file(&dir, &path);
    assert_eq!(results[0].as_ref().unwrap(), b"hello");
    assert!(matches!(results[1], Err(ReadError::TruncatedTail { offset: 13, .. })));
}

// --- corruption -------------------------------------------------------------

#[test]
fn corrupt_payload_is_a_checksum_mismatch() {
    let dir = TmpDir::new();
    let path = two_records(&dir);
    flip_bit(&dir, &path, FRAME + 4); // first byte of the second record's payload

    let results = read_file(&dir, &path);
    assert_eq!(results[0].as_ref().unwrap(), b"hello");
    assert!(matches!(results[1], Err(ReadError::ChecksumMismatch { offset: 13, .. })));
}

#[test]
fn corrupt_length_prefix_is_caught_by_the_checksum() {
    // The reason the checksum covers the length prefix. Were it payload-only, a
    // flipped length would be undetectable: the reader would consume the wrong
    // number of bytes and desynchronise from every frame after it.
    let dir = TmpDir::new();
    let path = two_records(&dir);
    flip_bit(&dir, &path, FRAME); // low byte of the second record's length

    let results = read_file(&dir, &path);
    assert_eq!(results[0].as_ref().unwrap(), b"hello");
    assert!(matches!(
        results[1],
        Err(ReadError::ChecksumMismatch { offset: 13, .. })
            | Err(ReadError::TruncatedTail { offset: 13, .. })
    ));
}

#[test]
fn iteration_ends_after_corruption() {
    // The error is yielded once and iteration stops. A reader that kept
    // returning the error would be an infinite iterator, and `collect()` on it
    // would allocate until the process died.
    let dir = TmpDir::new();
    let path = two_records(&dir);
    flip_bit(&dir, &path, FRAME + 4);

    let mut reader = Reader::open_file(&dir, &path, 4096);
    assert_eq!(reader.next().unwrap().unwrap(), b"hello");
    assert!(matches!(
        reader.next(),
        Some(Err(ReadError::ChecksumMismatch { offset: 13, .. }))
    ));

    // The length prefix that would say where the next frame begins failed the
    // same checksum, so there is nothing to resync to. The log is over.
    for _ in 0..3 {
        assert!(reader.next().is_none());
    }
}

#[test]
fn zero_filled_tail_is_rejected() {
    // Some filesystems pad a torn write with zeros rather than partial data.
    // crc32 of the empty input is exactly 0x00000000, so under a payload-only
    // checksum this region would have read back as an endless run of valid
    // empty records. Rejecting `len == 0` closes that off independently.
    let dir = TmpDir::new();
    let path = segment(&dir, &[b"hello"]);
    append_zeros(&dir, &path, 64);

    let results = read_file(&dir, &path);
    assert_eq!(results[0].as_ref().unwrap(), b"hello");
    assert!(matches!(results[1], Err(ReadError::InvalidLength { offset: 13, len: 0, .. })));
}

#[test]
fn damage_errors_name_the_torn_file() {
    let dir = TmpDir::new();
    let path = two_records(&dir);
    truncate_to(&dir, &path, FRAME + 2);

    match &read_file(&dir, &path)[1] {
        Err(ReadError::TruncatedTail { path: err_path, offset: 13 }) => {
            assert_eq!(err_path, &path);
        }
        other => panic!("expected TruncatedTail, got {other:?}"),
    }
}

// --- write-side rejections --------------------------------------------------

#[test]
fn empty_records_are_rejected() {
    let dir = TmpDir::new();
    let mut wal = Wal::new(&dir).unwrap();

    assert!(matches!(wal.push(b""), Err(WriteError::EmptyRecord)));

    wal.close().unwrap();
}

#[test]
fn oversized_records_are_rejected() {
    let dir = TmpDir::new();
    let mut wal = Wal::new(&dir).unwrap();

    let too_big = vec![0u8; MAX_RECORD_SIZE + 1];
    assert!(matches!(wal.push(&too_big), Err(WriteError::RecordTooLarge { .. })));

    wal.close().unwrap();
}

// --- visibility -------------------------------------------------------------

#[test]
fn records_are_invisible_until_flushed() {
    let dir = TmpDir::new();
    let mut wal = Wal::new(&dir).unwrap();
    wal.push(b"hello").unwrap();
    let path = wal.path();

    assert_eq!(wal.unflushed_bytes(), FRAME as usize);
    assert_eq!(wal.unsynced_bytes(), 0);
    assert!(read_file(&dir, &path).is_empty(), "unflushed records must not be visible");

    wal.flush().unwrap();
    assert_eq!(wal.unflushed_bytes(), 0);
    assert_eq!(wal.unsynced_bytes(), FRAME as usize);

    let results = read_file(&dir, &path);
    assert_eq!(results.len(), 1);
    assert_eq!(results[0].as_ref().unwrap(), b"hello");

    wal.close().unwrap();
}

#[test]
fn sync_flushes_first_and_clears_both_watermarks() {
    let dir = TmpDir::new();
    let mut wal = Wal::new(&dir).unwrap();
    wal.push(b"hello").unwrap();
    assert_eq!(wal.unflushed_bytes(), FRAME as usize);

    // sync never reports success over data still sitting in userspace.
    wal.sync().unwrap();
    assert_eq!(wal.unflushed_bytes(), 0);
    assert_eq!(wal.unsynced_bytes(), 0);

    let path = wal.path();
    wal.close().unwrap();
    assert_eq!(read_file(&dir, &path).len(), 1);
}

// --- directory identity -----------------------------------------------------

#[test]
fn restart_creates_the_next_segment() {
    let dir = TmpDir::new();
    let mut first = Wal::new(&dir).unwrap();
    first.push(b"one").unwrap();
    assert!(first.path().ends_with("00000001.wal"));
    first.close().unwrap();

    let mut second = Wal::new(&dir).unwrap();
    assert_eq!(second.push(b"two").unwrap(), 0);
    assert!(second.path().ends_with("00000002.wal"));
    second.close().unwrap();

    let records: Vec<_> = read_dir(&dir).into_iter().map(Result::unwrap).collect();
    assert_eq!(records, vec![b"one".to_vec(), b"two".to_vec()]);
}

#[test]
fn reader_concatenates_segments_in_seq_order() {
    let dir = TmpDir::new();
    segment(&dir, &[b"a", b"b"]);
    let mut wal = Wal::new(&dir).unwrap();
    wal.push(b"c").unwrap();
    wal.close().unwrap();

    let records: Vec<_> = read_dir(&dir).into_iter().map(Result::unwrap).collect();
    assert_eq!(records, vec![b"a".to_vec(), b"b".to_vec(), b"c".to_vec()]);
}

#[test]
fn foreign_dirents_are_ignored() {
    let dir = TmpDir::new();
    dir.put(".DS_Store", b"noise");
    dir.put("test.wal", b"nope");
    segment(&dir, &[b"hello"]);

    let records: Vec<_> = read_dir(&dir).into_iter().map(Result::unwrap).collect();
    assert_eq!(records, vec![b"hello".to_vec()]);
}

#[test]
fn planted_high_seq_is_a_missing_first_segment() {
    let dir = TmpDir::new();
    dir.put("00000099.wal", b"");

    assert!(matches!(Wal::new(&dir), Err(WriteError::MissingSegment { seq: 1 })));
    assert!(matches!(Reader::open(&dir, 4096), Err(ReadError::MissingSegment { seq: 1 })));
}

#[test]
fn gap_in_the_middle_is_a_missing_segment() {
    let dir = TmpDir::new();
    segment(&dir, &[b"one"]);
    let mut wal = Wal::new(&dir).unwrap();
    wal.push(b"two").unwrap();
    wal.close().unwrap();
    dir.remove("00000002.wal");
    dir.put("00000003.wal", b"");

    assert!(matches!(Wal::new(&dir), Err(WriteError::MissingSegment { seq: 2 })));
    assert!(matches!(Reader::open(&dir, 4096), Err(ReadError::MissingSegment { seq: 2 })));
}

#[test]
fn torn_non_last_segment_fuses_the_reader() {
    let dir = TmpDir::new();
    let first = segment(&dir, &[b"hello", b"world"]);
    truncate_to(&dir, &first, FRAME + 2);

    let mut wal = Wal::new(&dir).unwrap();
    wal.push(b"orphan").unwrap();
    wal.close().unwrap();

    let results = read_dir(&dir);
    assert_eq!(results[0].as_ref().unwrap(), b"hello");
    assert!(matches!(results[1], Err(ReadError::TruncatedTail { offset: 13, .. })));
    assert_eq!(results.len(), 2, "later segments must stay unreachable");
}

#[test]
fn rotating_push_resets_offset_and_changes_path() {
    let dir = TmpDir::new();
    let mut wal = Wal::new(&dir).unwrap();
    let first = wal.path();
    let payload = vec![b'x'; 1024 * 1024];
    let mut rotated = false;
    for _ in 0..200 {
        wal.performed.clear();
        let offset = wal.push(&payload).unwrap();
        if wal.path() != first {
            assert_eq!(offset, 0);
            assert!(wal.path().ends_with("00000002.wal"));
            rotated = true;
            break;
        }
    }
    assert!(rotated, "writer never rotated");
    assert!(!read_file(&dir, &first).is_empty(), "rotation must flush the sealed file");
    assert_eq!(
        wal.performed,
        vec![
            "flush", "sync data", "create", "sync dir", "write", "write record", "write",
        ]
    );
    wal.close().unwrap();

    let records = read_dir(&dir);
    assert!(records.iter().all(|r| r.as_ref().unwrap() == &payload));
    assert!(records.len() >= 2);
}

// --- portions and cuts ------------------------------------------------------

#[test]
fn portion_size_does_not_matter() {
    let dir = TmpDir::new();
    segment(&dir, &[b"alpha", b"b", b"gamma"]);
    segment(&dir, &[b"delta"]);
    for portion in 1..20 {
        let records: Vec<_> = Reader::open(&dir, portion).unwrap().map(Result::unwrap).collect();
        assert_eq!(
            records,
            vec![b"alpha".to_vec(), b"b".to_vec(), b"gamma".to_vec(), b"delta".to_vec()]
        );
    }
}

#[test]
fn every_cut_leaves_the_whole_frames() {
    // Frames of 9, 10 and 13 bytes.
    let records: [&[u8]; 3] = [b"a", b"bc", b"hello"];
    let ends = [0usize, 9, 19, 32];
    for cut in 0..33usize {
        let dir = TmpDir::new();
        let path = segment(&dir, &records);
        assert_eq!(dir.file(&path).borrow().len(), 32);
        truncate_to(&dir, &path, cut as u64);

        let whole = ends.iter().filter(|end| **end <= cut).count() - 1;
        let results = read_file(&dir, &path);
        for i in 0..whole {
            assert_eq!(results[i].as_ref().unwrap(), records[i]);
        }
        if ends[whole] == cut {
            assert_eq!(results.len(), whole);
        } else {
            assert_eq!(results.len(), whole + 1);
            match &results[whole] {
                Err(ReadError::TruncatedTail { path: torn, offset }) => {
                    assert_eq!(torn, &path);
                    assert_eq!(*offset, ends[whole] as u64);
                }
                other => panic!("expected TruncatedTail, got {other:?}"),
            }
        }
    }
}

#[test]
fn a_few_zeros_are_a_truncated_tail() {
    let dir = TmpDir::new();
    let path = segment(&dir, &[b"hello"]);
    append_zeros(&dir, &path, 3);
    let results = read_file(&dir, &path);
    assert_eq!(results.len(), 2);
    assert!(matches!(results[1], Err(ReadError::TruncatedTail { offset: 13, .. })));
}

#[test]
fn an_empty_last_segment_changes_nothing() {
    let dir = TmpDir::new();
    segment(&dir, &[b"hello"]);
    segment(&dir, &[]);
    let records: Vec<_> = read_dir(&dir).into_iter().map(Result::unwrap).collect();
    assert_eq!(records, vec![b"hello".to_vec()]);
}

#[test]
fn damage_in_any_byte_of_the_first_frame_hides_all_later_segments() {
    for at in 0..FRAME {
        let dir = TmpDir::new();
        let first = segment(&dir, &[b"hello"]);
        segment(&dir, &[b"later"]);
        flip_bit(&dir, &first, at);
        let results = read_dir(&dir);
        assert_eq!(results.len(), 1);
        assert!(results[0].is_err());
    }
}

#[test]
fn text_that_is_not_utf8_is_reported_and_passed_over() {
    let dir = TmpDir::new();
    let path = segment(&dir, &[b"one", &[0x66, 0xff], "zw\u{f6}lf".as_bytes()]);
    let results = read_strings(&dir, &path);
    assert_eq!(results.len(), 3);
    assert_eq!(results[0].as_ref().unwrap(), "one");
    match &results[1] {
        Err(ReadError::InvalidUtf8 { path: named, offset: 11, source }) => {
            assert_eq!(named, &path);
            assert_eq!(source.as_bytes(), &[0x66, 0xff]);
        }
        other => panic!("expected InvalidUtf8, got {other:?}"),
    }
    assert_eq!(results[2].as_ref().unwrap(), "zw\u{f6}lf");
}

#[test]
fn texts_are_the_records_decoded_one_by_one() {
    let dir = TmpDir::new();
    segment(&dir, &[b"one", &[0xc3], b"two"]);
    let torn = segment(&dir, &[&[0xff, 0xfe], b"three", b"four"]);
    let len = dir.len(&torn);
    truncate_to(&dir, &torn, len - 1);
    let records: Vec<_> = Reader::open(&dir, 3).unwrap().take(64).collect();
    for portion in [1, 2, 5, 4096] {
        let mut texts = Texts::open(&dir, portion).unwrap();
        for record in &records {
            match (record, texts.next().unwrap()) {
                (Ok(bytes), Ok(text)) => assert_eq!(bytes, text.as_bytes()),
                (Ok(bytes), Err(ReadError::InvalidUtf8 { source, .. })) => {
                    assert!(String::from_utf8(bytes.clone()).is_err());
                    assert_eq!(bytes, source.as_bytes());
                }
                (
                    Err(ReadError::TruncatedTail { path, offset }),
                    Err(ReadError::TruncatedTail { path: named, offset: at }),
                ) => {
                    assert_eq!(path, &torn);
                    assert_eq!(path, &named);
                    assert_eq!(*offset, at);
                    assert_eq!(at, 10 + 13);
                }
                other => panic!("no pair: {other:?}"),
            }
        }
        assert_eq!(records.len(), 6);
        assert!(texts.next().is_none());
        assert!(texts.next().is_none());
    }
}

#[test]
fn every_altered_bit_of_payload_or_checksum_is_a_mismatch() {
    for at in 4..FRAME {
        for bit in 0..8 {
            let dir = TmpDir::new();
            let path = two_records(&dir);
            dir.file(&path).borrow_mut()[(FRAME + at) as usize] ^= 1 << bit;
            let results = read_file(&dir, &path);
            assert_eq!(results.len(), 2);
            assert_eq!(results[0].as_ref().unwrap(), b"hello");
            match results[1] {
                Err(ReadError::ChecksumMismatch { offset: 13, expected, actual, .. }) => {
                    assert_ne!(expected, actual);
                }
                _ => panic!("the altered bit must be caught"),
            }
        }
    }
}

// --- failing commands and crashes -------------------------------------------

#[test]
fn failed_barriers_lose_nothing() {
    let dir = TmpDir::new();
    let mut wal = Wal::new(&dir).unwrap();
    wal.push(b"hello").unwrap();
    for word in ["flush", "sync data"] {
        wal.failing = Some(word);
        match wal.sync() {
            Err(WriteError::Io(e)) => assert_eq!(e.message, word),
            other => panic!("the failure must be reported, got {other:?}"),
        }
        assert_eq!(wal.unflushed_bytes() + wal.unsynced_bytes(), 13);
    }
    assert_eq!(wal.push(b"world").unwrap(), FRAME);
    wal.sync().unwrap();
    assert_eq!(wal.unflushed_bytes() + wal.unsynced_bytes(), 0);
    wal.close().unwrap();
    let records: Vec<_> = read_dir(&dir).into_iter().map(Result::unwrap).collect();
    assert_eq!(records, vec![b"hello".to_vec(), b"world".to_vec()]);
}

#[test]
fn a_failed_rotation_loses_nothing() {
    for word in ["flush", "sync data", "create", "sync dir"] {
        let dir = TmpDir::new();
        let mut wal = Wal::new(&dir).unwrap();
        let large = vec![b'x'; MAX_RECORD_SIZE];
        wal.push(b"hello").unwrap();
        wal.push(&large).unwrap();
        let before = wal.path();
        wal.failing = Some(word);
        assert!(matches!(wal.push(&large), Err(WriteError::Io(_))));
        assert_eq!(wal.path(), before);
        // There is room for a small record, and it goes where the others are.
        assert_eq!(wal.push(b"world").unwrap(), FRAME + OVERHEAD + MAX_RECORD_SIZE as u64);
        wal.close().unwrap();
        let records: Vec<_> = read_dir(&dir).into_iter().map(Result::unwrap).collect();
        assert_eq!(records.len(), 3);
        assert_eq!(records[0], b"hello");
        assert!(records[1] == large);
        assert_eq!(records[2], b"world");
    }
}

#[test]
fn a_failed_write_is_a_torn_tail() {
    for (word, left) in [("write", 0), ("write record", 4 + 2)] {
        let dir = TmpDir::new();
        let mut wal = Wal::new(&dir).unwrap();
        wal.push(b"hello").unwrap();
        wal.failing = Some(word);
        assert!(matches!(wal.push(b"world"), Err(WriteError::Io(_))));
        wal.flush().unwrap();
        let path = wal.path();
        assert_eq!(dir.len(&path), FRAME + left);
        let results = read_file(&dir, &path);
        assert_eq!(results[0].as_ref().unwrap(), b"hello");
        if left == 0 {
            assert_eq!(results.len(), 1);
        } else {
            assert_eq!(results.len(), 2);
            assert!(matches!(results[1], Err(ReadError::TruncatedTail { offset: 13, .. })));
        }
    }
}

#[test]
fn synced_records_survive_whatever_stands_behind_them() {
    let garbage: [&[u8]; 5] =
        [b"", &[0; 40], &[0xff; 40], &[5, 0, 0, 0, 1, 2], &[1, 0, 0, 0, 9, 9, 9, 9, 9, 9]];
    for behind in garbage {
        let dir = TmpDir::new();
        segment(&dir, &[b"first"]);
        let mut wal = Wal::new(&dir).unwrap();
        wal.push(b"hello").unwrap();
        wal.push(b"world").unwrap();
        wal.sync().unwrap();
        wal.push(b"not synced").unwrap();
        wal.flush().unwrap();
        let path = wal.path();
        // The crash leaves anything where the last frame was.
        truncate_to(&dir, &path, 2 * FRAME);
        dir.file(&path).borrow_mut().extend_from_slice(behind);
        let results = read_dir(&dir);
        for (i, record) in [b"first", b"hello", b"world"].iter().enumerate() {
            assert_eq!(results[i].as_ref().unwrap(), record);
        }
        assert_eq!(results.len(), if behind.is_empty() { 3 } else { 4 });
        wal.close().unwrap();
    }
}

// --- as of open -------------------------------------------------------------

#[test]
fn records_flushed_after_open_are_not_yielded() {
    let dir = TmpDir::new();
    let mut wal = Wal::new(&dir).unwrap();
    wal.push(b"hello").unwrap();
    wal.flush().unwrap();

    let mut early = Reader::open(&dir, 4096).unwrap();
    let mut early_texts = Texts::open(&dir, 4096).unwrap();
    let mut single = Reader::open_file(&dir, "00000001.wal", 4096);
    wal.push(b"world").unwrap();
    wal.flush().unwrap();

    assert_eq!(early.next().unwrap().unwrap(), b"hello");
    assert_eq!(early_texts.next().unwrap().unwrap(), "hello");
    assert_eq!(single.next().unwrap().unwrap(), b"hello");
    for _ in 0..3 {
        assert!(early.next().is_none());
        assert!(early_texts.next().is_none());
        assert!(single.next().is_none());
    }
    assert_eq!(read_dir(&dir).len(), 2);
    wal.close().unwrap();
}

#[test]
fn the_end_is_final_though_the_file_grows() {
    let dir = TmpDir::new();
    let path = segment(&dir, &[b"hello"]);
    let frame = dir.file(&path).borrow().clone();

    let mut reader = Reader::open(&dir, 4096).unwrap();
    let mut texts = Texts::open(&dir, 4096).unwrap();
    assert!(reader.next().unwrap().is_ok());
    assert!(texts.next().unwrap().is_ok());
    assert!(reader.next().is_none());
    assert!(texts.next().is_none());
    dir.file(&path).borrow_mut().extend_from_slice(&frame);
    for _ in 0..3 {
        assert!(reader.next().is_none());
        assert!(texts.next().is_none());
    }
}

#[test]
fn a_tail_torn_as_of_open_stays_torn_for_that_reader() {
    let dir = TmpDir::new();
    let path = two_records(&dir);
    let whole = dir.file(&path).borrow().clone();
    truncate_to(&dir, &path, FRAME + 6);

    let mut reader = Reader::open(&dir, 4096).unwrap();
    dir.file(&path).borrow_mut().extend_from_slice(&whole[FRAME as usize + 6..]);
    assert_eq!(reader.next().unwrap().unwrap(), b"hello");
    assert!(matches!(
        reader.next(),
        Some(Err(ReadError::TruncatedTail { offset: 13, .. }))
    ));
    assert!(reader.next().is_none());
    assert_eq!(read_dir(&dir).into_iter().map(Result::unwrap).count(), 2);
}

#[test]
fn segments_made_after_open_are_not_read() {
    let dir = TmpDir::new();
    segment(&dir, &[b"one"]);
    let reader = Reader::open(&dir, 4096).unwrap();
    segment(&dir, &[b"two"]);
    assert_eq!(reader.map(Result::unwrap).collect::<Vec<_>>(), vec![b"one".to_vec()]);
    assert_eq!(read_dir(&dir).len(), 2);
}

// --- the buffer and its watermarks ------------------------------------------

#[test]
fn a_small_buffer_empties_on_its_own_and_the_watermarks_follow() {
    let dir = TmpDir::new();
    let mut wal = Wal::with_capacity(&dir, 16).unwrap();
    wal.push(b"hello").unwrap();
    assert_eq!(wal.unflushed_bytes() + wal.unsynced_bytes(), 13);
    wal.push(b"a record that is longer than the buffer").unwrap();
    assert_eq!(wal.unflushed_bytes() + wal.unsynced_bytes(), 13 + 8 + 39);
    assert!(wal.unflushed_bytes() <= 16);
    wal.sync().unwrap();
    assert_eq!(wal.unflushed_bytes(), 0);
    assert_eq!(wal.unsynced_bytes(), 0);
    wal.push(b"x").unwrap();
    assert_eq!(wal.unflushed_bytes() + wal.unsynced_bytes(), 9);
    wal.close().unwrap();
}

#[test]
fn buffers_of_any_size_leave_the_same_files() {
    let long = vec![b'x'; 300];
    let mut logs = Vec::new();
    for capacity in [0, 1, 7, 16, 255, 8192] {
        let dir = TmpDir::new();
        let mut wal = Wal::with_capacity(&dir, capacity).unwrap();
        wal.push(b"hello").unwrap();
        wal.push(&long).unwrap();
        wal.sync().unwrap();
        assert!(wal.push(b"").is_err());
        wal.push(b"x").unwrap();
        wal.close().unwrap();
        let mut wal = Wal::with_capacity(&dir, capacity).unwrap();
        wal.push(b"again").unwrap();
        wal.close().unwrap();
        assert_eq!(dir.lens(), vec![13 + 308 + 9, 13]);
        let contents: Vec<Vec<u8>> = ["00000001.wal", "00000002.wal"]
            .iter()
            .map(|name| dir.file(name).borrow().clone())
            .collect();
        logs.push(contents);
    }
    assert!(logs.iter().all(|log| log == &logs[0]));
}

#[test]
fn a_push_with_room_only_writes() {
    let dir = TmpDir::new();
    let mut wal = Wal::new(&dir).unwrap();
    assert_eq!(wal.performed, vec!["create", "sync dir"]);
    wal.performed.clear();
    wal.push(b"hello").unwrap();
    assert_eq!(wal.performed, vec!["write", "write record", "write"]);
    wal.performed.clear();
    assert!(wal.push(b"").is_err());
    assert!(wal.performed.is_empty());
    wal.sync().unwrap();
    assert_eq!(wal.performed, vec!["flush", "sync data"]);
    wal.close().unwrap();
}

#[test]
fn the_offset_of_a_push_is_where_its_frame_begins() {
    let dir = TmpDir::new();
    let mut wal = Wal::new(&dir).unwrap();
    wal.push(b"hello").unwrap();
    let offset = wal.push(b"world").unwrap() as usize;
    wal.flush().unwrap();
    let bytes = dir.file(&wal.path()).borrow()[offset..].to_vec();
    assert_eq!(&bytes[..4], &[5, 0, 0, 0]);
    assert_eq!(&bytes[4..9], b"world");
    let mut covered = vec![5, 0, 0, 0];
    covered.extend_from_slice(b"world");
    assert_eq!(&bytes[9..], &crc32fast::hash(&covered).to_le_bytes());
    wal.close().unwrap();
}

#[test]
fn two_writers_do_not_share_a_segment() {
    let dir = TmpDir::new();
    let names = dir.names().unwrap();
    let first = WalWriter::new(&names).unwrap();
    let second = WalWriter::new(&names).unwrap();
    let winner = Wal::start(&dir, first);
    assert!(winner.is_ok());
    match Wal::start(&dir, second) {
        Err(WriteError::AlreadyExists { path }) => assert_eq!(path, "00000001.wal"),
        _ => panic!("the second writer must be refused"),
    }
}
