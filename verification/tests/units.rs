//! The pieces one by one, on exact values.

use wal_writer::crc::POLYNOMIAL;
use wal_writer::error::{IoError, IoErrorKind, ReadError, WriteError};
use wal_writer::format::{checksum, from_le_bytes, to_le_bytes};
use wal_writer::reader::{conclude_frame, conclude_text, read_full, Filling, Step, WalReader};
use wal_writer::segment::{
    last_seq, parse_segment_name, segment_name, ScanError, MAX_SEGMENT_SEQ,
};
use wal_writer::writer::{create_segment, Command, Progress, WalWriter, MAX_SEGMENT_SIZE};
use wal_writer::MAX_RECORD_SIZE;

fn failure(kind: IoErrorKind) -> IoError {
    IoError { kind, message: "broken".to_string() }
}

fn names(list: &[&str]) -> Vec<Option<String>> {
    list.iter().map(|name| Some(name.to_string())).collect()
}

/// A writer with segment 1 created.
fn writer() -> WalWriter {
    let (mut wal, command) = WalWriter::new(&Vec::new()).unwrap();
    match command {
        Command::Create { path, capacity } => {
            assert_eq!(path, "00000001.wal");
            assert_eq!(capacity, 8192);
        }
        _ => panic!("the first command creates the segment"),
    }
    assert!(matches!(wal.resume(Ok(()), 0), Progress::Perform(Command::SyncDir)));
    assert!(matches!(wal.resume(Ok(()), 0), Progress::Completed));
    wal
}

// --- format -----------------------------------------------------------------

#[test]
fn checksum_is_crc32_ieee_of_prefix_and_payload() {
    assert_eq!(checksum(b"1234", b"56789"), 0xcbf4_3926);
    assert_eq!(checksum(b"", b"123456789"), 0xcbf4_3926);
    assert_eq!(checksum(b"", b""), 0);
    assert_eq!(checksum(&[5, 0, 0, 0], b"hello"), crc32fast::hash(b"\x05\0\0\0hello"));
}

/// CRC-32 (IEEE) bit by bit.
fn crc_bit_by_bit(bytes: &[u8]) -> u32 {
    let mut state = !0u32;
    for byte in bytes {
        state ^= *byte as u32;
        for _ in 0..8 {
            state = if state & 1 == 1 { (state >> 1) ^ POLYNOMIAL } else { state >> 1 };
        }
    }
    !state
}

/// Bytes without a pattern.
fn noise(len: usize) -> Vec<u8> {
    let mut state = 0x9e37_79b9u32;
    (0..len)
        .map(|_| {
            state ^= state << 13;
            state ^= state >> 17;
            state ^= state << 5;
            (state >> 11) as u8
        })
        .collect()
}

#[test]
fn checksum_is_the_remainder_bit_by_bit() {
    let bytes = noise(2000);
    for len in (0..700).chain([1023, 1024, 1025, 2000]) {
        let expected = crc_bit_by_bit(&bytes[..len]);
        for cut in [0, 1, 4, 15, 16, 17, 64, 129, len] {
            let cut = cut.min(len);
            assert_eq!(checksum(&bytes[..cut], &bytes[cut..len]), expected);
        }
    }
    for byte in 0..=255u8 {
        assert_eq!(checksum(&[], &[byte]), crc_bit_by_bit(&[byte]));
    }
}

#[test]
fn one_altered_byte_alters_the_checksum() {
    let bytes = noise(200);
    let whole = checksum(&[], &bytes);
    for at in 0..bytes.len() {
        for bit in 0..8 {
            let mut altered = bytes.clone();
            altered[at] ^= 1 << bit;
            assert_ne!(checksum(&[], &altered), whole);
        }
    }
}

#[test]
fn little_endian_numbers() {
    assert_eq!(to_le_bytes(0x0403_0201), [1, 2, 3, 4]);
    assert_eq!(from_le_bytes(&[1, 2, 3, 4]), 0x0403_0201);
    assert_eq!(to_le_bytes(u32::MAX), [255; 4]);
    assert_eq!(from_le_bytes(&[255; 4]), u32::MAX);
    assert_eq!(from_le_bytes(&to_le_bytes(1_234_567_890)), 1_234_567_890);
}

// --- names ------------------------------------------------------------------

#[test]
fn segment_names_are_eight_digits() {
    assert_eq!(segment_name(0), "00000000.wal");
    assert_eq!(segment_name(1), "00000001.wal");
    assert_eq!(segment_name(12_345_678), "12345678.wal");
    assert_eq!(segment_name(MAX_SEGMENT_SEQ), "99999999.wal");
    assert_eq!(segment_name(100_000_000), "100000000.wal");
    assert_eq!(segment_name(u64::MAX), "18446744073709551615.wal");
}

#[test]
fn segment_names_carry_their_numbers() {
    for seq in [0, 1, 9, 10, 42, 99_999, 12_345_678, MAX_SEGMENT_SEQ] {
        assert_eq!(parse_segment_name(&segment_name(seq)), Some(seq));
    }
    assert_eq!(parse_segment_name(&segment_name(MAX_SEGMENT_SEQ + 1)), None);
}

#[test]
fn other_names_carry_none() {
    for name in [
        "", ".wal", "test.wal", "1.wal", "0000001.wal", "000000001.wal", "00000001.WAL",
        "00000001.log", "00000001.wal.wal", "0000000a.wal", "+0000001.wal", "-0000001.wal",
        "00000001", "00000001.wa", " 0000001.wal", "0000001\u{661}.wal", "\u{661}000001.wal",
        "00000001.w\u{e4}l",
    ] {
        assert_eq!(parse_segment_name(name), None, "{name:?}");
    }
}

#[test]
fn a_directory_is_scanned_in_numeric_order() {
    assert_eq!(last_seq(&names(&[])), Ok(0));
    assert_eq!(last_seq(&names(&["notes.txt", "test.wal"])), Ok(0));
    assert_eq!(
        last_seq(&names(&["00000003.wal", "00000001.wal", "x", "00000002.wal"])),
        Ok(3)
    );
    // The same name twice counts once.
    assert_eq!(last_seq(&names(&["00000001.wal", "00000002.wal", "00000001.wal"])), Ok(2));
    // A name that is not Unicode is passed over.
    let mut odd = names(&["00000001.wal"]);
    odd.push(None);
    assert_eq!(last_seq(&odd), Ok(1));
}

#[test]
fn a_hole_is_the_first_number_missing() {
    let missing = |seq| Err(ScanError::Missing { seq });
    assert_eq!(last_seq(&names(&["00000002.wal"])), missing(1));
    assert_eq!(last_seq(&names(&["00000004.wal", "00000001.wal", "00000002.wal"])), missing(3));
    assert_eq!(last_seq(&names(&["00000005.wal", "00000001.wal", "00000003.wal"])), missing(2));
    // Segment 0 does not exist in a log, and comes before segment 1.
    assert_eq!(last_seq(&names(&["00000000.wal"])), missing(1));
    assert_eq!(last_seq(&names(&["00000001.wal", "00000000.wal"])), missing(1));
}

// --- error texts ------------------------------------------------------------

#[test]
fn write_errors_in_words() {
    assert_eq!(WriteError::Io(failure(IoErrorKind::Other)).message(), "wal write: broken");
    assert_eq!(
        WriteError::AlreadyExists { path: "00000001.wal".to_string() }.message(),
        "wal segment already exists: 00000001.wal"
    );
    assert_eq!(
        WriteError::MissingSegment { seq: 17 }.message(),
        "wal write: segment 17 is missing"
    );
    assert_eq!(WriteError::EmptyRecord.message(), "wal write: empty records are not allowed");
    assert_eq!(
        WriteError::RecordTooLarge { len: 67_108_865 }.message(),
        "wal write: record of 67108865 bytes exceeds the 67108864 byte maximum"
    );
}

#[test]
fn read_errors_in_words() {
    let path = "00000001.wal".to_string();
    assert_eq!(ReadError::Io(failure(IoErrorKind::Other)).message(), "wal read: broken");
    assert_eq!(
        ReadError::MissingSegment { seq: 2 }.message(),
        "wal read: segment 2 is missing"
    );
    assert_eq!(
        ReadError::ChecksumMismatch {
            path: path.clone(),
            offset: 13,
            expected: 0xbeef,
            actual: 0xdead_0001,
        }
        .message(),
        "wal read: checksum mismatch at offset 13 (stored 0x0000beef, computed 0xdead0001)"
    );
    assert_eq!(
        ReadError::TruncatedTail { path: path.clone(), offset: 0 }.message(),
        "wal read: truncated frame at offset 0"
    );
    assert_eq!(
        ReadError::InvalidLength { path: path.clone(), offset: 26, len: u32::MAX }.message(),
        "wal read: invalid record length 4294967295 at offset 26"
    );
    let source = String::from_utf8(vec![0x66, 0xff]).unwrap_err();
    let words = source.to_string();
    assert_eq!(
        ReadError::InvalidUtf8 { path, offset: 7, source }.message(),
        format!("wal read: record at offset 7 is not utf-8: {words}")
    );
}

#[test]
fn failures_become_errors() {
    assert!(matches!(WriteError::from(failure(IoErrorKind::Other)), WriteError::Io(_)));
    assert!(matches!(ReadError::from(failure(IoErrorKind::Other)), ReadError::Io(_)));
}

// --- reading ----------------------------------------------------------------

#[test]
fn a_buffer_fills_up_or_stops_short_at_the_end() {
    let mut buf = vec![1];
    assert!(matches!(read_full(&mut buf, 4, Ok(vec![2])), Filling::Again));
    assert!(matches!(
        read_full(&mut buf, 4, Err(failure(IoErrorKind::Interrupted))),
        Filling::Again
    ));
    assert_eq!(buf, vec![1, 2]);
    assert!(matches!(read_full(&mut buf, 4, Ok(vec![3, 4])), Filling::Done { read: 4 }));
    assert_eq!(buf, vec![1, 2, 3, 4]);

    let mut short = vec![9];
    assert!(matches!(read_full(&mut short, 4, Ok(vec![])), Filling::Done { read: 1 }));
    match read_full(&mut short, 4, Err(failure(IoErrorKind::Other))) {
        Filling::Failed(e) => assert_eq!(e.message, "broken"),
        _ => panic!("a failed read must be reported"),
    }
}

#[test]
fn a_frame_is_concluded_by_its_checksum() {
    let path = "a".to_string();
    assert_eq!(conclude_frame(&path, 3, vec![1, 2], 7, 7).unwrap(), vec![1, 2]);
    match conclude_frame(&path, 3, vec![1, 2], 7, 8) {
        Err(ReadError::ChecksumMismatch { path, offset: 3, expected: 7, actual: 8 }) => {
            assert_eq!(path, "a");
        }
        other => panic!("expected ChecksumMismatch, got {other:?}"),
    }
}

#[test]
fn a_text_is_concluded_by_its_decoding() {
    let path = "a".to_string();
    assert_eq!(conclude_text(&path, 3, Ok("x".to_string())).unwrap(), "x");
    let bad = String::from_utf8(vec![0x80]);
    assert!(matches!(
        conclude_text(&path, 3, bad),
        Err(ReadError::InvalidUtf8 { offset: 3, .. })
    ));
}

#[test]
fn a_reader_asks_for_one_field_after_the_other() {
    let mut reader = WalReader::open_file("x".to_string(), 13);
    assert!(matches!(reader.next(), Step::Read { want: 4 }));
    assert!(matches!(reader.received(Ok(vec![5])), Step::Read { want: 3 }));
    let interrupted = Err(failure(IoErrorKind::Interrupted));
    assert!(matches!(reader.received(interrupted), Step::Read { want: 3 }));
    assert!(matches!(reader.received(Ok(vec![0, 0, 0])), Step::Read { want: 5 }));
    assert!(matches!(reader.received(Ok(b"hel".to_vec())), Step::Read { want: 2 }));
    assert!(matches!(reader.received(Ok(b"lo".to_vec())), Step::Read { want: 4 }));
    let crc = crc32fast::hash(b"\x05\0\0\0hello").to_le_bytes();
    assert!(matches!(reader.received(Ok(crc[..1].to_vec())), Step::Read { want: 3 }));
    match reader.received(Ok(crc[1..].to_vec())) {
        Step::Item(Ok(record)) => assert_eq!(record, b"hello"),
        _ => panic!("the frame is whole"),
    }
    // The file was that long, and the end is final.
    for _ in 0..3 {
        assert!(matches!(reader.next(), Step::End));
    }
}

#[test]
fn a_reader_asks_for_no_more_than_the_file_had() {
    // Two bytes behind the frame: less than a length prefix.
    let mut reader = WalReader::open_file("x".to_string(), 15);
    reader.next();
    reader.received(Ok(vec![5, 0, 0, 0]));
    reader.received(Ok(b"hello".to_vec()));
    let crc = crc32fast::hash(b"\x05\0\0\0hello").to_le_bytes();
    assert!(matches!(reader.received(Ok(crc.to_vec())), Step::Item(Ok(_))));
    assert!(matches!(reader.next(), Step::Read { want: 2 }));
    match reader.received(Ok(vec![5, 0])) {
        Step::Item(Err(ReadError::TruncatedTail { path, offset: 13 })) => assert_eq!(path, "x"),
        _ => panic!("the file had no more"),
    }
    assert!(matches!(reader.next(), Step::End));

    // A payload and a checksum of which the file had a part only.
    let mut reader = WalReader::open_file("x".to_string(), 7);
    reader.next();
    assert!(matches!(reader.received(Ok(vec![5, 0, 0, 0])), Step::Read { want: 3 }));
    let mut reader = WalReader::open_file("x".to_string(), 10);
    reader.next();
    reader.received(Ok(vec![5, 0, 0, 0]));
    assert!(matches!(reader.received(Ok(b"hello".to_vec())), Step::Read { want: 1 }));
    // A file cut right behind its payload.
    let mut reader = WalReader::open_file("x".to_string(), 9);
    reader.next();
    reader.received(Ok(vec![5, 0, 0, 0]));
    assert!(matches!(
        reader.received(Ok(b"hello".to_vec())),
        Step::Item(Err(ReadError::TruncatedTail { offset: 0, .. }))
    ));
    // An empty file.
    let mut reader = WalReader::open_file("x".to_string(), 0);
    assert!(matches!(reader.next(), Step::End));
    assert!(matches!(reader.next(), Step::End));
}

#[test]
fn a_file_that_lost_bytes_since_open_ends_where_it_ends() {
    let mut reader = WalReader::open_file("x".to_string(), 100);
    reader.next();
    assert!(matches!(reader.received(Ok(vec![])), Step::End));
    assert!(matches!(reader.next(), Step::End));
    let mut reader = WalReader::open_file("x".to_string(), 100);
    reader.next();
    reader.received(Ok(vec![5]));
    assert!(matches!(
        reader.received(Ok(vec![])),
        Step::Item(Err(ReadError::TruncatedTail { offset: 0, .. }))
    ));
    assert!(matches!(reader.next(), Step::End));
}

#[test]
fn segments_are_paired_with_their_own_lengths() {
    let listing = names(&["00000003.wal", "notes.txt", "00000001.wal", "00000002.wal"]);
    let mut reader = WalReader::open(&listing, &vec![2, 77, 3, 0]).unwrap();
    assert_eq!(reader.path().unwrap(), "00000001.wal");
    assert!(matches!(reader.next(), Step::Read { want: 3 }));
    match reader.received(Ok(vec![])) {
        Step::Open { path } => assert_eq!(path, "00000002.wal"),
        _ => panic!("the second segment comes next"),
    }
    // It has no bytes, so the third follows at once.
    match reader.opened(Ok(())) {
        Step::Open { path } => assert_eq!(path, "00000003.wal"),
        _ => panic!("the third segment comes next"),
    }
    assert!(matches!(reader.opened(Ok(())), Step::Read { want: 2 }));
    match reader.received(Ok(vec![1, 2])) {
        Step::Item(Err(ReadError::TruncatedTail { path, offset: 0 })) => {
            assert_eq!(path, "00000003.wal");
        }
        _ => panic!("two bytes are no frame"),
    }
}

#[test]
fn a_length_is_checked_before_anything_is_read_for_it() {
    for (bytes, value) in [
        ([0u8, 0, 0, 0], 0u32),
        ([1, 0, 0, 4], 67_108_865),
        ([255, 255, 255, 255], u32::MAX),
    ] {
        let mut reader = WalReader::open_file("x".to_string(), 1 << 40);
        assert!(matches!(reader.next(), Step::Read { want: 4 }));
        match reader.received(Ok(bytes.to_vec())) {
            Step::Item(Err(ReadError::InvalidLength { path, offset: 0, len })) => {
                assert_eq!(path, "x");
                assert_eq!(len, value);
            }
            _ => panic!("no writer produces this length"),
        }
        assert!(matches!(reader.next(), Step::End));
    }
    let mut reader = WalReader::open_file("x".to_string(), u64::MAX);
    assert!(matches!(reader.next(), Step::Read { want: 4 }));
    assert!(matches!(
        reader.received(Ok(vec![0, 0, 0, 4])),
        Step::Read { want: MAX_RECORD_SIZE }
    ));
}

#[test]
fn a_failing_read_or_open_ends_the_iteration() {
    let mut reader = WalReader::open_file("x".to_string(), 13);
    assert!(matches!(reader.next(), Step::Read { .. }));
    assert!(matches!(
        reader.received(Err(failure(IoErrorKind::Other))),
        Step::Item(Err(ReadError::Io(_)))
    ));
    assert!(matches!(reader.next(), Step::End));

    let listing = names(&["00000002.wal", "00000001.wal"]);
    let mut reader = WalReader::open(&listing, &vec![13, 0]).unwrap();
    assert_eq!(reader.path().unwrap(), "00000001.wal");
    match reader.next() {
        Step::Open { path } => assert_eq!(path, "00000002.wal"),
        _ => panic!("there is a second segment"),
    }
    assert!(matches!(
        reader.opened(Err(failure(IoErrorKind::Interrupted))),
        Step::Item(Err(ReadError::Io(_)))
    ));
    assert!(matches!(reader.next(), Step::End));
}

#[test]
fn a_log_without_segments_is_over_at_once() {
    let mut reader = WalReader::open(&Vec::new(), &Vec::new()).unwrap();
    assert!(reader.path().is_none());
    assert!(matches!(reader.next(), Step::End));
    assert!(matches!(reader.next(), Step::End));
    let mut texts = reader.strings();
    assert!(matches!(texts.next(), Step::End));
}

// --- writing ----------------------------------------------------------------

#[test]
fn a_frame_takes_three_writes_with_the_given_checksum() {
    let mut wal = writer();
    match wal.push_with_checksum(b"abc", 0x0102_0304) {
        Progress::Perform(Command::Write { bytes }) => assert_eq!(bytes, [3, 0, 0, 0]),
        _ => panic!("the length comes first"),
    }
    assert!(matches!(
        wal.resume(Ok(()), 4),
        Progress::Perform(Command::WriteRecord { .. })
    ));
    match wal.resume(Ok(()), 7) {
        Progress::Perform(Command::Write { bytes }) => assert_eq!(bytes, [4, 3, 2, 1]),
        _ => panic!("the checksum comes last"),
    }
    assert!(matches!(wal.resume(Ok(()), 11), Progress::Appended { offset: 0 }));
    assert_eq!(wal.offset(), 11);
    assert_eq!(wal.unflushed_bytes(), 11);
    assert_eq!(wal.unsynced_bytes(), 0);
    assert!(wal.leaves_unflushed());
}

#[test]
fn buffers_of_any_size_get_the_same_commands() {
    let mut small = WalWriter::with_capacity(&Vec::new(), 0).unwrap().0;
    let mut large = writer();
    small.resume(Ok(()), 0);
    small.resume(Ok(()), 0);
    let words = |progress| match progress {
        Progress::Perform(Command::Write { bytes }) => format!("write {bytes:?}"),
        Progress::Perform(Command::WriteRecord { .. }) => "write record".to_string(),
        Progress::Perform(Command::Flush) => "flush".to_string(),
        Progress::Perform(Command::SyncData) => "sync".to_string(),
        Progress::Perform(_) => "other".to_string(),
        Progress::Appended { offset } => format!("appended at {offset}"),
        Progress::Completed => "completed".to_string(),
        Progress::Failed(e) => e.message(),
    };
    assert_eq!(words(small.push(b"abc")), words(large.push(b"abc")));
    for held in [4, 7, 11] {
        assert_eq!(words(small.resume(Ok(()), 0)), words(large.resume(Ok(()), held)));
    }
    assert_eq!(words(small.sync()), words(large.sync()));
    for _ in 0..2 {
        assert_eq!(words(small.resume(Ok(()), 0)), words(large.resume(Ok(()), 0)));
    }
    assert_eq!(words(small.push(b"")), words(large.push(b"")));
    assert_eq!(small.offset(), large.offset());
}

#[test]
fn a_failed_write_leaves_the_offset_where_it_was() {
    let mut wal = writer();
    assert!(matches!(wal.push(b"abc"), Progress::Perform(Command::Write { .. })));
    match wal.resume(Err(failure(IoErrorKind::Other)), 0) {
        Progress::Failed(WriteError::Io(e)) => {
            assert_eq!(e.kind, IoErrorKind::Other);
            assert_eq!(e.message, "broken");
        }
        _ => panic!("the failure must be reported"),
    }
    assert_eq!(wal.offset(), 0);
    assert_eq!(wal.path(), "00000001.wal");
}

#[test]
fn a_writer_without_a_segment_is_closed() {
    // Not created: the name is taken, or anything else.
    for kind in [IoErrorKind::AlreadyExists, IoErrorKind::Other] {
        let mut wal = WalWriter::new(&Vec::new()).unwrap().0;
        assert!(matches!(wal.resume(Err(failure(kind)), 1), Progress::Failed(_)));
        assert!(!wal.leaves_unflushed());
    }
    // Created, and its name not made durable.
    let mut wal = WalWriter::new(&Vec::new()).unwrap().0;
    wal.resume(Ok(()), 0);
    match wal.resume(Err(failure(IoErrorKind::AlreadyExists)), 1) {
        Progress::Failed(WriteError::Io(e)) => assert_eq!(e.kind, IoErrorKind::AlreadyExists),
        _ => panic!("the failure must be reported as it is"),
    }
    assert!(!wal.leaves_unflushed());
    // Any later failure leaves a writer open.
    let mut wal = writer();
    wal.flush();
    wal.resume(Err(failure(IoErrorKind::Other)), 1);
    assert!(wal.leaves_unflushed());
}

#[test]
fn a_failed_sync_clears_nothing() {
    let mut wal = writer();
    wal.push(b"abc");
    wal.resume(Ok(()), 4);
    wal.resume(Ok(()), 7);
    wal.resume(Ok(()), 11);
    assert!(matches!(wal.close(), Progress::Perform(Command::Flush)));
    assert!(matches!(wal.resume(Ok(()), 0), Progress::Perform(Command::SyncData)));
    assert!(matches!(
        wal.resume(Err(failure(IoErrorKind::Other)), 0),
        Progress::Failed(WriteError::Io(_))
    ));
    assert_eq!(wal.unsynced_bytes(), 11);
    assert!(!wal.leaves_unflushed());
    assert!(matches!(wal.close(), Progress::Perform(Command::Flush)));
    wal.resume(Ok(()), 0);
    assert!(matches!(wal.resume(Ok(()), 0), Progress::Completed));
    assert_eq!(wal.unsynced_bytes(), 0);
}

#[test]
fn a_full_segment_is_sealed_before_the_next_is_created() {
    let mut wal = writer();
    let record = vec![7u8; MAX_RECORD_SIZE];
    let size = MAX_RECORD_SIZE as u64 + 8;
    assert!(2 * size > MAX_SEGMENT_SIZE);
    wal.push_with_checksum(&record, 0);
    for _ in 0..2 {
        wal.resume(Ok(()), 0);
    }
    assert!(matches!(wal.resume(Ok(()), 0), Progress::Appended { offset: 0 }));
    assert_eq!(wal.offset(), size);

    assert!(matches!(wal.push_with_checksum(&record, 0), Progress::Perform(Command::Flush)));
    assert!(matches!(wal.resume(Ok(()), 0), Progress::Perform(Command::SyncData)));
    match wal.resume(Ok(()), 0) {
        Progress::Perform(Command::Create { path, capacity: 8192 }) => {
            assert_eq!(path, "00000002.wal");
        }
        _ => panic!("the next segment is created once the live one is sealed"),
    }
    // A name that is taken is refused, and the writer stays where it was.
    match wal.resume(Err(failure(IoErrorKind::AlreadyExists)), 0) {
        Progress::Failed(WriteError::AlreadyExists { path }) => assert_eq!(path, "00000002.wal"),
        _ => panic!("an existing segment is never resumed"),
    }
    assert_eq!(wal.path(), "00000001.wal");
    assert_eq!(wal.offset(), size);

    wal.push_with_checksum(&record, 0);
    wal.resume(Ok(()), 0);
    wal.resume(Ok(()), 0);
    assert!(matches!(wal.resume(Ok(()), 0), Progress::Perform(Command::SyncDir)));
    assert!(matches!(wal.resume(Ok(()), 0), Progress::Perform(Command::Write { .. })));
    assert_eq!(wal.path(), "00000002.wal");
    wal.resume(Ok(()), 0);
    wal.resume(Ok(()), 0);
    assert!(matches!(wal.resume(Ok(()), 0), Progress::Appended { offset: 0 }));
}

#[test]
fn a_segment_is_filled_to_the_last_byte() {
    let mut wal = writer();
    let half = vec![0u8; (MAX_SEGMENT_SIZE / 2 - 8) as usize];
    for _ in 0..2 {
        assert!(matches!(
            wal.push_with_checksum(&half, 0),
            Progress::Perform(Command::Write { .. })
        ));
        for _ in 0..3 {
            wal.resume(Ok(()), 0);
        }
    }
    assert_eq!(wal.offset(), MAX_SEGMENT_SIZE);
    assert!(matches!(wal.push(b"x"), Progress::Perform(Command::Flush)));
}

#[test]
fn the_largest_record_is_accepted_and_one_byte_more_is_not() {
    let mut wal = writer();
    let record = vec![0u8; MAX_RECORD_SIZE + 1];
    match wal.push(&record) {
        Progress::Failed(WriteError::RecordTooLarge { len }) => {
            assert_eq!(len, MAX_RECORD_SIZE + 1);
        }
        _ => panic!("too large"),
    }
    assert!(matches!(wal.push(b""), Progress::Failed(WriteError::EmptyRecord)));
    assert!(matches!(
        wal.push_with_checksum(&record[1..], 0),
        Progress::Perform(Command::Write { .. })
    ));
}

#[test]
fn segment_numbers_run_out() {
    match create_segment(MAX_SEGMENT_SEQ, 16) {
        Ok(Command::Create { path, capacity: 16 }) => assert_eq!(path, "99999999.wal"),
        _ => panic!("the last number is still good"),
    }
    match create_segment(MAX_SEGMENT_SEQ + 1, 16) {
        Err(WriteError::Io(e)) => {
            assert_eq!(e.kind, IoErrorKind::InvalidInput);
            assert_eq!(e.message, "wal segment sequence overflow");
        }
        _ => panic!("there is no such segment"),
    }
}

#[test]
fn a_writer_starts_behind_the_last_segment() {
    let (wal, command) =
        WalWriter::with_capacity(&names(&["00000002.wal", "00000001.wal"]), 32).unwrap();
    assert_eq!(wal.path(), "00000003.wal");
    match command {
        Command::Create { path, capacity: 32 } => assert_eq!(path, "00000003.wal"),
        _ => panic!("the segment is created first"),
    }
    assert!(matches!(
        WalWriter::new(&names(&["00000001.wal", "00000003.wal"])),
        Err(WriteError::MissingSegment { seq: 2 })
    ));
}
