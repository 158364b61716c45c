//! The log on disk, byte by byte and character by character.
//!
//! The laws below speak of what is in a file and in its name in numbers alone: the
//! bytes of a frame, which bytes are a frame and what is wrong with the others, the
//! characters of a segment name and the number that it carries.

use vstd::prelude::*;

use crate::crc::{crc32, law_altered_byte_alters_checksum};
use crate::format::{
    frame, frame_checksum, frame_len, frames, judge, le_bytes, le_value, lemma_le_round_trip,
    lemma_le_round_trip_bytes, payload_of, stored_checksum, valid_record, Verdict, CRC_SIZE,
    DEFAULT_CAPACITY, FRAME_OVERHEAD, LEN_SIZE, MAX_RECORD_SIZE,
};
use crate::replay::lemma_frame_len;
use crate::segment::{
    contiguous, decimal_value, first_missing, found_seqs, is_digit, is_segment_name,
    law_name_carries_number, law_number_has_one_name, lemma_parsed_bound, name_of, names_segment,
    parsed_name, pow10, suffix, MAX_SEGMENT_SEQ,
};
use crate::text::{decimal, decimal_padded, digit, hex_padded};
use crate::writer::MAX_SEGMENT_SIZE;

verus! {

/// The sizes and limits of the format: records of up to 64 MiB, segments of up to
/// 128 MiB and eight digits, four bytes for a length and four for a checksum, and a
/// buffer of 8 KiB where none is asked for.
pub proof fn law_sizes()
    ensures
        MAX_RECORD_SIZE == 67_108_864,
        MAX_SEGMENT_SIZE == 134_217_728,
        MAX_SEGMENT_SEQ == 99_999_999,
        LEN_SIZE == 4,
        CRC_SIZE == 4,
        FRAME_OVERHEAD == 8,
        DEFAULT_CAPACITY == 8_192,
{
}

/// The log accepts records of 1 to 67,108,864 bytes, and a frame is eight bytes longer
/// than its record.
pub proof fn law_accepted_records(record: Seq<u8>)
    ensures
        valid_record(record) <==> 1 <= record.len() <= 67_108_864,
        frame_len(record.len()) == record.len() + 8,
        frame(record).len() == record.len() + 8,
{
}

/// A number takes four bytes, each worth 256 times the one before it.
pub proof fn law_numbers_are_little_endian(n: nat, bytes: Seq<u8>)
    requires
        n <= 0xffff_ffff,
        bytes.len() >= 4,
    ensures
        le_bytes(n).len() == 4,
        le_bytes(n)[0] + 256 * le_bytes(n)[1] + 65_536 * le_bytes(n)[2] + 16_777_216 * le_bytes(
            n,
        )[3] == n,
        le_value(bytes) == bytes[0] + 256 * bytes[1] + 65_536 * bytes[2] + 16_777_216 * bytes[3],
        le_bytes(n) == bytes.take(4) <==> bytes[0] + 256 * bytes[1] + 65_536 * bytes[2]
            + 16_777_216 * bytes[3] == n,
{
    lemma_le_round_trip(n);
    lemma_le_round_trip_bytes(bytes);
    if le_bytes(n) == bytes.take(4) {
        assert(bytes.take(4)[0] == bytes[0] && bytes.take(4)[1] == bytes[1] && bytes.take(4)[2]
            == bytes[2] && bytes.take(4)[3] == bytes[3]);
    }
}

/// The bytes of a frame: the length of the record in the first four, the record, and in
/// the last four the checksum of everything before them, the length included.
pub proof fn law_bytes_of_a_frame(record: Seq<u8>)
    requires
        1 <= record.len() <= 67_108_864,
    ensures
        ({
            let f = frame(record);
            let n = record.len() as int;
            &&& f.len() == n + 8
            &&& f[0] + 256 * f[1] + 65_536 * f[2] + 16_777_216 * f[3] == n
            &&& forall|i: int| 0 <= i < n ==> f[4 + i] == #[trigger] record[i]
            &&& f[n + 4] + 256 * f[n + 5] + 65_536 * f[n + 6] + 16_777_216 * f[n + 7] == crc32(
                f.take(n + 4),
            )
            &&& frame_checksum(record) == crc32(f.take(n + 4))
        }),
{
    let f = frame(record);
    let n = record.len() as int;
    let crc = frame_checksum(record);
    lemma_frame_len(record);
    lemma_le_round_trip(record.len());
    lemma_le_round_trip(crc as nat);
    assert(f.take(n + 4) =~= le_bytes(record.len()) + record);
    assert(f[n + 4] == le_bytes(crc as nat)[0]);
    assert(f[n + 5] == le_bytes(crc as nat)[1]);
    assert(f[n + 6] == le_bytes(crc as nat)[2]);
    assert(f[n + 7] == le_bytes(crc as nat)[3]);
}

/// The checksum of a frame covers all of it: with any one byte before the checksum
/// altered, of the length or of the record, what is stored is not the checksum of the
/// same number of bytes any more.
pub proof fn law_checksum_covers_the_frame(record: Seq<u8>, at: int, byte: u8)
    requires
        1 <= record.len() <= 67_108_864,
        0 <= at < record.len() + 4,
        frame(record)[at] != byte,
    ensures
        crc32(frame(record).take(record.len() as int + 4).update(at, byte)) != frame_checksum(record),
{
    law_bytes_of_a_frame(record);
    law_altered_byte_alters_checksum(frame(record).take(record.len() as int + 4), at, byte);
}

/// The checksum that a frame carries is that of the four bytes of its length and of its
/// record, one behind the other.
pub proof fn law_checksum_of_a_frame(record: Seq<u8>, len_bytes: Seq<u8>)
    requires
        1 <= record.len() <= 67_108_864,
        len_bytes.len() == 4,
        len_bytes[0] + 256 * len_bytes[1] + 65_536 * len_bytes[2] + 16_777_216 * len_bytes[3]
            == record.len(),
    ensures
        frame_checksum(record) == crc32(len_bytes + record),
{
    law_numbers_are_little_endian(record.len(), len_bytes);
    assert(len_bytes.take(4) =~= len_bytes);
}

/// Frames stand one behind the other, with nothing before, between or after them.
pub proof fn law_frames_stand_in_a_row(first: Seq<Seq<u8>>, record: Seq<u8>, rest: Seq<Seq<u8>>)
    ensures
        frames(Seq::empty()) == Seq::<u8>::empty(),
        frames(seq![record]) == frame(record),
        frames(first + rest) == frames(first) + frames(rest),
    decreases rest.len(),
{
    assert(seq![record].drop_last() =~= Seq::<Seq<u8>>::empty());
    assert(seq![record].last() == record);
    assert(frames(Seq::<Seq<u8>>::empty()) =~= Seq::<u8>::empty());
    assert(frames(seq![record]) =~= frames(Seq::<Seq<u8>>::empty()) + frame(record));
    assert(frames(seq![record]) =~= frame(record));
    if rest.len() == 0 {
        assert(first + rest =~= first);
        assert(frames(first) + frames(rest) =~= frames(first));
    } else {
        law_frames_stand_in_a_row(first, record, rest.drop_last());
        assert((first + rest).drop_last() =~= first + rest.drop_last());
        assert((first + rest).last() == rest.last());
        assert(frames(first + rest) =~= frames(first) + frames(rest));
    }
}

/// When bytes are too few for a frame: fewer than a length takes, or fewer than a length
/// that a writer produces calls for.
pub proof fn law_what_is_incomplete(bytes: Seq<u8>)
    ensures
        ({
            let n = bytes[0] + 256 * bytes[1] + 65_536 * bytes[2] + 16_777_216 * bytes[3];
            judge(bytes) is Incomplete <==> (bytes.len() < 4 || 1 <= n <= 67_108_864 && bytes.len()
                < n + 8)
        }),
{
}

/// When a length is invalid: there are four bytes or more, and they hold zero or more than
/// the largest record has. That number is reported.
pub proof fn law_what_is_an_invalid_length(bytes: Seq<u8>)
    ensures
        ({
            let n = bytes[0] + 256 * bytes[1] + 65_536 * bytes[2] + 16_777_216 * bytes[3];
            &&& judge(bytes) is InvalidLength <==> (bytes.len() >= 4 && (n == 0 || n > 67_108_864))
            &&& judge(bytes) matches Verdict::InvalidLength { len } ==> len == n
        }),
{
}

/// When bytes start with a record: they start with a length that a writer produces, all
/// of the frame is there, and its last four bytes hold the checksum of those before them.
/// The record is what stands between. With another checksum there, both are reported.
pub proof fn law_what_is_a_record(bytes: Seq<u8>)
    ensures
        ({
            let n = bytes[0] + 256 * bytes[1] + 65_536 * bytes[2] + 16_777_216 * bytes[3];
            let stored = bytes[n + 4] + 256 * bytes[n + 5] + 65_536 * bytes[n + 6] + 16_777_216
                * bytes[n + 7];
            let computed = crc32(bytes.take(n + 4));
            let whole = bytes.len() >= 4 && 1 <= n <= 67_108_864 && bytes.len() >= n + 8;
            &&& judge(bytes) is Record <==> whole && stored == computed
            &&& judge(bytes) matches Verdict::Record { payload } ==> payload.len() == n && forall|
                i: int,
            |
                0 <= i < n ==> #[trigger] payload[i] == bytes[4 + i]
            &&& judge(bytes) is Mismatch <==> whole && stored != computed
            &&& judge(bytes) matches Verdict::Mismatch { expected, actual } ==> expected == stored
                && actual == computed
        }),
{
    let n = bytes[0] + 256 * bytes[1] + 65_536 * bytes[2] + 16_777_216 * bytes[3];
    if bytes.len() >= 4 && 1 <= n <= 67_108_864 && bytes.len() >= n + 8 {
        let part = bytes.subrange(n + 4, n + 8);
        assert(part[0] == bytes[n + 4] && part[1] == bytes[n + 5] && part[2] == bytes[n + 6]
            && part[3] == bytes[n + 7]);
        assert(stored_checksum(bytes) == le_value(part));
        assert(forall|i: int| 0 <= i < n ==> #[trigger] payload_of(bytes)[i] == bytes[4 + i]);
    }
}

/// Whether `name` is the file name of segment `seq`: eight digits that write the number,
/// and `.wal`.
pub open spec fn is_numbered(name: Seq<char>, seq: int) -> bool {
    &&& name.len() == 12
    &&& forall|i: int| 0 <= i < 8 ==> '0' <= #[trigger] name[i] <= '9'
    &&& name[8] == '.' && name[9] == 'w' && name[10] == 'a' && name[11] == 'l'
    &&& seq == 10_000_000 * (name[0] as int - 48) + 1_000_000 * (name[1] as int - 48) + 100_000 * (
    name[2] as int - 48) + 10_000 * (name[3] as int - 48) + 1_000 * (name[4] as int - 48) + 100 * (
    name[5] as int - 48) + 10 * (name[6] as int - 48) + (name[7] as int - 48)
}

/// What the digits of a name write, spelled out.
proof fn lemma_eight_digits(name: Seq<char>)
    requires
        name.len() == 12,
        forall|i: int| 0 <= i < 8 ==> '0' <= #[trigger] name[i] <= '9',
    ensures
        decimal_value(name.take(8)) == 10_000_000 * (name[0] as int - 48) + 1_000_000 * (
        name[1] as int - 48) + 100_000 * (name[2] as int - 48) + 10_000 * (name[3] as int - 48)
            + 1_000 * (name[4] as int - 48) + 100 * (name[5] as int - 48) + 10 * (name[6] as int
            - 48) + (name[7] as int - 48),
{
    assert(name.take(8).drop_last() =~= name.take(7));
    assert(name.take(7).drop_last() =~= name.take(6));
    assert(name.take(6).drop_last() =~= name.take(5));
    assert(name.take(5).drop_last() =~= name.take(4));
    assert(name.take(4).drop_last() =~= name.take(3));
    assert(name.take(3).drop_last() =~= name.take(2));
    assert(name.take(2).drop_last() =~= name.take(1));
    assert(name.take(1).drop_last() =~= name.take(0));
    assert(decimal_value(name.take(0)) == 0);
    assert('0' <= name[0] && '0' <= name[1] && '0' <= name[2] && '0' <= name[3] && '0' <= name[4]
        && '0' <= name[5] && '0' <= name[6] && '0' <= name[7]);
    assert(decimal_value(name.take(1)) == name[0] as int - 48);
    assert(decimal_value(name.take(2)) == 10 * decimal_value(name.take(1)) + (name[1] as int - 48));
    assert(decimal_value(name.take(3)) == 10 * decimal_value(name.take(2)) + (name[2] as int - 48));
    assert(decimal_value(name.take(4)) == 10 * decimal_value(name.take(3)) + (name[3] as int - 48));
    assert(decimal_value(name.take(5)) == 10 * decimal_value(name.take(4)) + (name[4] as int - 48));
    assert(decimal_value(name.take(6)) == 10 * decimal_value(name.take(5)) + (name[5] as int - 48));
    assert(decimal_value(name.take(7)) == 10 * decimal_value(name.take(6)) + (name[6] as int - 48));
    assert(decimal_value(name.take(8)) == 10 * decimal_value(name.take(7)) + (name[7] as int - 48));
}

/// A name carries a number if and only if it is eight digits and `.wal`, and the number is
/// the one that the digits write.
pub proof fn law_number_of_a_name(name: Seq<char>)
    ensures
        parsed_name(name) is Some <==> {
            &&& name.len() == 12
            &&& forall|i: int| 0 <= i < 8 ==> '0' <= #[trigger] name[i] <= '9'
            &&& name[8] == '.'
            &&& name[9] == 'w'
            &&& name[10] == 'a'
            &&& name[11] == 'l'
        },
        parsed_name(name) matches Some(seq) ==> seq == 10_000_000 * (name[0] as int - 48)
            + 1_000_000 * (name[1] as int - 48) + 100_000 * (name[2] as int - 48) + 10_000 * (
        name[3] as int - 48) + 1_000 * (name[4] as int - 48) + 100 * (name[5] as int - 48) + 10 * (
        name[6] as int - 48) + (name[7] as int - 48),
        forall|seq: u64| (parsed_name(name) == Some(seq)) == #[trigger] is_numbered(
            name,
            seq as int,
        ),
{
    if name.len() == 12 && name[8] == '.' && name[9] == 'w' && name[10] == 'a' && name[11] == 'l' {
        assert(name.skip(8) =~= suffix());
    }
    if is_segment_name(name) {
        assert(name.skip(8)[0] == name[8] && name.skip(8)[1] == name[9] && name.skip(8)[2]
            == name[10] && name.skip(8)[3] == name[11]);
        assert forall|i: int| 0 <= i < 8 implies '0' <= #[trigger] name[i] <= '9' by {
            assert(is_digit(name[i]));
        }
        lemma_eight_digits(name);
        lemma_parsed_bound(name);
    }
    if name.len() == 12 && name[8] == '.' && name[9] == 'w' && name[10] == 'a' && name[11] == 'l'
        && (forall|i: int| 0 <= i < 8 ==> '0' <= #[trigger] name[i] <= '9') {
        assert forall|i: int| 0 <= i < 8 implies is_digit(#[trigger] name[i]) by {}
        assert(is_segment_name(name));
    }
}

/// The name of a segment, whatever its number: eight digits that write the number, and
/// `.wal`.
pub proof fn law_name_of_a_number(seq: u64)
    requires
        seq <= 99_999_999,
    ensures
        ({
            let name = name_of(seq as nat);
            &&& name.len() == 12
            &&& forall|i: int| 0 <= i < 8 ==> '0' <= #[trigger] name[i] <= '9'
            &&& name[8] == '.'
            &&& name[9] == 'w'
            &&& name[10] == 'a'
            &&& name[11] == 'l'
            &&& seq == 10_000_000 * (name[0] as int - 48) + 1_000_000 * (name[1] as int - 48)
                + 100_000 * (name[2] as int - 48) + 10_000 * (name[3] as int - 48) + 1_000 * (
            name[4] as int - 48) + 100 * (name[5] as int - 48) + 10 * (name[6] as int - 48) + (
            name[7] as int - 48)
            &&& is_numbered(name, seq as int)
        }),
{
    law_name_carries_number(seq);
    law_number_of_a_name(name_of(seq as nat));
    assert(is_numbered(name_of(seq as nat), seq as int));
}

/// Two names that carry the same number are the same name, and the name of a segment is
/// the only one that carries its number.
pub proof fn law_names_and_numbers_go_together(a: Seq<char>, b: Seq<char>, seq: u64)
    requires
        is_numbered(a, seq as int),
    ensures
        seq <= 99_999_999,
        a == name_of(seq as nat),
        is_numbered(b, seq as int) ==> a == b,
{
    law_number_of_a_name(a);
    assert(parsed_name(a) == Some(seq));
    law_number_has_one_name(a);
    if is_numbered(b, seq as int) {
        law_number_of_a_name(b);
        assert(parsed_name(b) == Some(seq));
        law_number_has_one_name(b);
    }
}

/// A number of more than eight digits has a longer name, in which all of its digits stand
/// before `.wal`: those of a tenth of it, and its last.
pub proof fn law_longer_names(seq: u64)
    requires
        seq > 99_999_999,
    ensures
        ({
            let name = name_of(seq as nat);
            let shorter = name_of((seq / 10) as nat);
            let n = name.len() as int;
            &&& n > 12
            &&& n == shorter.len() + 1
            &&& name.take(n - 5) == shorter.take(n - 5)
            &&& name[n - 5] as int == 48 + seq % 10
            &&& name[n - 4] == '.' && name[n - 3] == 'w' && name[n - 2] == 'a' && name[n - 1] == 'l'
        }),
{
    let name = name_of(seq as nat);
    let digits = decimal_padded(seq as nat, 8);
    let fewer = decimal_padded((seq / 10) as nat, 7);
    let n = name.len() as int;
    assert(digits == fewer.push(digit((seq % 10) as nat)));
    reveal_with_fuel(pow10, 8);
    assert(pow10(7) == 10_000_000);
    lemma_padding_needless((seq / 10) as nat, 7);
    assert(fewer == decimal_padded((seq / 10) as nat, 8));
    lemma_padded_at_least((seq / 10) as nat, 8);
    assert(name =~= digits + suffix());
    assert(name.take(n - 5) =~= fewer);
    assert(name_of((seq / 10) as nat).take(n - 5) =~= fewer);
}

/// Digits are at least as many as asked for.
proof fn lemma_padded_at_least(n: nat, width: nat)
    ensures
        decimal_padded(n, width).len() >= width,
    decreases width,
{
    if width > 0 {
        lemma_padded_at_least(n / 10, (width - 1) as nat);
    }
}

/// A number that has more digits than `width` is written the same when one digit more is
/// asked for.
proof fn lemma_padding_needless(n: nat, width: nat)
    requires
        n >= pow10(width),
    ensures
        decimal_padded(n, width) == decimal_padded(n, width + 1),
    decreases width,
{
    if width > 0 {
        lemma_padding_needless(n / 10, (width - 1) as nat);
    }
}

/// A directory holds segment `seq` if and only if one of its entries has that number in its
/// name.
pub proof fn law_found_segments(names: Seq<Option<String>>, seq: u64)
    ensures
        found_seqs(names).contains(seq) <==> exists|i: int|
            0 <= i < names.len() && (#[trigger] names[i]) is Some && is_numbered(
                names[i]->0@,
                seq as int,
            ),
        forall|i: int| #[trigger]
            names_segment(names, i, seq) <==> 0 <= i < names.len() && names[i] is Some
                && is_numbered(names[i]->0@, seq as int),
{
    assert forall|i: int| #[trigger]
        names_segment(names, i, seq) <==> 0 <= i < names.len() && names[i] is Some && is_numbered(
            names[i]->0@,
            seq as int,
        ) by {
        if 0 <= i < names.len() && names[i] is Some {
            law_number_of_a_name(names[i]->0@);
            assert(is_numbered(names[i]->0@, seq as int) == (parsed_name(names[i]->0@) == Some(
                seq,
            )));
        }
    }
    if found_seqs(names).contains(seq) {
        let i = choose|i: int| #[trigger] names_segment(names, i, seq);
        assert(names[i] is Some);
    }
    if exists|i: int|
        0 <= i < names.len() && (#[trigger] names[i]) is Some && is_numbered(
            names[i]->0@,
            seq as int,
        ) {
        let i = choose|i: int|
            0 <= i < names.len() && (#[trigger] names[i]) is Some && is_numbered(
                names[i]->0@,
                seq as int,
            );
        assert(names_segment(names, i, seq));
    }
}

/// What a scan answers: that exactly the numbers from 1 on are there, up to the last, or
/// the first at which the numbers found, in ascending order, depart from that. Number 0,
/// which no segment has, comes before 1.
pub proof fn law_answers_of_a_scan(found: Set<u64>, answer: u64)
    ensures
        contiguous(found, answer) <==> forall|s: u64| #[trigger]
            found.contains(s) <==> 1 <= s <= answer,
        first_missing(found, answer) && !found.contains(0) ==> {
            &&& answer >= 1
            &&& !found.contains(answer)
            &&& forall|s: u64| 1 <= s < answer ==> #[trigger] found.contains(s)
            &&& exists|s: u64| s > answer && #[trigger] found.contains(s)
        },
        first_missing(found, answer) && found.contains(0) ==> answer == 1,
{
}

/// A directory in order stays in order when the next segment is added, and has one more.
pub proof fn law_next_segment_continues(names: Seq<Option<String>>, file: String, last: u64)
    requires
        last < 99_999_999,
        contiguous(found_seqs(names), last),
        is_numbered(file@, last + 1),
    ensures
        contiguous(found_seqs(names.push(Some(file))), (last + 1) as u64),
{
    let more = names.push(Some(file));
    assert forall|s: u64| #[trigger] found_seqs(more).contains(s) <==> 1 <= s <= last + 1 by {
        law_found_segments(names, s);
        law_found_segments(more, s);
        if found_seqs(names).contains(s) {
            let i = choose|i: int| #[trigger] names_segment(names, i, s);
            assert(more[i] == names[i]);
            assert(names_segment(more, i, s));
        }
        if s == last + 1 {
            assert(more[names.len() as int] is Some);
            assert(names_segment(more, names.len() as int, s));
        }
        if found_seqs(more).contains(s) && s != last + 1 {
            let i = choose|i: int| #[trigger] names_segment(more, i, s);
            assert(more[i] is Some);
            assert(i < names.len());
            assert(more[i] == names[i]);
            assert(names_segment(names, i, s));
        }
    }
}

/// A number in decimal: the digits of a tenth of it, none where that is zero, and its last
/// digit.
pub proof fn law_decimal_digits(n: nat)
    ensures
        n < 10 ==> decimal(n) == seq![(48 + n) as char],
        n >= 10 ==> decimal(n) == decimal(n / 10).push((48 + n % 10) as char),
{
    assert(decimal_padded(n, 1) == decimal_padded(n / 10, 0).push(digit(n % 10)));
    assert(decimal_padded(0, 0) =~= Seq::<char>::empty());
    if n >= 10 {
        lemma_padding_needless(n / 10, 0);
    } else {
        assert(decimal(n) =~= seq![(48 + n) as char]);
    }
}

/// A number in decimal with zeros before it, up to a number of digits: the digits of a tenth
/// of it, one fewer asked for, and its last digit.
pub proof fn law_padded_digits(n: nat, width: nat)
    ensures
        decimal_padded(0, 0) == Seq::<char>::empty(),
        width > 0 ==> decimal_padded(n, width) == decimal_padded(n / 10, (width - 1) as nat).push(
            (48 + n % 10) as char,
        ),
        n > 0 ==> decimal_padded(n, 0) == decimal_padded(n / 10, 0).push((48 + n % 10) as char),
{
    assert(decimal_padded(0, 0) =~= Seq::<char>::empty());
}

/// A number in hexadecimal with zeros before it, up to a number of digits: the digits of a
/// sixteenth of it, one fewer asked for, and its last digit, `a` to `f` for ten to fifteen.
pub proof fn law_hexadecimal_digits(n: nat, width: nat)
    ensures
        hex_padded(0, 0) == Seq::<char>::empty(),
        width > 0 || n > 0 ==> hex_padded(n, width) == hex_padded(
            n / 16,
            if width > 0 {
                (width - 1) as nat
            } else {
                0
            },
        ).push(
            if n % 16 < 10 {
                (48 + n % 16) as char
            } else {
                (87 + n % 16) as char
            },
        ),
{
    assert(hex_padded(0, 0) =~= Seq::<char>::empty());
}

} // verus!
