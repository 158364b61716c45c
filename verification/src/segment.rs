//! Segment file names, and the sequence numbers found in a log directory.

use vstd::prelude::*;
use vstd::string::*;

use crate::text::{decimal_padded, digit, push_decimal_padded};

verus! {

/// Highest sequence that still fits `{seq:08}.wal`.
pub const MAX_SEGMENT_SEQ: u64 = 99_999_999;

/// What is wrong with the segments found in a directory.
#[derive(Debug, PartialEq, Eq, Structural, Clone, Copy)]
pub enum ScanError {
    /// The segments do not start at 1, or have a hole: this one is not where it
    /// should be.
    Missing { seq: u64 },
}

/// What every segment name ends in.
pub open spec fn suffix() -> Seq<char> {
    seq!['.', 'w', 'a', 'l']
}

/// The name of segment `seq`: at least eight decimal digits and the suffix.
pub open spec fn name_of(seq: nat) -> Seq<char> {
    decimal_padded(seq, 8) + suffix()
}

/// Whether `c` is an ASCII decimal digit.
pub open spec fn is_digit(c: char) -> bool {
    '0' <= c <= '9'
}

/// The number that a string of decimal digits writes.
pub open spec fn decimal_value(digits: Seq<char>) -> nat
    decreases digits.len(),
{
    if digits.len() == 0 {
        0
    } else {
        10 * decimal_value(digits.drop_last()) + (digits.last() as nat - 48) as nat
    }
}

/// Whether `name` has the shape of a segment name: eight digits and the suffix.
pub open spec fn is_segment_name(name: Seq<char>) -> bool {
    &&& name.len() == 12
    &&& forall|i: int| 0 <= i < 8 ==> is_digit(#[trigger] name[i])
    &&& name.skip(8) == suffix()
}

/// The sequence number that a segment name carries; none for any other name.
pub open spec fn parsed_name(name: Seq<char>) -> Option<u64> {
    if is_segment_name(name) {
        Some(decimal_value(name.take(8)) as u64)
    } else {
        None
    }
}

/// The sequence numbers of the segments among directory entries with these
/// names. An entry whose name is not Unicode has no name here.
pub open spec fn found_seqs(names: Seq<Option<String>>) -> Set<u64> {
    Set::new(|seq: u64| exists|i: int| #[trigger] names_segment(names, i, seq))
}

/// Whether entry `i` is the file of segment `seq`.
pub open spec fn names_segment(names: Seq<Option<String>>, i: int, seq: u64) -> bool {
    &&& 0 <= i < names.len()
    &&& names[i] is Some
    &&& parsed_name(names[i]->0@) == Some(seq)
}

/// Whether the segments in `found` are exactly `1..=last`.
pub open spec fn contiguous(found: Set<u64>, last: u64) -> bool {
    forall|seq: u64| #[trigger] found.contains(seq) <==> 1 <= seq <= last
}

/// Whether `seq` is the first number at which the segments in `found`, in
/// ascending order, depart from 1, 2, 3 and so on. A segment 0 comes before
/// segment 1 and so is a departure at 1.
pub open spec fn first_missing(found: Set<u64>, seq: u64) -> bool {
    if found.contains(0) {
        seq == 1
    } else {
        &&& seq >= 1
        &&& forall|s: u64| 1 <= s < seq ==> #[trigger] found.contains(s)
        &&& !found.contains(seq)
        &&& exists|s: u64| s > seq && #[trigger] found.contains(s)
    }
}

/// Whether `v` never goes down.
pub open spec fn ascending(v: Seq<u64>) -> bool {
    forall|i: int, j: int| 0 <= i <= j < v.len() ==> v[i] <= v[j]
}

/// Whether `v` always goes up.
pub open spec fn strictly_ascending(v: Seq<u64>) -> bool {
    forall|i: int, j: int| 0 <= i < j < v.len() ==> v[i] < v[j]
}

/// The file name of segment `seq`.
pub fn segment_name(seq: u64) -> (name: String)
    ensures
        name@ == name_of(seq as nat),
{
    let mut name = String::new();
    push_decimal_padded(&mut name, seq, 8);
    name.append(".wal");
    proof {
        reveal_strlit(".wal");
        assert(".wal"@ =~= suffix());
        assert(name@ =~= name_of(seq as nat));
    }
    name
}

/// The number written by the first `k + 1` digits, from that of the first `k`.
proof fn lemma_decimal_value_step(name: Seq<char>, k: int)
    requires
        0 <= k < name.len(),
    ensures
        decimal_value(name.take(k + 1)) == 10 * decimal_value(name.take(k)) + (name[k] as nat
            - 48) as nat,
{
    assert(name.take(k + 1).drop_last() =~= name.take(k));
}

/// The sequence number that a segment file name carries.
pub fn parse_segment_name(name: &str) -> (seq: Option<u64>)
    ensures
        seq == parsed_name(name@),
{
    if !name.is_ascii() {
        proof {
            if is_segment_name(name@) {
                assert forall|i: int| 0 <= i < name@.len() implies '\0' <= #[trigger] name@[i]
                    <= '\u{7f}' by {
                    if i >= 8 {
                        assert(name@[i] == name@.skip(8)[i - 8]);
                    }
                }
            }
        }
        return None;
    }
    let bytes: &[u8] = name.as_bytes();
    assert(bytes@ =~= Seq::new(name@.len(), |i: int| name@[i] as u8));
    if bytes.len() != 12 {
        return None;
    }
    assert(forall|i: int| 0 <= i < 12 ==> (#[trigger] name@[i]) as int == bytes@[i]);
    if bytes[8] != 46 || bytes[9] != 119 || bytes[10] != 97 || bytes[11] != 108 {
        proof {
            if is_segment_name(name@) {
                assert(name@.skip(8)[0] == '.' && name@.skip(8)[1] == 'w' && name@.skip(8)[2]
                    == 'a' && name@.skip(8)[3] == 'l');
                assert(name@[8] == '.' && name@[9] == 'w' && name@[10] == 'a' && name@[11] == 'l');
            }
        }
        return None;
    }
    let mut seq: u64 = 0;
    let mut i: usize = 0;
    while i < 8
        invariant
            i <= 8,
            name@.len() == 12,
            bytes@.len() == 12,
            forall|j: int| 0 <= j < 12 ==> (#[trigger] name@[j]) as int == bytes@[j],
            forall|j: int| 0 <= j < i ==> is_digit(#[trigger] name@[j]),
            seq == decimal_value(name@.take(i as int)),
            i == 0 ==> seq == 0,
            i == 1 ==> seq < 10,
            i == 2 ==> seq < 100,
            i == 3 ==> seq < 1000,
            i == 4 ==> seq < 10000,
            i == 5 ==> seq < 100000,
            i == 6 ==> seq < 1000000,
            i == 7 ==> seq < 10000000,
            seq < 100000000,
        decreases 8 - i,
    {
        let b: u8 = bytes[i];
        if b < 48 || b > 57 {
            assert(!is_digit(name@[i as int]));
            return None;
        }
        proof {
            lemma_decimal_value_step(name@, i as int);
        }
        seq = seq * 10 + (b - 48) as u64;
        i += 1;
    }
    assert(name@.skip(8) =~= suffix());
    Some(seq)
}

/// Ten to the power `n`.
pub open spec fn pow10(n: nat) -> nat
    decreases n,
{
    if n == 0 {
        1
    } else {
        10 * pow10((n - 1) as nat)
    }
}

/// A string of digits writes a number below ten to the power of its length.
pub proof fn lemma_decimal_value_bound(digits: Seq<char>)
    requires
        forall|i: int| 0 <= i < digits.len() ==> is_digit(#[trigger] digits[i]),
    ensures
        decimal_value(digits) < pow10(digits.len()),
    decreases digits.len(),
{
    if digits.len() > 0 {
        lemma_decimal_value_bound(digits.drop_last());
        assert(is_digit(digits[digits.len() - 1]));
    }
}

/// No segment name carries a number above [`MAX_SEGMENT_SEQ`].
pub proof fn lemma_parsed_bound(name: Seq<char>)
    ensures
        parsed_name(name) matches Some(seq) ==> seq <= MAX_SEGMENT_SEQ && seq == decimal_value(
            name.take(8),
        ),
{
    if is_segment_name(name) {
        assert forall|i: int| 0 <= i < name.take(8).len() implies is_digit(
            #[trigger] name.take(8)[i],
        ) by {
            assert(name.take(8)[i] == name[i]);
        }
        lemma_decimal_value_bound(name.take(8));
        reveal_with_fuel(pow10, 9);
        assert(pow10(8) == 100_000_000);
    }
}

/// `slice::sort_unstable` on a vector of `u64`: the same elements, as often each,
/// in ascending order.
#[verifier::external_body]
fn sort_unstable(v: &mut Vec<u64>)
    ensures
        final(v)@.to_multiset() == old(v)@.to_multiset(),
        ascending(final(v)@),
{
    v.sort_unstable();
}

/// The elements of an ascending vector, each once.
fn dedup(sorted: &Vec<u64>) -> (v: Vec<u64>)
    requires
        ascending(sorted@),
    ensures
        strictly_ascending(v@),
        forall|s: u64| v@.contains(s) <==> sorted@.contains(s),
{
    let mut v: Vec<u64> = Vec::new();
    let mut i: usize = 0;
    while i < sorted.len()
        invariant
            i <= sorted@.len(),
            ascending(sorted@),
            strictly_ascending(v@),
            i > 0 ==> v@.len() > 0 && v@.last() == sorted@[i - 1],
            i == 0 ==> v@.len() == 0,
            forall|j: int| 0 <= j < i ==> v@.contains(#[trigger] sorted@[j]),
            forall|j: int| 0 <= j < v@.len() ==> sorted@.contains(#[trigger] v@[j]),
        decreases sorted@.len() - i,
    {
        let seq: u64 = sorted[i];
        let ghost before = v@;
        if v.len() == 0 || v[v.len() - 1] != seq {
            v.push(seq);
            proof {
                assert(v@.last() == seq);
                assert forall|j: int| 0 <= j < i + 1 implies v@.contains(
                    #[trigger] sorted@[j],
                ) by {
                    if j < i {
                        let k = choose|k: int| 0 <= k < before.len() && before[k] == sorted@[j];
                        assert(v@[k] == sorted@[j]);
                    } else {
                        assert(v@[v@.len() - 1] == sorted@[j]);
                    }
                }
            }
        }
        i += 1;
    }
    v
}

/// Last sequence in a contiguous `1..=n` match set, or `0` if none match.
///
/// `names` are the names of the directory's entries; `None` stands for a name that
/// is not Unicode. Non-matching entries are ignored. A match set that does not
/// start at 1 or has a hole is [`ScanError::Missing`].
pub fn last_seq(names: &Vec<Option<String>>) -> (last: Result<u64, ScanError>)
    ensures
        match last {
            Ok(n) => n <= MAX_SEGMENT_SEQ && contiguous(found_seqs(names@), n),
            Err(ScanError::Missing { seq }) => first_missing(found_seqs(names@), seq),
        },
{
    let mut seqs: Vec<u64> = Vec::new();
    let mut i: usize = 0;
    while i < names.len()
        invariant
            i <= names@.len(),
            forall|s: u64|
                seqs@.contains(s) <==> exists|j: int|
                    j < i && #[trigger] names_segment(names@, j, s),
        decreases names@.len() - i,
    {
        if let Some(name) = &names[i] {
            if let Some(seq) = parse_segment_name(name.as_str()) {
                let ghost before = seqs@;
                seqs.push(seq);
                proof {
                    assert(names_segment(names@, i as int, seq));
                    assert(seqs@.last() == seq);
                    assert forall|s: u64|
                        seqs@.contains(s) <==> exists|j: int|
                            j < i + 1 && #[trigger] names_segment(names@, j, s) by {
                        if before.contains(s) {
                            let k = choose|k: int| 0 <= k < before.len() && before[k] == s;
                            assert(seqs@[k] == s);
                        }
                        if seqs@.contains(s) {
                            let k = choose|k: int| 0 <= k < seqs@.len() && seqs@[k] == s;
                            if k < before.len() {
                                assert(before[k] == s);
                            }
                        }
                    }
                }
            }
        }
        i += 1;
    }
    let ghost found = found_seqs(names@);
    assert forall|s: u64| seqs@.contains(s) <==> found.contains(s) by {
        if found.contains(s) {
            let j = choose|j: int| names_segment(names@, j, s);
            assert(j < i && names_segment(names@, j, s));
        }
    }
    let ghost unsorted = seqs@;
    sort_unstable(&mut seqs);
    proof {
        broadcast use vstd::seq_lib::group_to_multiset_ensures;

        assert forall|s: u64| seqs@.contains(s) <==> unsorted.contains(s) by {
            assert(seqs@.contains(s) <==> seqs@.to_multiset().count(s) > 0);
            assert(unsorted.contains(s) <==> unsorted.to_multiset().count(s) > 0);
        }
    }
    let seqs = dedup(&seqs);
    if seqs.len() == 0 {
        assert(contiguous(found, 0)) by {
            assert forall|s: u64| !#[trigger] found.contains(s) by {
                assert(!seqs@.contains(s));
            }
        }
        return Ok(0);
    }
    let mut i: usize = 0;
    while i < seqs.len()
        invariant
            i <= seqs@.len(),
            strictly_ascending(seqs@),
            forall|s: u64| seqs@.contains(s) <==> found.contains(s),
            found == found_seqs(names@),
            forall|j: int| 0 <= j < i ==> #[trigger] seqs@[j] == j + 1,
        decreases seqs@.len() - i,
    {
        let expected: u64 = i as u64 + 1;
        if seqs[i] != expected {
            proof {
                if found.contains(0) {
                    assert(seqs@.contains(0));
                    let k = choose|k: int| 0 <= k < seqs@.len() && seqs@[k] == 0;
                    assert(seqs@[0] == 0);
                } else {
                    assert forall|s: u64| 1 <= s < expected implies #[trigger] found.contains(
                        s,
                    ) by {
                        assert(seqs@[s - 1] == s);
                        assert(seqs@.contains(s));
                    }
                    assert(seqs@.contains(seqs@[i as int]));
                    assert(found.contains(seqs@[i as int]));
                    if i > 0 {
                        assert(seqs@[i - 1] == i);
                    }
                    assert(seqs@[i as int] > expected);
                    if found.contains(expected) {
                        assert(seqs@.contains(expected));
                        let k = choose|k: int| 0 <= k < seqs@.len() && seqs@[k] == expected;
                        if k < i {
                            assert(seqs@[k] == k + 1);
                        }
                        assert(false);
                    }
                }
            }
            return Err(ScanError::Missing { seq: expected });
        }
        i += 1;
    }
    let last: u64 = seqs[seqs.len() - 1];
    assert(contiguous(found, last)) by {
        assert(last == seqs@.len());
        assert forall|s: u64| #[trigger] found.contains(s) <==> 1 <= s <= last by {
            if found.contains(s) {
                assert(seqs@.contains(s));
                let k = choose|k: int| 0 <= k < seqs@.len() && seqs@[k] == s;
                assert(seqs@[k] == k + 1);
            }
            if 1 <= s <= last {
                assert(seqs@[s - 1] == s);
                assert(seqs@.contains(s));
            }
        }
    }
    proof {
        assert(found.contains(last));
        let j = choose|j: int| names_segment(names@, j, last);
        lemma_parsed_bound(names@[j]->0@);
    }
    Ok(last)
}

/// A number below ten to the power `width` takes exactly `width` digits, which write
/// that number.
proof fn lemma_padded_writes(n: nat, width: nat)
    requires
        n < pow10(width),
    ensures
        decimal_padded(n, width).len() == width,
        forall|i: int| 0 <= i < width ==> is_digit(#[trigger] decimal_padded(n, width)[i]),
        decimal_value(decimal_padded(n, width)) == n,
    decreases width,
{
    if width > 0 {
        let init = decimal_padded(n / 10, (width - 1) as nat);
        let all = decimal_padded(n, width);
        lemma_padded_writes(n / 10, (width - 1) as nat);
        assert(all == init.push(digit(n % 10)));
        assert(all.drop_last() =~= init);
        assert forall|i: int| 0 <= i < width implies is_digit(#[trigger] all[i]) by {
            if i < width - 1 {
                assert(all[i] == init[i]);
            }
        }
    }
}

/// A number of ten to the power `width` or more takes more digits.
proof fn lemma_padded_overflows(n: nat, width: nat)
    requires
        n >= pow10(width),
    ensures
        decimal_padded(n, width).len() > width,
    decreases width,
{
    if width > 0 {
        lemma_padded_overflows(n / 10, (width - 1) as nat);
    }
}

/// Digits are those of the number that they write.
proof fn lemma_value_pads(digits: Seq<char>)
    requires
        forall|i: int| 0 <= i < digits.len() ==> is_digit(#[trigger] digits[i]),
    ensures
        decimal_padded(decimal_value(digits), digits.len()) == digits,
    decreases digits.len(),
{
    if digits.len() == 0 {
        assert(decimal_padded(0, 0) =~= digits);
    } else {
        let init = digits.drop_last();
        lemma_value_pads(init);
        assert(is_digit(digits[digits.len() - 1]));
        assert(decimal_value(digits) / 10 == decimal_value(init));
        assert(digit(decimal_value(digits) % 10) == digits.last());
        assert(decimal_padded(decimal_value(digits), digits.len()) =~= digits);
    }
}

/// The name of a segment carries its number.
pub proof fn law_name_carries_number(seq: u64)
    requires
        seq <= MAX_SEGMENT_SEQ,
    ensures
        parsed_name(name_of(seq as nat)) == Some(seq),
{
    let name = name_of(seq as nat);
    let digits = decimal_padded(seq as nat, 8);
    reveal_with_fuel(pow10, 9);
    assert(pow10(8) == 100_000_000);
    lemma_padded_writes(seq as nat, 8);
    assert(name.take(8) =~= digits);
    assert(name.skip(8) =~= suffix());
    assert forall|i: int| 0 <= i < 8 implies is_digit(#[trigger] name[i]) by {
        assert(name[i] == digits[i]);
    }
}

/// A segment has one name only: a name that carries a number is the name of that
/// segment.
pub proof fn law_number_has_one_name(name: Seq<char>)
    requires
        parsed_name(name) is Some,
    ensures
        parsed_name(name)->0 <= MAX_SEGMENT_SEQ,
        name == name_of(parsed_name(name)->0 as nat),
{
    let digits = name.take(8);
    lemma_parsed_bound(name);
    assert forall|i: int| 0 <= i < digits.len() implies is_digit(#[trigger] digits[i]) by {
        assert(digits[i] == name[i]);
    }
    lemma_value_pads(digits);
    assert(name =~= digits + name.skip(8));
}

/// Beyond [`MAX_SEGMENT_SEQ`] a name would no longer be found again.
pub proof fn law_number_too_large_is_not_found(seq: u64)
    requires
        seq > MAX_SEGMENT_SEQ,
    ensures
        parsed_name(name_of(seq as nat)) is None,
{
    reveal_with_fuel(pow10, 9);
    assert(pow10(8) == 100_000_000);
    lemma_padded_overflows(seq as nat, 8);
    assert(name_of(seq as nat).len() > 12);
}

/// A directory is in order up to one number, or one number is missing first, and
/// never both.
pub proof fn law_scan_has_one_answer(found: Set<u64>, a: u64, b: u64)
    ensures
        contiguous(found, a) && contiguous(found, b) ==> a == b,
        first_missing(found, a) && first_missing(found, b) ==> a == b,
        !(contiguous(found, a) && first_missing(found, b)),
{
    if contiguous(found, a) && contiguous(found, b) {
        if a > 0 {
            assert(found.contains(a));
        }
        if b > 0 {
            assert(found.contains(b));
        }
    }
    if contiguous(found, a) && first_missing(found, b) {
        assert(!found.contains(0));
        let s = choose|s: u64| s > b && #[trigger] found.contains(s);
        assert(!found.contains(b));
    }
}

/// The segment after the last is a new file: no entry of the directory has its name.
pub proof fn law_next_segment_is_new(names: Seq<Option<String>>, seq: u64)
    requires
        1 <= seq <= MAX_SEGMENT_SEQ,
        contiguous(found_seqs(names), (seq - 1) as u64),
    ensures
        forall|i: int|
            0 <= i < names.len() && (#[trigger] names[i]) is Some ==> names[i]->0@ != name_of(
                seq as nat,
            ),
{
    law_name_carries_number(seq);
    assert forall|i: int| 0 <= i < names.len() && (#[trigger] names[i]) is Some implies names[i]->0@
        != name_of(seq as nat) by {
        if names[i]->0@ == name_of(seq as nat) {
            assert(names_segment(names, i, seq));
            assert(found_seqs(names).contains(seq));
        }
    }
}

} // verus!
