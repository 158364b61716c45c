//! CRC-32 (IEEE): what the checksum of a byte string is.
//!
//! The bytes are taken as a polynomial over two elements, least significant bit first,
//! and the checksum is its remainder. The laws say which alterations it is sure to
//! show.

use vstd::prelude::*;

verus! {

/// The generator polynomial, least significant bit for the highest power.
pub const POLYNOMIAL: u32 = 0xedb8_8320;

/// The remainder `state` with one bit taken in.
pub open spec fn shifted(state: u32) -> u32 {
    if state & 1 == 1 {
        (state >> 1) ^ POLYNOMIAL
    } else {
        state >> 1
    }
}

/// The remainder `state` with `bits` bits taken in.
pub open spec fn shifted_by(state: u32, bits: nat) -> u32
    decreases bits,
{
    if bits == 0 {
        state
    } else {
        shifted(shifted_by(state, (bits - 1) as nat))
    }
}

/// The remainder `state` with `bytes` taken in one after the other.
pub open spec fn remainder(state: u32, bytes: Seq<u8>) -> u32
    decreases bytes.len(),
{
    if bytes.len() == 0 {
        state
    } else {
        shifted_by(remainder(state, bytes.drop_last()) ^ bytes.last() as u32, 8)
    }
}

/// The CRC-32 (IEEE) checksum of `bytes`: the remainder, with every bit inverted at
/// the start and at the end.
#[verifier::opaque]
pub open spec fn crc32(bytes: Seq<u8>) -> u32 {
    !remainder(!0u32, bytes)
}

/// Taking in a bit loses nothing.
proof fn lemma_shifted_injective(a: u32, b: u32)
    requires
        shifted(a) == shifted(b),
    ensures
        a == b,
{
    assert((if a & 1 == 1 { (a >> 1) ^ 0xedb8_8320u32 } else { a >> 1 }) == (if b & 1 == 1 {
        (b >> 1) ^ 0xedb8_8320u32
    } else {
        b >> 1
    }) ==> a == b) by (bit_vector);
}

/// Taking in any number of bits loses nothing.
proof fn lemma_shifted_by_injective(a: u32, b: u32, bits: nat)
    requires
        shifted_by(a, bits) == shifted_by(b, bits),
    ensures
        a == b,
    decreases bits,
{
    if bits > 0 {
        let fewer = (bits - 1) as nat;
        lemma_shifted_injective(shifted_by(a, fewer), shifted_by(b, fewer));
        lemma_shifted_by_injective(a, b, fewer);
    }
}

/// Bytes alike, taken in behind remainders that differ, leave remainders that differ.
proof fn lemma_remainder_injective(a: u32, b: u32, bytes: Seq<u8>)
    requires
        remainder(a, bytes) == remainder(b, bytes),
    ensures
        a == b,
    decreases bytes.len(),
{
    if bytes.len() > 0 {
        let rest_a = remainder(a, bytes.drop_last());
        let rest_b = remainder(b, bytes.drop_last());
        let last = bytes.last() as u32;
        lemma_shifted_by_injective(rest_a ^ last, rest_b ^ last, 8);
        assert(rest_a ^ last == rest_b ^ last ==> rest_a == rest_b) by (bit_vector);
        lemma_remainder_injective(a, b, bytes.drop_last());
    }
}

/// The checksum of nothing is zero.
pub proof fn law_nothing_has_checksum_zero()
    ensures
        crc32(Seq::empty()) == 0,
{
    reveal(crc32);
    assert(!!0u32 == 0) by (bit_vector);
}

/// What one byte more does to a checksum: inverted, and with that byte on its low eight bits,
/// it is shifted down by eight bits, each time with the polynomial on it where a one drops
/// out, and inverted again.
pub proof fn law_checksum_byte_by_byte(bytes: Seq<u8>, byte: u8)
    ensures
        ({
            let s0 = !crc32(bytes) ^ (byte as u32);
            let s1 = if s0 & 1 == 1 { (s0 >> 1) ^ 0xedb8_8320u32 } else { s0 >> 1 };
            let s2 = if s1 & 1 == 1 { (s1 >> 1) ^ 0xedb8_8320u32 } else { s1 >> 1 };
            let s3 = if s2 & 1 == 1 { (s2 >> 1) ^ 0xedb8_8320u32 } else { s2 >> 1 };
            let s4 = if s3 & 1 == 1 { (s3 >> 1) ^ 0xedb8_8320u32 } else { s3 >> 1 };
            let s5 = if s4 & 1 == 1 { (s4 >> 1) ^ 0xedb8_8320u32 } else { s4 >> 1 };
            let s6 = if s5 & 1 == 1 { (s5 >> 1) ^ 0xedb8_8320u32 } else { s5 >> 1 };
            let s7 = if s6 & 1 == 1 { (s6 >> 1) ^ 0xedb8_8320u32 } else { s6 >> 1 };
            let s8 = if s7 & 1 == 1 { (s7 >> 1) ^ 0xedb8_8320u32 } else { s7 >> 1 };
            crc32(bytes.push(byte)) == !s8
        }),
{
    reveal(crc32);
    reveal_with_fuel(shifted_by, 9);
    let before = remainder(!0u32, bytes);
    assert(!!before == before) by (bit_vector);
    assert(bytes.push(byte).drop_last() =~= bytes);
}

/// A checksum can be taken part by part.
pub proof fn law_remainder_in_parts(state: u32, head: Seq<u8>, tail: Seq<u8>)
    ensures
        remainder(state, head + tail) == remainder(remainder(state, head), tail),
    decreases tail.len(),
{
    if tail.len() == 0 {
        assert(head + tail =~= head);
    } else {
        assert((head + tail).drop_last() =~= head + tail.drop_last());
        law_remainder_in_parts(state, head, tail.drop_last());
    }
}

/// One altered byte alters the checksum, wherever it is and however many bytes there
/// are.
pub proof fn law_altered_byte_alters_checksum(bytes: Seq<u8>, at: int, byte: u8)
    requires
        0 <= at < bytes.len(),
        bytes[at] != byte,
    ensures
        crc32(bytes.update(at, byte)) != crc32(bytes),
{
    reveal(crc32);
    let head = bytes.take(at);
    let tail = bytes.skip(at + 1);
    let was = bytes[at];
    let before = remainder(!0u32, head);
    assert(bytes =~= head.push(was) + tail);
    assert(bytes.update(at, byte) =~= head.push(byte) + tail);
    law_remainder_in_parts(!0u32, head.push(was), tail);
    law_remainder_in_parts(!0u32, head.push(byte), tail);
    assert(head.push(was).drop_last() =~= head);
    assert(head.push(byte).drop_last() =~= head);
    let a = remainder(!0u32, head.push(was));
    let b = remainder(!0u32, head.push(byte));
    let end_a = remainder(a, tail);
    let end_b = remainder(b, tail);
    if !end_a == !end_b {
        assert(!end_a == !end_b ==> end_a == end_b) by (bit_vector);
        lemma_remainder_injective(a, b, tail);
        lemma_shifted_by_injective(before ^ was as u32, before ^ byte as u32, 8);
        assert(before ^ was as u32 == before ^ byte as u32 ==> was == byte) by (bit_vector);
    }
}

} // verus!
