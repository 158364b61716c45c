//! Numbers written out as text.

use vstd::prelude::*;
use vstd::string::*;

verus! {

/// The character for a digit below sixteen, in lower case.
pub open spec fn digit(d: nat) -> char {
    if d < 10 {
        (d + 48) as char
    } else {
        (d + 87) as char
    }
}

/// `n` in decimal, with leading zeros up to `width` digits.
pub open spec fn decimal_padded(n: nat, width: nat) -> Seq<char>
    decreases n + width,
{
    if n == 0 && width == 0 {
        Seq::empty()
    } else {
        let left = if width == 0 { 0 } else { (width - 1) as nat };
        decimal_padded(n / 10, left).push(digit(n % 10))
    }
}

/// `n` in decimal.
pub open spec fn decimal(n: nat) -> Seq<char> {
    decimal_padded(n, 1)
}

/// `n` in lower-case hexadecimal, with leading zeros up to `width` digits.
pub open spec fn hex_padded(n: nat, width: nat) -> Seq<char>
    decreases n + width,
{
    if n == 0 && width == 0 {
        Seq::empty()
    } else {
        let left = if width == 0 { 0 } else { (width - 1) as nat };
        hex_padded(n / 16, left).push(digit(n % 16))
    }
}

/// Appends one digit.
fn push_digit(out: &mut String, d: u8)
    requires
        d < 16,
    ensures
        final(out)@ == old(out)@.push(digit(d as nat)),
{
    let text: &str = match d {
        0 => "0",
        1 => "1",
        2 => "2",
        3 => "3",
        4 => "4",
        5 => "5",
        6 => "6",
        7 => "7",
        8 => "8",
        9 => "9",
        10 => "a",
        11 => "b",
        12 => "c",
        13 => "d",
        14 => "e",
        _ => "f",
    };
    proof {
        reveal_strlit("0");
        reveal_strlit("1");
        reveal_strlit("2");
        reveal_strlit("3");
        reveal_strlit("4");
        reveal_strlit("5");
        reveal_strlit("6");
        reveal_strlit("7");
        reveal_strlit("8");
        reveal_strlit("9");
        reveal_strlit("a");
        reveal_strlit("b");
        reveal_strlit("c");
        reveal_strlit("d");
        reveal_strlit("e");
        reveal_strlit("f");
        assert(text@ =~= seq![digit(d as nat)]);
    }
    out.append(text);
    assert(out@ =~= old(out)@.push(digit(d as nat)));
}

/// Appends `n` in decimal, with leading zeros up to `width` digits.
pub fn push_decimal_padded(out: &mut String, n: u64, width: u64)
    ensures
        final(out)@ == old(out)@ + decimal_padded(n as nat, width as nat),
    decreases n + width,
{
    if n == 0 && width == 0 {
        assert(out@ =~= old(out)@ + decimal_padded(0, 0));
    } else {
        let left: u64 = if width == 0 { 0 } else { width - 1 };
        push_decimal_padded(out, n / 10, left);
        push_digit(out, (n % 10) as u8);
        assert(out@ =~= old(out)@ + decimal_padded(n as nat, width as nat));
    }
}

/// Appends `n` in decimal.
pub fn push_decimal(out: &mut String, n: u64)
    ensures
        final(out)@ == old(out)@ + decimal(n as nat),
{
    push_decimal_padded(out, n, 1);
}

/// Appends `n` in lower-case hexadecimal, with leading zeros up to `width` digits.
pub fn push_hex_padded(out: &mut String, n: u32, width: u64)
    ensures
        final(out)@ == old(out)@ + hex_padded(n as nat, width as nat),
    decreases n + width,
{
    if n == 0 && width == 0 {
        assert(out@ =~= old(out)@ + hex_padded(0, 0));
    } else {
        let left: u64 = if width == 0 { 0 } else { width - 1 };
        push_hex_padded(out, n / 16, left);
        push_digit(out, (n % 16) as u8);
        assert(out@ =~= old(out)@ + hex_padded(n as nat, width as nat));
    }
}

} // verus!
