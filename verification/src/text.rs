//! Numbers and hashes as text.
use crate::cell::UInt256;
use vstd::prelude::*;
use vstd::string::*;

verus! {

/// The text of one digit, of a decimal or of a hexadecimal number.
pub open spec fn digit_text(d: nat) -> Seq<char> {
    if d == 0 {
        "0"@
    } else if d == 1 {
        "1"@
    } else if d == 2 {
        "2"@
    } else if d == 3 {
        "3"@
    } else if d == 4 {
        "4"@
    } else if d == 5 {
        "5"@
    } else if d == 6 {
        "6"@
    } else if d == 7 {
        "7"@
    } else if d == 8 {
        "8"@
    } else if d == 9 {
        "9"@
    } else if d == 10 {
        "a"@
    } else if d == 11 {
        "b"@
    } else if d == 12 {
        "c"@
    } else if d == 13 {
        "d"@
    } else if d == 14 {
        "e"@
    } else {
        "f"@
    }
}

fn digit_str(d: u8) -> (s: &'static str)
    ensures
        s@ == digit_text(d as nat),
{
    if d == 0 {
        "0"
    } else if d == 1 {
        "1"
    } else if d == 2 {
        "2"
    } else if d == 3 {
        "3"
    } else if d == 4 {
        "4"
    } else if d == 5 {
        "5"
    } else if d == 6 {
        "6"
    } else if d == 7 {
        "7"
    } else if d == 8 {
        "8"
    } else if d == 9 {
        "9"
    } else if d == 10 {
        "a"
    } else if d == 11 {
        "b"
    } else if d == 12 {
        "c"
    } else if d == 13 {
        "d"
    } else if d == 14 {
        "e"
    } else {
        "f"
    }
}

/// The decimal text of a number, without leading zeros.
pub open spec fn decimal(n: nat) -> Seq<char>
    decreases n,
{
    if n < 10 {
        digit_text(n)
    } else {
        decimal(n / 10) + digit_text(n % 10)
    }
}

/// The hexadecimal text of the `digits` low digits of a number.
pub open spec fn hexadecimal(n: nat, digits: nat) -> Seq<char>
    decreases digits,
{
    if digits == 0 {
        Seq::empty()
    } else {
        hexadecimal(n / 16, (digits - 1) as nat) + digit_text(n % 16)
    }
}

/// The text of a 256-bit value: 64 hexadecimal digits.
pub open spec fn hash_text(h: UInt256) -> Seq<char> {
    hexadecimal(h.hi as nat, 32) + hexadecimal(h.lo as nat, 32)
}

/// Appends the decimal text of `n`.
pub fn push_decimal(out: &mut String, n: u128)
    ensures
        final(out)@ == old(out)@ + decimal(n as nat),
    decreases n,
{
    if n >= 10 {
        push_decimal(out, n / 10);
    }
    out.append(digit_str((n % 10) as u8));
    assert(out@ =~= old(out)@ + decimal(n as nat));
}

/// Appends the hexadecimal text of the `digits` low digits of `n`.
pub fn push_hexadecimal(out: &mut String, n: u128, digits: usize)
    ensures
        final(out)@ == old(out)@ + hexadecimal(n as nat, digits as nat),
    decreases digits,
{
    if digits > 0 {
        push_hexadecimal(out, n / 16, digits - 1);
        out.append(digit_str((n % 16) as u8));
    }
    assert(out@ =~= old(out)@ + hexadecimal(n as nat, digits as nat));
}

/// Appends the text of a 256-bit value.
pub fn push_hash(out: &mut String, h: &UInt256)
    ensures
        final(out)@ == old(out)@ + hash_text(*h),
{
    push_hexadecimal(out, h.hi, 32);
    push_hexadecimal(out, h.lo, 32);
    assert(out@ =~= old(out)@ + hash_text(*h));
}

} // verus!
