//! Facts on reading back what was written, shared by the layouts of this library.
use crate::bits::{
    lemma_bits_of_uint, lemma_bits_uint_bound, lemma_pow2_128, lemma_pow2_le, lemma_uint_bits_len,
    uint_bits,
};
use crate::builder::Fragment;
use crate::cell::{Cell, Payload, UInt256};
use crate::error::BlockError;
use crate::slice::SliceData;
use vstd::arithmetic::power2::{lemma_pow2_adds, lemma_pow2_pos, pow2};
use vstd::prelude::*;

verus! {

pub proof fn lemma_concat_assoc(a: Payload, b: Payload, c: Payload)
    ensures
        a.concat(b).concat(c) == a.concat(b.concat(c)),
{
    assert(a.concat(b).concat(c) =~= a.concat(b.concat(c)));
}

pub proof fn lemma_concat_empty(a: Payload)
    ensures
        a.concat(Payload::empty()) == a,
        Payload::empty().concat(a) == a,
{
    assert(a.concat(Payload::empty()) =~= a);
    assert(Payload::empty().concat(a) =~= a);
}

/// A bit that was written is the bit that is read.
pub proof fn lemma_take_bit(bit: bool, rest: Payload)
    ensures
        Payload::of_bits(seq![bit]).concat(rest).take_bit() == Ok::<(bool, Payload), BlockError>(
            (bit, rest),
        ),
{
    let p = Payload::of_bits(seq![bit]).concat(rest);
    assert(p.bits.skip(1) =~= rest.bits);
    assert(p.refs =~= rest.refs);
}

/// A number that was written on `n` bits, and fits into them, is the number that is read.
pub proof fn lemma_take_uint(v: nat, n: nat, rest: Payload)
    requires
        v < pow2(n),
    ensures
        Payload::of_bits(uint_bits(v, n)).concat(rest).take_uint(n) == Ok::<
            (nat, Payload),
            BlockError,
        >((v, rest)),
{
    let p = Payload::of_bits(uint_bits(v, n)).concat(rest);
    lemma_uint_bits_len(v, n);
    lemma_bits_of_uint(v, n);
    assert(p.bits.take(n as int) =~= uint_bits(v, n));
    assert(p.bits.skip(n as int) =~= rest.bits);
    assert(p.refs =~= rest.refs);
}

/// A 256-bit value that was written is the value that is read.
pub proof fn lemma_take_hash(h: UInt256, rest: Payload)
    ensures
        Payload::of_bits(h.bits()).concat(rest).take_hash() == Ok::<(UInt256, Payload), BlockError>(
            (h, rest),
        ),
{
    let p = Payload::of_bits(h.bits()).concat(rest);
    lemma_uint_bits_len(h.hi as nat, 128);
    lemma_uint_bits_len(h.lo as nat, 128);
    lemma_pow2_128();
    lemma_bits_of_uint(h.hi as nat, 128);
    lemma_bits_of_uint(h.lo as nat, 128);
    assert(p.bits.subrange(0, 128) =~= uint_bits(h.hi as nat, 128));
    assert(p.bits.subrange(128, 256) =~= uint_bits(h.lo as nat, 128));
    assert(p.bits.skip(256) =~= rest.bits);
    assert(p.refs =~= rest.refs);
}

/// A child that was written is the child that is read.
pub proof fn lemma_take_ref(cell: Cell, rest: Payload)
    ensures
        Payload::of_ref(cell).concat(rest).take_ref() == Ok::<(Cell, Payload), BlockError>(
            (cell, rest),
        ),
{
    let p = Payload::of_ref(cell).concat(rest);
    assert(p.refs.skip(1) =~= rest.refs);
    assert(p.bits =~= rest.bits);
}

/// The number of bytes that hold `v`: none for zero.
pub open spec fn byte_len(v: nat) -> nat
    decreases v,
{
    if v == 0 {
        0
    } else {
        1 + byte_len(v / 256)
    }
}

pub proof fn lemma_byte_len_holds(v: nat)
    ensures
        v < pow2(8 * byte_len(v)),
    decreases v,
{
    if v == 0 {
        lemma_pow2_pos(0);
    } else {
        lemma_byte_len_holds(v / 256);
        let k = byte_len(v / 256);
        lemma_pow2_adds(8 * k, 8);
        lemma_pow2_128();
        assert(8 * byte_len(v) == 8 * k + 8);
        assert(v < (v / 256 + 1) * 256);
        assert((v / 256 + 1) * 256 <= pow2(8 * k) * 256) by (nonlinear_arith)
            requires
                v / 256 + 1 <= pow2(8 * k),
        ;
    }
}

pub proof fn lemma_byte_len_least(v: nat, k: nat)
    requires
        v < pow2(8 * k),
    ensures
        byte_len(v) <= k,
    decreases v,
{
    if v != 0 {
        if k == 0 {
            lemma_pow2_128();
            assert(pow2(0) == 1) by {
                vstd::arithmetic::power2::lemma2_to64();
            }
        } else {
            lemma_pow2_adds((8 * (k - 1)) as nat, 8);
            lemma_pow2_128();
            assert(8 * k == 8 * (k - 1) + 8);
            let q = pow2((8 * (k - 1)) as nat);
            assert(v / 256 < q) by (nonlinear_arith)
                requires
                    v < q * 256,
            ;
            lemma_byte_len_least(v / 256, (k - 1) as nat);
        }
    }
}

/// A number behind the count of its bytes: the count on `len_bits` bits, then the bytes.
pub open spec fn var_uint_payload(v: nat, len_bits: nat) -> Payload {
    Payload::of_bits(uint_bits(byte_len(v), len_bits) + uint_bits(v, 8 * byte_len(v)))
}

/// Reads a count of bytes on `len_bits` bits and then a number of as many bytes.
pub open spec fn parse_var_uint(p: Payload, len_bits: nat) -> Result<(nat, Payload), BlockError> {
    match p.take_uint(len_bits) {
        Err(e) => Err(e),
        Ok((len, rest)) => rest.take_uint(8 * len),
    }
}

/// The layout of a number of at most `k` bytes has at most `len_bits + 8 * k` bits and
/// no children.
pub proof fn lemma_var_uint_payload_len(v: nat, len_bits: nat, k: nat)
    requires
        v < pow2(8 * k),
    ensures
        var_uint_payload(v, len_bits).bits.len() <= len_bits + 8 * k,
        var_uint_payload(v, len_bits).bits.len() == len_bits + 8 * byte_len(v),
        var_uint_payload(v, len_bits).refs.len() == 0,
{
    lemma_byte_len_least(v, k);
    lemma_uint_bits_len(byte_len(v), len_bits);
    lemma_uint_bits_len(v, 8 * byte_len(v));
}

/// A number that the count can describe is read back as it was written.
pub proof fn lemma_parse_var_uint(v: nat, len_bits: nat, rest: Payload)
    requires
        byte_len(v) < pow2(len_bits),
    ensures
        parse_var_uint(var_uint_payload(v, len_bits).concat(rest), len_bits) == Ok::<
            (nat, Payload),
            BlockError,
        >((v, rest)),
{
    let k = byte_len(v);
    let a = Payload::of_bits(uint_bits(k, len_bits));
    let b = Payload::of_bits(uint_bits(v, 8 * k));
    assert(var_uint_payload(v, len_bits).concat(rest) =~= a.concat(b.concat(rest)));
    lemma_take_uint(k, len_bits, b.concat(rest));
    lemma_byte_len_holds(v);
    lemma_take_uint(v, 8 * k, rest);
}

/// What `parse_var_uint` reads is below two to the power of eight times the largest count.
pub proof fn lemma_parse_var_uint_bound(p: Payload, len_bits: nat)
    requires
        parse_var_uint(p, len_bits) is Ok,
    ensures
        parse_var_uint(p, len_bits)->Ok_0.0 < pow2((8 * (pow2(len_bits) - 1)) as nat),
{
    let (len, rest) = p.take_uint(len_bits)->Ok_0;
    lemma_bits_uint_bound(p.bits.take(len_bits as int));
    lemma_bits_uint_bound(rest.bits.take((8 * len) as int));
    lemma_pow2_le(8 * len, (8 * (pow2(len_bits) - 1)) as nat);
}

fn byte_length(v: u128) -> (n: usize)
    ensures
        n == byte_len(v as nat),
        n <= 16,
{
    let mut rem: u128 = v;
    let mut n: usize = 0;
    proof {
        lemma_pow2_128();
        lemma_byte_len_least(v as nat, 16);
    }
    while rem != 0
        invariant
            n + byte_len(rem as nat) == byte_len(v as nat),
            byte_len(v as nat) <= 16,
        decreases rem,
    {
        rem = rem / 256;
        n = n + 1;
    }
    n
}

/// Appends `v` behind the count of its bytes.
pub fn push_var_uint(out: &mut Fragment, v: u128, len_bits: usize)
    requires
        len_bits <= 8,
    ensures
        final(out)@ == old(out)@.concat(var_uint_payload(v as nat, len_bits as nat)),
{
    let k = byte_length(v);
    out.push_uint(k as u128, len_bits);
    out.push_uint(v, 8 * k);
    assert(out@ =~= old(out)@.concat(var_uint_payload(v as nat, len_bits as nat)));
}

/// Reads a number behind the count of its bytes.
pub fn read_var_uint(slice: &mut SliceData, len_bits: usize) -> (r: Result<u128, BlockError>)
    requires
        len_bits <= 4,
    ensures
        match parse_var_uint(old(slice)@, len_bits as nat) {
            Ok((v, rest)) => r == Ok::<u128, BlockError>(v as u128) && v <= u128::MAX
                    && final(slice)@ == rest,
            Err(e) => r == Err::<u128, BlockError>(e),
        },
{
    let ghost p = slice@;
    let len = match slice.get_next_uint(len_bits) {
        Ok(v) => v,
        Err(e) => {
            return Err(e);
        },
    };
    proof {
        lemma_bits_uint_bound(p.bits.take(len_bits as int));
        lemma_pow2_le(len_bits as nat, 4);
        vstd::arithmetic::power2::lemma2_to64();
    }
    slice.get_next_uint(8 * (len as usize))
}

} // verus!
