//! Big-endian bit strings and the unsigned integers they denote.
use vstd::arithmetic::power2::{
    lemma2_to64, lemma_pow2_adds, lemma_pow2_strictly_increases, lemma_pow2_unfold, pow2,
};
use vstd::prelude::*;

verus! {

/// The `n` low bits of `v`, most significant bit first.
pub open spec fn uint_bits(v: nat, n: nat) -> Seq<bool>
    decreases n,
{
    if n == 0 {
        Seq::empty()
    } else {
        uint_bits(v / 2, (n - 1) as nat).push(v % 2 == 1)
    }
}

/// The number that a bit string denotes, most significant bit first.
pub open spec fn bits_uint(s: Seq<bool>) -> nat
    decreases s.len(),
{
    if s.len() == 0 {
        0
    } else {
        2 * bits_uint(s.drop_last()) + if s.last() {
            1nat
        } else {
            0nat
        }
    }
}

pub proof fn lemma_uint_bits_len(v: nat, n: nat)
    ensures
        uint_bits(v, n).len() == n,
    decreases n,
{
    if n > 0 {
        lemma_uint_bits_len(v / 2, (n - 1) as nat);
    }
}

pub proof fn lemma_bits_uint_bound(s: Seq<bool>)
    ensures
        bits_uint(s) < pow2(s.len()),
    decreases s.len(),
{
    if s.len() == 0 {
        lemma2_to64();
    } else {
        lemma_bits_uint_bound(s.drop_last());
        lemma_pow2_unfold(s.len());
    }
}

/// Writing a number that fits into `n` bits and reading it back gives the number.
pub proof fn lemma_bits_of_uint(v: nat, n: nat)
    requires
        v < pow2(n),
    ensures
        bits_uint(uint_bits(v, n)) == v,
    decreases n,
{
    if n == 0 {
        lemma2_to64();
    } else {
        lemma_pow2_unfold(n);
        lemma_bits_of_uint(v / 2, (n - 1) as nat);
        let s = uint_bits(v, n);
        assert(s.drop_last() =~= uint_bits(v / 2, (n - 1) as nat));
    }
}

/// Reading a bit string as a number and writing it on as many bits gives the bit string.
pub proof fn lemma_uint_of_bits(s: Seq<bool>)
    ensures
        uint_bits(bits_uint(s), s.len()) == s,
    decreases s.len(),
{
    if s.len() > 0 {
        lemma_uint_of_bits(s.drop_last());
        let v = bits_uint(s);
        assert(v / 2 == bits_uint(s.drop_last()));
        assert((v % 2 == 1) == s.last());
        assert(uint_bits(v, s.len()) =~= s);
    }
}

/// Two numbers that fit into `n` bits and have the same `n` bits are the same number.
pub proof fn lemma_uint_bits_injective(a: nat, b: nat, n: nat)
    requires
        a < pow2(n),
        b < pow2(n),
        uint_bits(a, n) == uint_bits(b, n),
    ensures
        a == b,
{
    lemma_bits_of_uint(a, n);
    lemma_bits_of_uint(b, n);
}

pub proof fn lemma_pow2_128()
    ensures
        pow2(128) == 0x1_0000_0000_0000_0000_0000_0000_0000_0000,
        pow2(64) == 0x1_0000_0000_0000_0000,
        pow2(120) == 0x100_0000_0000_0000_0000_0000_0000_0000,
        pow2(56) == 0x100_0000_0000_0000,
        pow2(32) == 0x1_0000_0000,
        pow2(8) == 0x100,
{
    lemma2_to64();
    vstd::arithmetic::power2::lemma2_to64_rest();
    lemma_pow2_adds(64, 64);
    lemma_pow2_adds(64, 56);
}

pub proof fn lemma_pow2_le(a: nat, b: nat)
    requires
        a <= b,
    ensures
        pow2(a) <= pow2(b),
{
    if a < b {
        lemma_pow2_strictly_increases(a, b);
    }
}

/// Appends the `n` low bits of `v` to `out`, most significant bit first.
pub fn push_uint(out: &mut Vec<bool>, v: u128, n: usize)
    requires
        n <= 128,
    ensures
        final(out)@ == old(out)@ + uint_bits(v as nat, n as nat),
    decreases n,
{
    if n > 0 {
        push_uint(out, v / 2, n - 1);
        out.push(v % 2 == 1);
        assert(out@ =~= old(out)@ + uint_bits(v as nat, n as nat));
    } else {
        assert(out@ =~= old(out)@ + uint_bits(v as nat, n as nat));
    }
}

/// Reads the number held by the `n` bits of `bits` that start at `pos`.
pub fn read_uint(bits: &Vec<bool>, pos: usize, n: usize) -> (v: u128)
    requires
        n <= 128,
        pos + n <= bits.len(),
    ensures
        v == bits_uint(bits@.subrange(pos as int, pos + n)),
{
    let mut acc: u128 = 0;
    let mut i: usize = 0;
    while i < n
        invariant
            i <= n <= 128,
            pos + n <= bits.len(),
            acc == bits_uint(bits@.subrange(pos as int, pos + i)),
        decreases n - i,
    {
        proof {
            let s = bits@.subrange(pos as int, pos + i + 1);
            assert(s.drop_last() =~= bits@.subrange(pos as int, pos + i));
            assert(s.last() == bits@[pos + i]);
            lemma_bits_uint_bound(s);
            lemma_pow2_le((i + 1) as nat, 128);
            lemma_pow2_128();
        }
        let bit: u128 = if bits[pos + i] {
            1
        } else {
            0
        };
        acc = acc * 2 + bit;
        i = i + 1;
    }
    acc
}

/// Appends the bits of `bits` from the place `from` on to `out`.
pub fn extend_bits(out: &mut Vec<bool>, bits: &Vec<bool>, from: usize)
    requires
        from <= bits.len(),
    ensures
        final(out)@ == old(out)@ + bits@.skip(from as int),
{
    let mut i: usize = from;
    while i < bits.len()
        invariant
            from <= i <= bits.len(),
            out@ == old(out)@ + bits@.subrange(from as int, i as int),
        decreases bits.len() - i,
    {
        out.push(bits[i]);
        assert(out@ =~= old(out)@ + bits@.subrange(from as int, i + 1));
        i = i + 1;
    }
    assert(bits@.subrange(from as int, bits.len() as int) =~= bits@.skip(from as int));
}

} // verus!
