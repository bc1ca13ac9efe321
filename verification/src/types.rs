//! Amounts and small numbers, and the layouts in which they are written.
use crate::bits::{lemma_bits_uint_bound, lemma_pow2_128, uint_bits};
use crate::builder::{BuilderData, Fragment, Serializable};
use crate::cell::{Cell, Payload};
use crate::codec::{
    lemma_byte_len_least, lemma_concat_assoc, lemma_parse_var_uint, lemma_parse_var_uint_bound,
    lemma_take_bit, lemma_take_ref, lemma_take_uint, parse_var_uint, push_var_uint, read_var_uint,
    var_uint_payload,
};
use crate::error::BlockError;
use crate::slice::SliceData;
use vstd::arithmetic::power2::lemma2_to64;
use vstd::prelude::*;

verus! {

/// The largest count that `VarUInteger7` holds: seven bytes.
pub const MAX_VAR_UINT7: u64 = 0xff_ffff_ffff_ffff;

/// The largest native amount: fifteen bytes.
pub const MAX_GRAMS: u128 = 0xff_ffff_ffff_ffff_ffff_ffff_ffff_ffff;

/// A count of at most seven bytes, written behind a three-bit length.
#[derive(Clone, Copy, Debug, PartialEq, Eq, Structural, PartialOrd, Ord)]
pub struct VarUInteger7 {
    value: u64,
}

impl View for VarUInteger7 {
    type V = nat;

    closed spec fn view(&self) -> nat {
        self.value as nat
    }
}

impl VarUInteger7 {
    #[verifier::type_invariant]
    spec fn inv(self) -> bool {
        self.value <= MAX_VAR_UINT7
    }

    /// Whether the count is within its bound, as every count that a program holds is.
    pub closed spec fn wf(&self) -> bool {
        self.value <= MAX_VAR_UINT7
    }

    /// The count with the given value.
    pub closed spec fn of(v: nat) -> VarUInteger7 {
        VarUInteger7 { value: v as u64 }
    }

    pub proof fn lemma_of(v: nat)
        requires
            v <= MAX_VAR_UINT7,
        ensures
            Self::of(v)@ == v,
            Self::of(v).wf(),
    {
    }

    pub proof fn lemma_of_view(self)
        requires
            self.wf(),
        ensures
            Self::of(self@) == self,
            self@ <= MAX_VAR_UINT7,
    {
    }

    /// Two counts of the same value are the same count.
    pub proof fn lemma_view_injective(self, other: VarUInteger7)
        requires
            self@ == other@,
        ensures
            self == other,
    {
    }

    pub fn default() -> (r: VarUInteger7)
        ensures
            r@ == 0,
            r.wf(),
    {
        VarUInteger7 { value: 0 }
    }

    /// The count `value`, which fails where `value` needs more than seven bytes.
    pub fn new(value: u64) -> (r: Result<VarUInteger7, BlockError>)
        ensures
            value <= MAX_VAR_UINT7 ==> r is Ok && r->Ok_0@ == value && r->Ok_0.wf(),
            value > MAX_VAR_UINT7 ==> r == Err::<VarUInteger7, BlockError>(
                BlockError::IntegerOverflow,
            ),
    {
        if value > MAX_VAR_UINT7 {
            Err(BlockError::IntegerOverflow)
        } else {
            Ok(VarUInteger7 { value })
        }
    }

    pub fn as_u64(&self) -> (v: u64)
        ensures
            v == self@,
            v <= MAX_VAR_UINT7,
            self.wf(),
    {
        proof {
            use_type_invariant(self);
        }
        self.value
    }

    /// Adds `other` where the sum is within the bound, and says whether it did. Where
    /// the sum is not, the count stays as it is.
    pub fn add_checked(&mut self, other: u64) -> (done: bool)
        ensures
            done == (old(self)@ + other <= MAX_VAR_UINT7),
            done ==> final(self)@ == old(self)@ + other,
            !done ==> *final(self) == *old(self),
            final(self).wf(),
    {
        proof {
            use_type_invariant(&*self);
        }
        if other > MAX_VAR_UINT7 || self.value > MAX_VAR_UINT7 - other {
            false
        } else {
            self.value = self.value + other;
            true
        }
    }

    /// The layout: the number of bytes on three bits, then the bytes.
    pub open spec fn payload(&self) -> Payload {
        var_uint_payload(self@, 3)
    }

    #[verifier::opaque]
    pub open spec fn parse(p: Payload) -> Result<(VarUInteger7, Payload), BlockError> {
        match parse_var_uint(p, 3) {
            Ok((v, rest)) => Ok((Self::of(v), rest)),
            Err(e) => Err(e),
        }
    }

    pub proof fn lemma_parse_payload(self, rest: Payload)
        requires
            self.wf(),
        ensures
            Self::parse(self.payload().concat(rest)) == Ok::<(VarUInteger7, Payload), BlockError>(
                (self, rest),
            ),
    {
        reveal(VarUInteger7::parse);
        lemma_pow2_128();
        lemma2_to64();
        lemma_byte_len_least(self@, 7);
        lemma_parse_var_uint(self@, 3, rest);
    }

    /// The layout has at most 59 bits and no children.
    pub proof fn lemma_payload_len(self)
        requires
            self.wf(),
        ensures
            self.payload().bits.len() <= 59,
            self.payload().refs.len() == 0,
    {
        lemma_pow2_128();
        crate::codec::lemma_var_uint_payload_len(self@, 3, 7);
    }

    /// What is read is a count within its bound.
    pub proof fn lemma_parse_wf(p: Payload)
        requires
            Self::parse(p) is Ok,
        ensures
            Self::parse(p)->Ok_0.0.wf(),
            Self::parse(p)->Ok_0.0@ == parse_var_uint(p, 3)->Ok_0.0,
    {
        reveal(VarUInteger7::parse);
        lemma_parse_var_uint_bound(p, 3);
        lemma_pow2_128();
        lemma2_to64();
    }

    pub fn encode(&self, out: &mut Fragment)
        ensures
            final(out)@ == old(out)@.concat(self.payload()),
    {
        push_var_uint(out, self.value as u128, 3);
    }

    pub fn construct_from(slice: &mut SliceData) -> (r: Result<VarUInteger7, BlockError>)
        ensures
            match Self::parse(old(slice)@) {
                Ok((v, rest)) => r == Ok::<VarUInteger7, BlockError>(v) && final(slice)@ == rest,
                Err(e) => r == Err::<VarUInteger7, BlockError>(e),
            },
    {
        proof {
            reveal(VarUInteger7::parse);
        }
        proof {
            if parse_var_uint(slice@, 3) is Ok {
                lemma_parse_var_uint_bound(slice@, 3);
                lemma_pow2_128();
                lemma2_to64();
            }
        }
        match read_var_uint(slice, 3) {
            Ok(v) => Ok(VarUInteger7 { value: v as u64 }),
            Err(e) => Err(e),
        }
    }

    /// Appends the layout to `builder`, or fails and changes nothing where it does not
    /// fit.
    pub fn write_to(&self, builder: &mut BuilderData) -> (r: Result<(), BlockError>)
        ensures
            old(builder)@.concat(self.payload()).fits() ==> r is Ok && final(builder)@
                == old(builder)@.concat(self.payload()),
            !old(builder)@.concat(self.payload()).fits() ==> r == Err::<(), BlockError>(
                BlockError::CellOverflow,
            ) && final(builder)@ == old(builder)@,
    {
        let mut f = Fragment::new();
        self.encode(&mut f);
        proof {
            crate::codec::lemma_concat_empty(self.payload());
        }
        builder.append_fragment(&f)
    }
}

/// A native amount of at most fifteen bytes, written behind a four-bit length.
#[derive(Clone, Copy, Debug, PartialEq, Eq, Structural, PartialOrd, Ord)]
pub struct Grams {
    value: u128,
}

impl View for Grams {
    type V = nat;

    closed spec fn view(&self) -> nat {
        self.value as nat
    }
}

impl Grams {
    #[verifier::type_invariant]
    spec fn inv(self) -> bool {
        self.value <= MAX_GRAMS
    }

    /// Whether the amount is within its bound, as every amount that a program holds is.
    pub closed spec fn wf(&self) -> bool {
        self.value <= MAX_GRAMS
    }

    /// The amount with the given value.
    pub closed spec fn of(v: nat) -> Grams {
        Grams { value: v as u128 }
    }

    pub proof fn lemma_of(v: nat)
        requires
            v <= MAX_GRAMS,
        ensures
            Self::of(v)@ == v,
            Self::of(v).wf(),
    {
    }

    pub proof fn lemma_of_view(self)
        requires
            self.wf(),
        ensures
            Self::of(self@) == self,
            self@ <= MAX_GRAMS,
    {
    }

    /// Two amounts of the same value are the same amount.
    pub proof fn lemma_view_injective(self, other: Grams)
        requires
            self@ == other@,
        ensures
            self == other,
    {
    }

    pub fn default() -> (r: Grams)
        ensures
            r@ == 0,
            r.wf(),
    {
        Grams { value: 0 }
    }

    /// The amount `value`, which fails where `value` needs more than fifteen bytes.
    pub fn new(value: u128) -> (r: Result<Grams, BlockError>)
        ensures
            value <= MAX_GRAMS ==> r is Ok && r->Ok_0@ == value && r->Ok_0.wf(),
            value > MAX_GRAMS ==> r == Err::<Grams, BlockError>(BlockError::IntegerOverflow),
    {
        if value > MAX_GRAMS {
            Err(BlockError::IntegerOverflow)
        } else {
            Ok(Grams { value })
        }
    }

    /// The amount `value`: every 64-bit number is within the bound.
    pub fn from_u64(value: u64) -> (r: Grams)
        ensures
            r@ == value,
            r.wf(),
    {
        Grams { value: value as u128 }
    }

    pub fn as_u128(&self) -> (v: u128)
        ensures
            v == self@,
            v <= MAX_GRAMS,
            self.wf(),
    {
        proof {
            use_type_invariant(self);
        }
        self.value
    }

    pub fn is_zero(&self) -> (b: bool)
        ensures
            b == (self@ == 0),
    {
        self.value == 0
    }

    /// The sum of two amounts, held at the largest amount.
    pub open spec fn spec_add(a: nat, b: nat) -> nat {
        if a + b > MAX_GRAMS {
            MAX_GRAMS as nat
        } else {
            a + b
        }
    }

    /// Adds `other`; the sum is held at the largest amount.
    pub fn add(&mut self, other: &Grams)
        ensures
            final(self)@ == Self::spec_add(old(self)@, other@),
            final(self).wf(),
    {
        proof {
            use_type_invariant(&*self);
            use_type_invariant(other);
        }
        let sum = self.value + other.value;
        if sum > MAX_GRAMS {
            self.value = MAX_GRAMS;
        } else {
            self.value = sum;
        }
    }

    /// Takes `other` away where the amount is at least `other`, and says whether it did.
    /// Where it is less, the amount stays as it is.
    pub fn sub(&mut self, other: &Grams) -> (done: bool)
        ensures
            done == (old(self)@ >= other@),
            done ==> final(self)@ == old(self)@ - other@,
            !done ==> *final(self) == *old(self),
            final(self).wf(),
    {
        proof {
            use_type_invariant(&*self);
        }
        if self.value >= other.value {
            self.value = self.value - other.value;
            true
        } else {
            false
        }
    }

    /// The layout: the number of bytes on four bits, then the bytes.
    pub open spec fn payload(&self) -> Payload {
        var_uint_payload(self@, 4)
    }

    #[verifier::opaque]
    pub open spec fn parse(p: Payload) -> Result<(Grams, Payload), BlockError> {
        match parse_var_uint(p, 4) {
            Ok((v, rest)) => Ok((Self::of(v), rest)),
            Err(e) => Err(e),
        }
    }

    pub proof fn lemma_parse_payload(self, rest: Payload)
        requires
            self.wf(),
        ensures
            Self::parse(self.payload().concat(rest)) == Ok::<(Grams, Payload), BlockError>(
                (self, rest),
            ),
    {
        reveal(Grams::parse);
        lemma_pow2_128();
        lemma2_to64();
        lemma_byte_len_least(self@, 15);
        lemma_parse_var_uint(self@, 4, rest);
    }

    /// The layout has at most 124 bits and no children.
    pub proof fn lemma_payload_len(self)
        requires
            self.wf(),
        ensures
            self.payload().bits.len() <= 124,
            self.payload().refs.len() == 0,
    {
        lemma_pow2_128();
        crate::codec::lemma_var_uint_payload_len(self@, 4, 15);
    }

    /// What is read is an amount within its bound.
    pub proof fn lemma_parse_wf(p: Payload)
        requires
            Self::parse(p) is Ok,
        ensures
            Self::parse(p)->Ok_0.0.wf(),
            Self::parse(p)->Ok_0.0@ == parse_var_uint(p, 4)->Ok_0.0,
    {
        reveal(Grams::parse);
        lemma_parse_var_uint_bound(p, 4);
        lemma_pow2_128();
        lemma2_to64();
    }

    pub fn encode(&self, out: &mut Fragment)
        ensures
            final(out)@ == old(out)@.concat(self.payload()),
    {
        push_var_uint(out, self.value, 4);
    }

    pub fn construct_from(slice: &mut SliceData) -> (r: Result<Grams, BlockError>)
        ensures
            match Self::parse(old(slice)@) {
                Ok((v, rest)) => r == Ok::<Grams, BlockError>(v) && final(slice)@ == rest,
                Err(e) => r == Err::<Grams, BlockError>(e),
            },
    {
        proof {
            reveal(Grams::parse);
        }
        proof {
            if parse_var_uint(slice@, 4) is Ok {
                lemma_parse_var_uint_bound(slice@, 4);
                lemma_pow2_128();
                lemma2_to64();
            }
        }
        match read_var_uint(slice, 4) {
            Ok(v) => Ok(Grams { value: v }),
            Err(e) => Err(e),
        }
    }

    /// Appends the layout to `builder`, or fails and changes nothing where it does not
    /// fit.
    pub fn write_to(&self, builder: &mut BuilderData) -> (r: Result<(), BlockError>)
        ensures
            old(builder)@.concat(self.payload()).fits() ==> r is Ok && final(builder)@
                == old(builder)@.concat(self.payload()),
            !old(builder)@.concat(self.payload()).fits() ==> r == Err::<(), BlockError>(
                BlockError::CellOverflow,
            ) && final(builder)@ == old(builder)@,
    {
        let mut f = Fragment::new();
        self.encode(&mut f);
        proof {
            crate::codec::lemma_concat_empty(self.payload());
        }
        builder.append_fragment(&f)
    }
}

/// A number of five bits.
#[derive(Clone, Copy, Debug, PartialEq, Eq, Structural, PartialOrd, Ord)]
pub struct Number5 {
    value: u8,
}

impl View for Number5 {
    type V = nat;

    closed spec fn view(&self) -> nat {
        self.value as nat
    }
}

impl Number5 {
    #[verifier::type_invariant]
    spec fn inv(self) -> bool {
        self.value <= 31
    }

    /// Whether the number is within its bound, as every one that a program holds is.
    pub closed spec fn wf(&self) -> bool {
        self.value <= 31
    }

    pub closed spec fn of(v: nat) -> Number5 {
        Number5 { value: v as u8 }
    }

    pub proof fn lemma_of(v: nat)
        requires
            v <= 31,
        ensures
            Self::of(v)@ == v,
            Self::of(v).wf(),
    {
    }

    pub proof fn lemma_of_view(self)
        requires
            self.wf(),
        ensures
            Self::of(self@) == self,
            self@ <= 31,
    {
    }

    /// The number `value`, which fails where `value` is above 31.
    pub fn new(value: u32) -> (r: Result<Number5, BlockError>)
        ensures
            value <= 31 ==> r is Ok && r->Ok_0@ == value && r->Ok_0.wf(),
            value > 31 ==> r == Err::<Number5, BlockError>(BlockError::IntegerOverflow),
    {
        if value > 31 {
            Err(BlockError::IntegerOverflow)
        } else {
            Ok(Number5 { value: value as u8 })
        }
    }

    pub fn as_u32(&self) -> (v: u32)
        ensures
            v == self@,
            v <= 31,
            self.wf(),
    {
        proof {
            use_type_invariant(self);
        }
        self.value as u32
    }

    /// The layout: five bits.
    pub open spec fn payload(&self) -> Payload {
        Payload::of_bits(uint_bits(self@, 5))
    }

    #[verifier::opaque]
    pub open spec fn parse(p: Payload) -> Result<(Number5, Payload), BlockError> {
        match p.take_uint(5) {
            Ok((v, rest)) => Ok((Self::of(v), rest)),
            Err(e) => Err(e),
        }
    }

    pub proof fn lemma_parse_payload(self, rest: Payload)
        requires
            self.wf(),
        ensures
            Self::parse(self.payload().concat(rest)) == Ok::<(Number5, Payload), BlockError>(
                (self, rest),
            ),
    {
        reveal(Number5::parse);
        lemma2_to64();
        lemma_take_uint(self@, 5, rest);
    }

    pub proof fn lemma_parse_wf(p: Payload)
        requires
            Self::parse(p) is Ok,
        ensures
            Self::parse(p)->Ok_0.0.wf(),
    {
        reveal(Number5::parse);
        lemma_bits_uint_bound(p.bits.take(5));
        lemma2_to64();
    }

    pub fn encode(&self, out: &mut Fragment)
        ensures
            final(out)@ == old(out)@.concat(self.payload()),
    {
        out.push_uint(self.value as u128, 5);
    }

    pub fn construct_from(slice: &mut SliceData) -> (r: Result<Number5, BlockError>)
        ensures
            match Self::parse(old(slice)@) {
                Ok((v, rest)) => r == Ok::<Number5, BlockError>(v) && final(slice)@ == rest,
                Err(e) => r == Err::<Number5, BlockError>(e),
            },
    {
        proof {
            reveal(Number5::parse);
        }
        proof {
            if slice@.take_uint(5) is Ok {
                lemma_bits_uint_bound(slice@.bits.take(5));
                lemma2_to64();
            }
        }
        match slice.get_next_uint(5) {
            Ok(v) => Ok(Number5 { value: v as u8 }),
            Err(e) => Err(e),
        }
    }
}

/// An optional child: a zero bit for none, a one bit and the child otherwise.
pub open spec fn maybe_ref_payload(cell: Option<Cell>) -> Payload {
    match cell {
        None => Payload::of_bits(seq![false]),
        Some(c) => Payload::of_bits(seq![true]).concat(Payload::of_ref(c)),
    }
}

#[verifier::opaque]
pub open spec fn parse_maybe_ref(p: Payload) -> Result<(Option<Cell>, Payload), BlockError> {
    match p.take_bit() {
        Err(e) => Err(e),
        Ok((false, rest)) => Ok((None, rest)),
        Ok((true, rest)) => match rest.take_ref() {
            Err(e) => Err(e),
            Ok((c, rest2)) => Ok((Some(c), rest2)),
        },
    }
}

pub proof fn lemma_parse_maybe_ref(cell: Option<Cell>, rest: Payload)
    ensures
        parse_maybe_ref(maybe_ref_payload(cell).concat(rest)) == Ok::<
            (Option<Cell>, Payload),
            BlockError,
        >((cell, rest)),
{
    reveal(parse_maybe_ref);
    match cell {
        None => {
            lemma_take_bit(false, rest);
        },
        Some(c) => {
            lemma_concat_assoc(Payload::of_bits(seq![true]), Payload::of_ref(c), rest);
            lemma_take_bit(true, Payload::of_ref(c).concat(rest));
            lemma_take_ref(c, rest);
        },
    }
}

pub fn push_maybe_ref(out: &mut Fragment, cell: &Option<Cell>)
    ensures
        final(out)@ == old(out)@.concat(maybe_ref_payload(*cell)),
{
    match cell {
        None => {
            out.push_bit(false);
        },
        Some(c) => {
            out.push_bit(true);
            out.push_reference(c.clone());
            proof {
                lemma_concat_assoc(old(out)@, Payload::of_bits(seq![true]), Payload::of_ref(*c));
            }
        },
    }
}

pub fn read_maybe_ref(slice: &mut SliceData) -> (r: Result<Option<Cell>, BlockError>)
    ensures
        match parse_maybe_ref(old(slice)@) {
            Ok((v, rest)) => r == Ok::<Option<Cell>, BlockError>(v) && final(slice)@ == rest,
            Err(e) => r == Err::<Option<Cell>, BlockError>(e),
        },
{
    proof {
        reveal(parse_maybe_ref);
    }
    if slice.get_next_bit()? {
        let c = slice.checked_drain_reference()?;
        Ok(Some(c))
    } else {
        Ok(None)
    }
}

impl Serializable for Grams {
    open spec fn layout(&self) -> Payload {
        self.payload()
    }

    fn write_into(&self, out: &mut Fragment) {
        self.encode(out);
    }
}

impl Serializable for VarUInteger7 {
    open spec fn layout(&self) -> Payload {
        self.payload()
    }

    fn write_into(&self, out: &mut Fragment) {
        self.encode(out);
    }
}

} // verus!
