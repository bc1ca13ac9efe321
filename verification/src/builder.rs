//! Gathering the bits and children of a node, and making the node.
use crate::bits::{extend_bits, lemma_uint_bits_len, push_uint, uint_bits};
use crate::cell::{Cell, Payload, UInt256, MAX_DATA_BITS, MAX_REFERENCES};
use crate::error::BlockError;
use crate::slice::SliceData;
use vstd::prelude::*;

verus! {

/// An encoding under construction, of any length.
pub struct Fragment {
    pub bits: Vec<bool>,
    pub refs: Vec<Cell>,
}

impl View for Fragment {
    type V = Payload;

    open spec fn view(&self) -> Payload {
        Payload { bits: self.bits@, refs: self.refs@ }
    }
}

impl Fragment {
    pub fn new() -> (f: Fragment)
        ensures
            f@ == Payload::empty(),
    {
        Fragment { bits: Vec::new(), refs: Vec::new() }
    }

    pub fn push_bit(&mut self, bit: bool)
        ensures
            final(self)@ == old(self)@.concat(Payload::of_bits(seq![bit])),
    {
        self.bits.push(bit);
        assert(self.bits@ =~= old(self).bits@ + seq![bit]);
        assert(self.refs@ =~= old(self).refs@ + Seq::<Cell>::empty());
    }

    /// Appends the `n` low bits of `v`, most significant bit first.
    pub fn push_uint(&mut self, v: u128, n: usize)
        requires
            n <= 128,
        ensures
            final(self)@ == old(self)@.concat(Payload::of_bits(uint_bits(v as nat, n as nat))),
    {
        push_uint(&mut self.bits, v, n);
        assert(self.refs@ =~= old(self).refs@ + Seq::<Cell>::empty());
    }

    pub fn push_hash(&mut self, hash: &UInt256)
        ensures
            final(self)@ == old(self)@.concat(Payload::of_bits(hash.bits())),
    {
        hash.push_bits(&mut self.bits);
        assert(self.refs@ =~= old(self).refs@ + Seq::<Cell>::empty());
    }

    pub fn push_reference(&mut self, cell: Cell)
        ensures
            final(self)@ == old(self)@.concat(Payload::of_ref(cell)),
    {
        self.refs.push(cell);
        assert(self.refs@ =~= old(self).refs@ + seq![cell]);
        assert(self.bits@ =~= old(self).bits@ + Seq::<bool>::empty());
    }
}

fn join_bits(a: &Vec<bool>, b: &Vec<bool>) -> (r: Vec<bool>)
    ensures
        r@ == a@ + b@,
{
    let mut r: Vec<bool> = Vec::new();
    extend_bits(&mut r, a, 0);
    extend_bits(&mut r, b, 0);
    assert(r@ =~= a@ + b@);
    r
}

fn join_cells(a: &Vec<Cell>, b: &Vec<Cell>) -> (r: Vec<Cell>)
    ensures
        r@ == a@ + b@,
{
    let mut r: Vec<Cell> = Vec::new();
    let mut i: usize = 0;
    while i < a.len()
        invariant
            i <= a.len(),
            r@ == a@.subrange(0, i as int),
        decreases a.len() - i,
    {
        r.push(a[i].clone());
        assert(r@ =~= a@.subrange(0, i + 1));
        i = i + 1;
    }
    let mut k: usize = 0;
    while k < b.len()
        invariant
            k <= b.len(),
            r@ == a@ + b@.subrange(0, k as int),
        decreases b.len() - k,
    {
        r.push(b[k].clone());
        assert(r@ =~= a@ + b@.subrange(0, k + 1));
        k = k + 1;
    }
    assert(r@ =~= a@ + b@);
    r
}

/// The bits and children of a node under construction: at most 1023 bits and 4 children.
pub struct BuilderData {
    bits: Vec<bool>,
    refs: Vec<Cell>,
}

impl View for BuilderData {
    type V = Payload;

    closed spec fn view(&self) -> Payload {
        Payload { bits: self.bits@, refs: self.refs@ }
    }
}

impl BuilderData {
    #[verifier::type_invariant]
    spec fn inv(self) -> bool {
        self.bits@.len() <= MAX_DATA_BITS && self.refs@.len() <= MAX_REFERENCES
    }

    pub fn new() -> (b: BuilderData)
        ensures
            b@ == Payload::empty(),
    {
        BuilderData { bits: Vec::new(), refs: Vec::new() }
    }

    /// A builder that holds what is left to read of `slice`.
    pub fn from_slice(slice: &SliceData) -> (b: BuilderData)
        ensures
            b@ == slice@,
    {
        let cell = slice.cell();
        let data = cell.data();
        let mut bits: Vec<bool> = Vec::new();
        let mut refs: Vec<Cell> = Vec::new();
        extend_bits(&mut bits, data, slice.bit_position());
        let n = cell.references_count();
        let mut k: usize = slice.reference_position();
        while k < n
            invariant
                slice.spec_reference_position() <= k <= n <= MAX_REFERENCES,
                n == cell.refs().len(),
                refs@ == cell.refs().subrange(slice.spec_reference_position() as int, k as int),
            decreases n - k,
        {
            match cell.reference(k) {
                Some(child) => {
                    refs.push(child);
                },
                None => {},
            }
            assert(refs@ =~= cell.refs().subrange(slice.spec_reference_position() as int, k + 1));
            k = k + 1;
        }
        assert(bits@ =~= slice@.bits);
        assert(refs@ =~= slice@.refs);
        BuilderData { bits, refs }
    }

    pub fn length_in_bits(&self) -> (n: usize)
        ensures
            n == self@.bits.len(),
            n <= MAX_DATA_BITS,
    {
        proof {
            use_type_invariant(self);
        }
        self.bits.len()
    }

    pub fn references_used(&self) -> (n: usize)
        ensures
            n == self@.refs.len(),
            n <= MAX_REFERENCES,
    {
        proof {
            use_type_invariant(self);
        }
        self.refs.len()
    }

    /// Appends a whole encoding, or fails and changes nothing where it does not fit.
    pub fn append_fragment(&mut self, fragment: &Fragment) -> (r: Result<(), BlockError>)
        ensures
            old(self)@.concat(fragment@).fits() ==> r is Ok && final(self)@ == old(self)@.concat(
                fragment@,
            ),
            !old(self)@.concat(fragment@).fits() ==> r == Err::<(), BlockError>(
                BlockError::CellOverflow,
            ) && final(self)@ == old(self)@,
    {
        proof {
            use_type_invariant(&*self);
        }
        if fragment.bits.len() > MAX_DATA_BITS - self.bits.len() || fragment.refs.len()
            > MAX_REFERENCES - self.refs.len() {
            return Err(BlockError::CellOverflow);
        }
        let bits = join_bits(&self.bits, &fragment.bits);
        let refs = join_cells(&self.refs, &fragment.refs);
        self.bits = bits;
        self.refs = refs;
        Ok(())
    }

    /// Appends one bit, or fails and changes nothing where the builder is full.
    pub fn append_bit_bool(&mut self, bit: bool) -> (r: Result<(), BlockError>)
        ensures
            old(self)@.bits.len() < MAX_DATA_BITS ==> r is Ok && final(self)@ == old(self)@.concat(
                Payload::of_bits(seq![bit]),
            ),
            old(self)@.bits.len() >= MAX_DATA_BITS ==> r == Err::<(), BlockError>(
                BlockError::CellOverflow,
            ) && final(self)@ == old(self)@,
    {
        let mut f = Fragment::new();
        f.push_bit(bit);
        assert(f@.bits =~= seq![bit]);
        assert(f@.refs =~= Seq::<Cell>::empty());
        assert(old(self)@.refs + f@.refs =~= old(self)@.refs);
        proof {
            use_type_invariant(&*self);
        }
        self.append_fragment(&f)
    }

    pub fn append_bit_one(&mut self) -> (r: Result<(), BlockError>)
        ensures
            old(self)@.bits.len() < MAX_DATA_BITS ==> r is Ok && final(self)@ == old(self)@.concat(
                Payload::of_bits(seq![true]),
            ),
            old(self)@.bits.len() >= MAX_DATA_BITS ==> r == Err::<(), BlockError>(
                BlockError::CellOverflow,
            ) && final(self)@ == old(self)@,
    {
        self.append_bit_bool(true)
    }

    pub fn append_bit_zero(&mut self) -> (r: Result<(), BlockError>)
        ensures
            old(self)@.bits.len() < MAX_DATA_BITS ==> r is Ok && final(self)@ == old(self)@.concat(
                Payload::of_bits(seq![false]),
            ),
            old(self)@.bits.len() >= MAX_DATA_BITS ==> r == Err::<(), BlockError>(
                BlockError::CellOverflow,
            ) && final(self)@ == old(self)@,
    {
        self.append_bit_bool(false)
    }

    /// Appends the `n` low bits of `value`, most significant bit first, or fails and
    /// changes nothing where they do not fit.
    pub fn append_bits(&mut self, value: u128, n: usize) -> (r: Result<(), BlockError>)
        requires
            n <= 128,
        ensures
            old(self)@.bits.len() + n <= MAX_DATA_BITS ==> r is Ok && final(self)@
                == old(self)@.concat(Payload::of_bits(uint_bits(value as nat, n as nat))),
            old(self)@.bits.len() + n > MAX_DATA_BITS ==> r == Err::<(), BlockError>(
                BlockError::CellOverflow,
            ) && final(self)@ == old(self)@,
    {
        let mut f = Fragment::new();
        f.push_uint(value, n);
        proof {
            lemma_uint_bits_len(value as nat, n as nat);
            assert(f@.bits =~= uint_bits(value as nat, n as nat));
            assert(f@.refs =~= Seq::<Cell>::empty());
            assert(old(self)@.refs + f@.refs =~= old(self)@.refs);
            use_type_invariant(&*self);
        }
        self.append_fragment(&f)
    }

    pub fn append_u32(&mut self, value: u32) -> (r: Result<(), BlockError>)
        ensures
            old(self)@.bits.len() + 32 <= MAX_DATA_BITS ==> r is Ok && final(self)@
                == old(self)@.concat(Payload::of_bits(uint_bits(value as nat, 32))),
            old(self)@.bits.len() + 32 > MAX_DATA_BITS ==> r == Err::<(), BlockError>(
                BlockError::CellOverflow,
            ) && final(self)@ == old(self)@,
    {
        self.append_bits(value as u128, 32)
    }

    pub fn append_u64(&mut self, value: u64) -> (r: Result<(), BlockError>)
        ensures
            old(self)@.bits.len() + 64 <= MAX_DATA_BITS ==> r is Ok && final(self)@
                == old(self)@.concat(Payload::of_bits(uint_bits(value as nat, 64))),
            old(self)@.bits.len() + 64 > MAX_DATA_BITS ==> r == Err::<(), BlockError>(
                BlockError::CellOverflow,
            ) && final(self)@ == old(self)@,
    {
        self.append_bits(value as u128, 64)
    }

    /// Appends a child, or fails and changes nothing where the builder has four.
    pub fn checked_append_reference(&mut self, cell: Cell) -> (r: Result<(), BlockError>)
        ensures
            old(self)@.refs.len() < MAX_REFERENCES ==> r is Ok && final(self)@ == old(self)@.concat(
                Payload::of_ref(cell),
            ),
            old(self)@.refs.len() >= MAX_REFERENCES ==> r == Err::<(), BlockError>(
                BlockError::CellOverflow,
            ) && final(self)@ == old(self)@,
    {
        proof {
            use_type_invariant(&*self);
        }
        if self.refs.len() >= MAX_REFERENCES {
            return Err(BlockError::CellOverflow);
        }
        let mut one: Vec<Cell> = Vec::new();
        one.push(cell);
        let refs = join_cells(&self.refs, &one);
        self.refs = refs;
        assert(self.refs@ =~= old(self).refs@ + seq![cell]);
        assert(self.bits@ =~= old(self).bits@ + Seq::<bool>::empty());
        Ok(())
    }

    /// Puts a child before the others, or fails and changes nothing where the builder has
    /// four.
    pub fn checked_prepend_reference(&mut self, cell: Cell) -> (r: Result<(), BlockError>)
        ensures
            old(self)@.refs.len() < MAX_REFERENCES ==> r is Ok && final(self)@ == (Payload {
                bits: old(self)@.bits,
                refs: seq![cell] + old(self)@.refs,
            }),
            old(self)@.refs.len() >= MAX_REFERENCES ==> r == Err::<(), BlockError>(
                BlockError::CellOverflow,
            ) && final(self)@ == old(self)@,
    {
        proof {
            use_type_invariant(&*self);
        }
        if self.refs.len() >= MAX_REFERENCES {
            return Err(BlockError::CellOverflow);
        }
        let mut one: Vec<Cell> = Vec::new();
        one.push(cell);
        let refs = join_cells(&one, &self.refs);
        self.refs = refs;
        assert(self.refs@ =~= seq![cell] + old(self).refs@);
        Ok(())
    }

    /// The node that holds what was gathered.
    pub fn into_cell(self) -> (c: Cell)
        ensures
            c.holds(self@),
            c.node_ok(),
    {
        proof {
            use_type_invariant(&self);
        }
        Cell::with_content(self.bits, self.refs)
    }
}

/// A value with a layout: what it writes into a node.
pub trait Serializable {
    /// The bits and children that the value is written as.
    spec fn layout(&self) -> Payload;

    /// Appends the value's layout to `out`.
    fn write_into(&self, out: &mut Fragment)
        ensures
            final(out)@ == old(out)@.concat(self.layout()),
    ;
}

/// Appends the layout of `value` to `builder`, or fails and changes nothing where it does
/// not fit.
pub fn write_to<T: Serializable>(value: &T, builder: &mut BuilderData) -> (r: Result<
    (),
    BlockError,
>)
    ensures
        old(builder)@.concat(value.layout()).fits() ==> r is Ok && final(builder)@
            == old(builder)@.concat(value.layout()),
        !old(builder)@.concat(value.layout()).fits() ==> r == Err::<(), BlockError>(
            BlockError::CellOverflow,
        ) && final(builder)@ == old(builder)@,
{
    let mut f = Fragment::new();
    value.write_into(&mut f);
    assert(f@ =~= value.layout());
    builder.append_fragment(&f)
}

/// The node that holds the layout of `value`. It fails where the layout is longer than
/// one node.
pub fn serialize<T: Serializable>(value: &T) -> (r: Result<Cell, BlockError>)
    ensures
        value.layout().fits() ==> r is Ok && r->Ok_0.holds(value.layout()) && r->Ok_0.node_ok(),
        !value.layout().fits() ==> r == Err::<Cell, BlockError>(BlockError::CellOverflow),
{
    let mut b = BuilderData::new();
    assert(Payload::empty().concat(value.layout()) =~= value.layout());
    match write_to(value, &mut b) {
        Ok(()) => Ok(b.into_cell()),
        Err(e) => Err(e),
    }
}

} // verus!
