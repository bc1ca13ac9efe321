//! Reading the bits and children of a node in order.
use crate::bits::{bits_uint, lemma_bits_uint_bound, lemma_pow2_128, read_uint};
use crate::cell::{Cell, Payload, UInt256, MAX_DATA_BITS, MAX_REFERENCES};
use crate::error::BlockError;
use vstd::prelude::*;

verus! {

impl Payload {
    /// The first bit and what follows it.
    pub open spec fn take_bit(self) -> Result<(bool, Payload), BlockError> {
        if self.bits.len() >= 1 {
            Ok((self.bits[0], Payload { bits: self.bits.skip(1), refs: self.refs }))
        } else {
            Err(BlockError::CellUnderflow)
        }
    }

    /// The number that the first `n` bits denote, and what follows them.
    pub open spec fn take_uint(self, n: nat) -> Result<(nat, Payload), BlockError> {
        if self.bits.len() >= n {
            Ok(
                (
                    bits_uint(self.bits.take(n as int)),
                    Payload { bits: self.bits.skip(n as int), refs: self.refs },
                ),
            )
        } else {
            Err(BlockError::CellUnderflow)
        }
    }

    /// The value that the first 256 bits denote, and what follows them.
    pub open spec fn take_hash(self) -> Result<(UInt256, Payload), BlockError> {
        if self.bits.len() >= 256 {
            Ok(
                (
                    UInt256 {
                        hi: bits_uint(self.bits.subrange(0, 128)) as u128,
                        lo: bits_uint(self.bits.subrange(128, 256)) as u128,
                    },
                    Payload { bits: self.bits.skip(256), refs: self.refs },
                ),
            )
        } else {
            Err(BlockError::CellUnderflow)
        }
    }

    /// The first child and what follows it.
    pub open spec fn take_ref(self) -> Result<(Cell, Payload), BlockError> {
        if self.refs.len() >= 1 {
            Ok((self.refs[0], Payload { bits: self.bits, refs: self.refs.skip(1) }))
        } else {
            Err(BlockError::CellUnderflow)
        }
    }
}

/// A reader over the bits and children of a node.
pub struct SliceData {
    cell: Cell,
    bit_pos: usize,
    ref_pos: usize,
}

impl View for SliceData {
    type V = Payload;

    /// What is left to read.
    closed spec fn view(&self) -> Payload {
        Payload {
            bits: self.cell.bits().skip(self.bit_pos as int),
            refs: self.cell.refs().skip(self.ref_pos as int),
        }
    }
}

impl SliceData {
    #[verifier::type_invariant]
    spec fn inv(self) -> bool {
        &&& self.bit_pos <= self.cell.bits().len() <= MAX_DATA_BITS
        &&& self.ref_pos <= self.cell.refs().len() <= MAX_REFERENCES
    }

    pub closed spec fn spec_cell(&self) -> Cell {
        self.cell
    }

    pub closed spec fn spec_bit_position(&self) -> usize {
        self.bit_pos
    }

    pub closed spec fn spec_reference_position(&self) -> usize {
        self.ref_pos
    }

    /// A reader at the start of `cell`. A placeholder holds nothing to read.
    pub fn load_cell(cell: Cell) -> (r: Result<SliceData, BlockError>)
        ensures
            cell.is_pruned() ==> r == Err::<SliceData, BlockError>(BlockError::PrunedCellAccess),
            !cell.is_pruned() ==> r is Ok && r->Ok_0@ == cell.payload() && r->Ok_0.spec_cell()
                == cell && cell.node_ok(),
    {
        if cell.is_pruned_branch() {
            return Err(BlockError::PrunedCellAccess);
        }
        let n = cell.bit_length();
        let k = cell.references_count();
        let s = SliceData { cell, bit_pos: 0, ref_pos: 0 };
        assert(s@.bits =~= cell.bits());
        assert(s@.refs =~= cell.refs());
        Ok(s)
    }

    /// The node that is read.
    pub fn cell(&self) -> (c: &Cell)
        ensures
            *c == self.spec_cell(),
            self@.bits == c.bits().skip(self.spec_bit_position() as int),
            self@.refs == c.refs().skip(self.spec_reference_position() as int),
            self.spec_bit_position() <= c.bits().len(),
            self.spec_reference_position() <= c.refs().len(),
    {
        proof {
            use_type_invariant(self);
        }
        &self.cell
    }

    pub fn bit_position(&self) -> (n: usize)
        ensures
            n == self.spec_bit_position(),
    {
        self.bit_pos
    }

    pub fn reference_position(&self) -> (n: usize)
        ensures
            n == self.spec_reference_position(),
    {
        self.ref_pos
    }

    pub fn remaining_bits(&self) -> (n: usize)
        ensures
            n == self@.bits.len(),
            n <= MAX_DATA_BITS,
    {
        proof {
            use_type_invariant(self);
        }
        self.cell.bit_length() - self.bit_pos
    }

    pub fn remaining_references(&self) -> (n: usize)
        ensures
            n == self@.refs.len(),
            n <= MAX_REFERENCES,
    {
        proof {
            use_type_invariant(self);
        }
        self.cell.references_count() - self.ref_pos
    }

    /// Reads one bit.
    pub fn get_next_bit(&mut self) -> (r: Result<bool, BlockError>)
        ensures
            match old(self)@.take_bit() {
                Ok((bit, rest)) => r == Ok::<bool, BlockError>(bit) && final(self)@ == rest,
                Err(e) => r == Err::<bool, BlockError>(e) && final(self)@ == old(self)@,
            },
            final(self).spec_cell() == old(self).spec_cell(),
    {
        proof {
            use_type_invariant(&*self);
        }
        if self.bit_pos >= self.cell.bit_length() {
            return Err(BlockError::CellUnderflow);
        }
        let bit = self.cell.data()[self.bit_pos];
        self.bit_pos = self.bit_pos + 1;
        assert(self@.bits =~= old(self)@.bits.skip(1));
        Ok(bit)
    }

    /// Reads a number of `n` bits, most significant bit first.
    pub fn get_next_uint(&mut self, n: usize) -> (r: Result<u128, BlockError>)
        requires
            n <= 128,
        ensures
            match old(self)@.take_uint(n as nat) {
                Ok((v, rest)) => r == Ok::<u128, BlockError>(v as u128) && v <= u128::MAX
                    && final(self)@ == rest,
                Err(e) => r == Err::<u128, BlockError>(e) && final(self)@ == old(self)@,
            },
            final(self).spec_cell() == old(self).spec_cell(),
    {
        proof {
            use_type_invariant(&*self);
        }
        if n > self.cell.bit_length() - self.bit_pos {
            return Err(BlockError::CellUnderflow);
        }
        let v = read_uint(self.cell.data(), self.bit_pos, n);
        proof {
            assert(old(self)@.bits.take(n as int) =~= self.cell.bits().subrange(
                self.bit_pos as int,
                self.bit_pos + n,
            ));
        }
        self.bit_pos = self.bit_pos + n;
        assert(self@.bits =~= old(self)@.bits.skip(n as int));
        Ok(v)
    }

    /// Reads a number of `n` bits, `n` at most 64.
    pub fn get_next_int(&mut self, n: usize) -> (r: Result<u64, BlockError>)
        requires
            n <= 64,
        ensures
            match old(self)@.take_uint(n as nat) {
                Ok((v, rest)) => r == Ok::<u64, BlockError>(v as u64) && v <= u64::MAX
                    && final(self)@ == rest,
                Err(e) => r == Err::<u64, BlockError>(e) && final(self)@ == old(self)@,
            },
            final(self).spec_cell() == old(self).spec_cell(),
    {
        proof {
            if old(self)@.bits.len() >= n {
                lemma_bits_uint_bound(old(self)@.bits.take(n as int));
                crate::bits::lemma_pow2_le(n as nat, 64);
                lemma_pow2_128();
            }
        }
        match self.get_next_uint(n) {
            Ok(v) => Ok(v as u64),
            Err(e) => Err(e),
        }
    }

    pub fn get_next_u32(&mut self) -> (r: Result<u32, BlockError>)
        ensures
            match old(self)@.take_uint(32) {
                Ok((v, rest)) => r == Ok::<u32, BlockError>(v as u32) && v <= u32::MAX
                    && final(self)@ == rest,
                Err(e) => r == Err::<u32, BlockError>(e) && final(self)@ == old(self)@,
            },
            final(self).spec_cell() == old(self).spec_cell(),
    {
        proof {
            if old(self)@.bits.len() >= 32 {
                lemma_bits_uint_bound(old(self)@.bits.take(32));
                lemma_pow2_128();
            }
        }
        match self.get_next_uint(32) {
            Ok(v) => Ok(v as u32),
            Err(e) => Err(e),
        }
    }

    pub fn get_next_u64(&mut self) -> (r: Result<u64, BlockError>)
        ensures
            match old(self)@.take_uint(64) {
                Ok((v, rest)) => r == Ok::<u64, BlockError>(v as u64) && v <= u64::MAX
                    && final(self)@ == rest,
                Err(e) => r == Err::<u64, BlockError>(e) && final(self)@ == old(self)@,
            },
            final(self).spec_cell() == old(self).spec_cell(),
    {
        self.get_next_int(64)
    }

    /// Reads 256 bits.
    pub fn get_next_hash(&mut self) -> (r: Result<UInt256, BlockError>)
        ensures
            match old(self)@.take_hash() {
                Ok((h, rest)) => r == Ok::<UInt256, BlockError>(h) && final(self)@ == rest,
                Err(e) => r == Err::<UInt256, BlockError>(e) && final(self)@ == old(self)@,
            },
            final(self).spec_cell() == old(self).spec_cell(),
    {
        if self.remaining_bits() < 256 {
            return Err(BlockError::CellUnderflow);
        }
        let ghost before = self@;
        let hi = match self.get_next_uint(128) {
            Ok(v) => v,
            Err(e) => {
                return Err(e);
            },
        };
        let ghost middle = self@;
        let lo = match self.get_next_uint(128) {
            Ok(v) => v,
            Err(e) => {
                return Err(e);
            },
        };
        proof {
            assert(before.bits.take(128) =~= before.bits.subrange(0, 128));
            assert(middle.bits.take(128) =~= before.bits.subrange(128, 256));
            assert(self@.bits =~= before.bits.skip(256));
        }
        Ok(UInt256 { hi, lo })
    }

    /// Takes the next child.
    pub fn checked_drain_reference(&mut self) -> (r: Result<Cell, BlockError>)
        ensures
            match old(self)@.take_ref() {
                Ok((c, rest)) => r == Ok::<Cell, BlockError>(c) && final(self)@ == rest,
                Err(e) => r == Err::<Cell, BlockError>(e) && final(self)@ == old(self)@,
            },
            final(self).spec_cell() == old(self).spec_cell(),
    {
        proof {
            use_type_invariant(&*self);
        }
        match self.cell.reference(self.ref_pos) {
            Some(c) => {
                self.ref_pos = self.ref_pos + 1;
                assert(self@.refs =~= old(self)@.refs.skip(1));
                Ok(c)
            },
            None => Err(BlockError::CellUnderflow),
        }
    }
}

} // verus!
