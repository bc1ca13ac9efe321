//! Addresses, the initial state of a contract, and what the account model reads of a
//! message.
use crate::bits::{lemma_bits_uint_bound, lemma_pow2_128, lemma_pow2_le, uint_bits};
use crate::builder::{BuilderData, Fragment, Serializable};
use crate::cell::{
    bits_below, cells_below, hash_of, lemma_sat_sum_short, links_of, Cell, Payload, UInt256,
};
use crate::codec::{
    lemma_concat_assoc, lemma_concat_empty, lemma_take_bit, lemma_take_hash, lemma_take_ref,
    lemma_take_uint,
};
use crate::currency::CurrencyCollection;
use crate::dict::{find, hash_key_bits};
use crate::error::BlockError;
use crate::slice::SliceData;
use crate::types::{
    lemma_parse_maybe_ref, maybe_ref_payload, parse_maybe_ref, push_maybe_ref, read_maybe_ref,
    Number5,
};
use vstd::arithmetic::power2::{lemma2_to64, lemma_pow2_unfold, pow2};
use vstd::prelude::*;
use vstd::std_specs::cmp::PartialEqSpecImpl;

verus! {

/// The rewrite prefix of an anycast address: between 1 and 30 bits.
#[derive(Clone, Copy, Debug, PartialEq, Eq, Structural)]
pub struct AnycastInfo {
    depth: u8,
    rewrite_pfx: u32,
}

impl AnycastInfo {
    #[verifier::type_invariant]
    spec fn inv(self) -> bool {
        1 <= self.depth <= 30 && self.rewrite_pfx < pow2(self.depth as nat)
    }

    /// Whether the prefix is as every prefix that a program holds is.
    pub closed spec fn wf(&self) -> bool {
        1 <= self.depth <= 30 && self.rewrite_pfx < pow2(self.depth as nat)
    }

    /// The number of bits of the prefix.
    pub closed spec fn spec_depth(&self) -> nat {
        self.depth as nat
    }

    /// The prefix, as a number of `spec_depth()` bits.
    pub closed spec fn spec_prefix(&self) -> nat {
        self.rewrite_pfx as nat
    }

    pub closed spec fn of(depth: nat, prefix: nat) -> AnycastInfo {
        AnycastInfo { depth: depth as u8, rewrite_pfx: prefix as u32 }
    }

    pub proof fn lemma_of_parts(self)
        requires
            self.wf(),
        ensures
            Self::of(self.spec_depth(), self.spec_prefix()) == self,
            1 <= self.spec_depth() <= 30,
            self.spec_prefix() < pow2(self.spec_depth()),
    {
    }

    pub proof fn lemma_of(depth: nat, prefix: nat)
        requires
            1 <= depth <= 30,
            prefix < pow2(depth),
        ensures
            Self::of(depth, prefix).wf(),
            Self::of(depth, prefix).spec_depth() == depth,
            Self::of(depth, prefix).spec_prefix() == prefix,
    {
        lemma_pow2_le(depth, 32);
        lemma_pow2_128();
    }

    /// The prefix of `depth` bits with the value `rewrite_pfx`. It fails where `depth`
    /// is not between 1 and 30, or `rewrite_pfx` has more than `depth` bits.
    pub fn new(depth: u8, rewrite_pfx: u32) -> (r: Result<AnycastInfo, BlockError>)
        ensures
            (1 <= depth <= 30 && rewrite_pfx < pow2(depth as nat)) ==> r is Ok && r->Ok_0.wf()
                && r->Ok_0.spec_depth() == depth && r->Ok_0.spec_prefix() == rewrite_pfx,
            !(1 <= depth <= 30 && rewrite_pfx < pow2(depth as nat)) ==> r == Err::<
                AnycastInfo,
                BlockError,
            >(BlockError::InvalidData),
    {
        if depth < 1 || depth > 30 {
            return Err(BlockError::InvalidData);
        }
        let mut bound: u64 = 1;
        let mut i: u8 = 0;
        proof {
            lemma2_to64();
        }
        while i < depth
            invariant
                i <= depth <= 30,
                bound == pow2(i as nat),
                bound <= 0x4000_0000,
            decreases depth - i,
        {
            proof {
                lemma_pow2_unfold((i + 1) as nat);
                lemma_pow2_le((i + 1) as nat, 30);
                lemma2_to64();
            }
            bound = bound * 2;
            i = i + 1;
        }
        if rewrite_pfx as u64 >= bound {
            return Err(BlockError::InvalidData);
        }
        Ok(AnycastInfo { depth, rewrite_pfx })
    }

    pub fn depth(&self) -> (d: u8)
        ensures
            d == self.spec_depth(),
            1 <= d <= 30,
            self.wf(),
    {
        proof {
            use_type_invariant(self);
        }
        self.depth
    }

    pub fn rewrite_pfx(&self) -> (p: u32)
        ensures
            p == self.spec_prefix(),
            p < pow2(self.spec_depth()),
            self.wf(),
    {
        proof {
            use_type_invariant(self);
        }
        self.rewrite_pfx
    }

    /// The layout: the number of bits on five bits, then the bits.
    pub open spec fn payload(&self) -> Payload {
        Payload::of_bits(
            uint_bits(self.spec_depth(), 5) + uint_bits(self.spec_prefix(), self.spec_depth()),
        )
    }

    #[verifier::opaque]
    pub open spec fn parse(p: Payload) -> Result<(AnycastInfo, Payload), BlockError> {
        match p.take_uint(5) {
            Err(e) => Err(e),
            Ok((depth, rest)) => if depth < 1 || depth > 30 {
                Err(BlockError::InvalidData)
            } else {
                match rest.take_uint(depth) {
                    Err(e) => Err(e),
                    Ok((prefix, rest2)) => Ok((Self::of(depth, prefix), rest2)),
                }
            },
        }
    }

    pub proof fn lemma_parse_payload(self, rest: Payload)
        requires
            self.wf(),
        ensures
            Self::parse(self.payload().concat(rest)) == Ok::<(AnycastInfo, Payload), BlockError>(
                (self, rest),
            ),
    {
        reveal(AnycastInfo::parse);
        let a = Payload::of_bits(uint_bits(self.spec_depth(), 5));
        let b = Payload::of_bits(uint_bits(self.spec_prefix(), self.spec_depth()));
        assert(self.payload().concat(rest) =~= a.concat(b.concat(rest)));
        lemma2_to64();
        lemma_take_uint(self.spec_depth(), 5, b.concat(rest));
        lemma_take_uint(self.spec_prefix(), self.spec_depth(), rest);
    }

    pub proof fn lemma_parse_wf(p: Payload)
        requires
            Self::parse(p) is Ok,
        ensures
            Self::parse(p)->Ok_0.0.wf(),
    {
        reveal(AnycastInfo::parse);
        let (depth, rest) = p.take_uint(5)->Ok_0;
        lemma_bits_uint_bound(rest.bits.take(depth as int));
        lemma_pow2_le(depth, 32);
        lemma_pow2_128();
    }

    pub fn encode(&self, out: &mut Fragment)
        ensures
            final(out)@ == old(out)@.concat(self.payload()),
    {
        proof {
            use_type_invariant(self);
        }
        out.push_uint(self.depth as u128, 5);
        out.push_uint(self.rewrite_pfx as u128, self.depth as usize);
        assert(out@ =~= old(out)@.concat(self.payload()));
    }

    pub fn construct_from(slice: &mut SliceData) -> (r: Result<AnycastInfo, BlockError>)
        ensures
            match Self::parse(old(slice)@) {
                Ok((v, rest)) => r == Ok::<AnycastInfo, BlockError>(v) && final(slice)@ == rest,
                Err(e) => r == Err::<AnycastInfo, BlockError>(e),
            },
    {
        proof {
            reveal(AnycastInfo::parse);
        }
        let ghost p = slice@;
        let depth = slice.get_next_uint(5)?;
        if depth < 1 || depth > 30 {
            return Err(BlockError::InvalidData);
        }
        let ghost rest = slice@;
        let prefix = slice.get_next_uint(depth as usize)?;
        proof {
            lemma_bits_uint_bound(rest.bits.take(depth as int));
            lemma_pow2_le(depth as nat, 32);
            lemma_pow2_128();
        }
        Ok(AnycastInfo { depth: depth as u8, rewrite_pfx: prefix as u32 })
    }
}

/// The address of an account: a workchain and a 256-bit account identifier, with an
/// optional anycast prefix.
#[derive(Clone, Copy, Debug, PartialEq, Eq, Structural)]
pub struct MsgAddressInt {
    pub anycast: Option<AnycastInfo>,
    pub workchain_id: i8,
    pub address: UInt256,
}

/// A workchain identifier as the eight bits of its two's complement.
pub open spec fn workchain_code(workchain_id: i8) -> nat {
    if workchain_id < 0 {
        (workchain_id + 256) as nat
    } else {
        workchain_id as nat
    }
}

/// The workchain identifier that eight bits denote.
pub open spec fn workchain_of(code: nat) -> i8 {
    if code >= 128 {
        (code - 256) as i8
    } else {
        code as i8
    }
}

impl MsgAddressInt {
    pub open spec fn wf(&self) -> bool {
        self.anycast matches Some(a) ==> a.wf()
    }

    pub fn with_standart(anycast: Option<AnycastInfo>, workchain_id: i8, address: UInt256) -> (r:
        MsgAddressInt)
        ensures
            r.anycast == anycast,
            r.workchain_id == workchain_id,
            r.address == address,
    {
        MsgAddressInt { anycast, workchain_id, address }
    }

    pub fn get_workchain_id(&self) -> (w: i32)
        ensures
            w == self.workchain_id,
    {
        self.workchain_id as i32
    }

    /// The account identifier.
    pub fn get_address(&self) -> (a: UInt256)
        ensures
            a == self.address,
    {
        self.address
    }

    /// The account identifier.
    pub fn address(&self) -> (a: UInt256)
        ensures
            a == self.address,
    {
        self.address
    }

    /// The layout: the bits `10`, the optional anycast prefix behind one bit, the
    /// workchain on eight bits, the account identifier on 256 bits.
    pub open spec fn anycast_payload(anycast: Option<AnycastInfo>) -> Payload {
        match anycast {
            None => Payload::of_bits(seq![false]),
            Some(a) => Payload::of_bits(seq![true]).concat(a.payload()),
        }
    }

    pub open spec fn payload(&self) -> Payload {
        Payload::of_bits(uint_bits(2, 2)).concat(Self::anycast_payload(self.anycast)).concat(
            Payload::of_bits(uint_bits(workchain_code(self.workchain_id), 8)),
        ).concat(Payload::of_bits(self.address.bits()))
    }

    #[verifier::opaque]
    pub open spec fn parse_anycast(p: Payload) -> Result<
        (Option<AnycastInfo>, Payload),
        BlockError,
    > {
        match p.take_bit() {
            Err(e) => Err(e),
            Ok((false, rest)) => Ok((None, rest)),
            Ok((true, rest)) => match AnycastInfo::parse(rest) {
                Err(e) => Err(e),
                Ok((a, rest2)) => Ok((Some(a), rest2)),
            },
        }
    }

    #[verifier::opaque]
    pub open spec fn parse(p: Payload) -> Result<(MsgAddressInt, Payload), BlockError> {
        match p.take_uint(2) {
            Err(e) => Err(e),
            Ok((tag, rest)) => if tag != 2 {
                Err(BlockError::InvalidConstructorTag { tag: tag as u32 })
            } else {
                match Self::parse_anycast(rest) {
                    Err(e) => Err(e),
                    Ok((anycast, rest2)) => match rest2.take_uint(8) {
                        Err(e) => Err(e),
                        Ok((code, rest3)) => match rest3.take_hash() {
                            Err(e) => Err(e),
                            Ok((address, rest4)) => Ok(
                                (
                                    MsgAddressInt {
                                        anycast,
                                        workchain_id: workchain_of(code),
                                        address,
                                    },
                                    rest4,
                                ),
                            ),
                        },
                    },
                }
            },
        }
    }

    pub proof fn lemma_parse_anycast(anycast: Option<AnycastInfo>, rest: Payload)
        requires
            anycast matches Some(a) ==> a.wf(),
        ensures
            Self::parse_anycast(Self::anycast_payload(anycast).concat(rest)) == Ok::<
                (Option<AnycastInfo>, Payload),
                BlockError,
            >((anycast, rest)),
    {
        reveal(MsgAddressInt::parse_anycast);
        match anycast {
            None => {
                lemma_take_bit(false, rest);
            },
            Some(a) => {
                lemma_concat_assoc(Payload::of_bits(seq![true]), a.payload(), rest);
                lemma_take_bit(true, a.payload().concat(rest));
                a.lemma_parse_payload(rest);
            },
        }
    }

    pub proof fn lemma_parse_payload(self, rest: Payload)
        requires
            self.wf(),
        ensures
            Self::parse(self.payload().concat(rest)) == Ok::<(MsgAddressInt, Payload), BlockError>(
                (self, rest),
            ),
    {
        reveal(MsgAddressInt::parse);
        reveal(MsgAddressInt::parse_anycast);
        let tag = Payload::of_bits(uint_bits(2, 2));
        let any = Self::anycast_payload(self.anycast);
        let wc = Payload::of_bits(uint_bits(workchain_code(self.workchain_id), 8));
        let addr = Payload::of_bits(self.address.bits());
        let r3 = addr.concat(rest);
        let r2 = wc.concat(r3);
        let r1 = any.concat(r2);
        lemma_concat_assoc(tag.concat(any).concat(wc), addr, rest);
        lemma_concat_assoc(tag.concat(any), wc, r3);
        lemma_concat_assoc(tag, any, r2);
        assert(self.payload().concat(rest) == tag.concat(r1));
        lemma2_to64();
        lemma_take_uint(2, 2, r1);
        Self::lemma_parse_anycast(self.anycast, r2);
        lemma_take_uint(workchain_code(self.workchain_id), 8, r3);
        lemma_take_hash(self.address, rest);
    }

    pub proof fn lemma_parse_wf(p: Payload)
        requires
            Self::parse(p) is Ok,
        ensures
            Self::parse(p)->Ok_0.0.wf(),
    {
        reveal(MsgAddressInt::parse);
        reveal(MsgAddressInt::parse_anycast);
        let (tag, rest) = p.take_uint(2)->Ok_0;
        let (bit, rest1) = rest.take_bit()->Ok_0;
        if bit {
            AnycastInfo::lemma_parse_wf(rest1);
        }
    }

    fn encode_anycast(anycast: &Option<AnycastInfo>, out: &mut Fragment)
        ensures
            final(out)@ == old(out)@.concat(Self::anycast_payload(*anycast)),
    {
        match anycast {
            None => {
                out.push_bit(false);
            },
            Some(a) => {
                out.push_bit(true);
                a.encode(out);
                proof {
                    lemma_concat_assoc(old(out)@, Payload::of_bits(seq![true]), a.payload());
                }
            },
        }
    }

    pub fn encode(&self, out: &mut Fragment)
        ensures
            final(out)@ == old(out)@.concat(self.payload()),
    {
        out.push_uint(2, 2);
        Self::encode_anycast(&self.anycast, out);
        let code: u8 = if self.workchain_id < 0 {
            (self.workchain_id as i16 + 256) as u8
        } else {
            self.workchain_id as u8
        };
        out.push_uint(code as u128, 8);
        out.push_hash(&self.address);
        proof {
            let tag = Payload::of_bits(uint_bits(2, 2));
            let any = Self::anycast_payload(self.anycast);
            let wc = Payload::of_bits(uint_bits(workchain_code(self.workchain_id), 8));
            let addr = Payload::of_bits(self.address.bits());
            lemma_concat_assoc(old(out)@, tag, any);
            lemma_concat_assoc(old(out)@, tag.concat(any), wc);
            lemma_concat_assoc(old(out)@, tag.concat(any).concat(wc), addr);
        }
    }

    pub fn construct_from(slice: &mut SliceData) -> (r: Result<MsgAddressInt, BlockError>)
        ensures
            match Self::parse(old(slice)@) {
                Ok((v, rest)) => r == Ok::<MsgAddressInt, BlockError>(v) && final(slice)@ == rest,
                Err(e) => r == Err::<MsgAddressInt, BlockError>(e),
            },
    {
        proof {
            reveal(MsgAddressInt::parse);
            reveal(MsgAddressInt::parse_anycast);
        }
        let ghost p = slice@;
        let tag = slice.get_next_uint(2)?;
        if tag != 2 {
            proof {
                lemma_bits_uint_bound(p.bits.take(2));
                lemma2_to64();
            }
            return Err(BlockError::InvalidConstructorTag { tag: tag as u32 });
        }
        let anycast = if slice.get_next_bit()? {
            Some(AnycastInfo::construct_from(slice)?)
        } else {
            None
        };
        let ghost rest2 = slice@;
        let code = slice.get_next_uint(8)?;
        proof {
            lemma_bits_uint_bound(rest2.bits.take(8));
            lemma2_to64();
        }
        let workchain_id: i8 = if code >= 128 {
            (code as i16 - 256) as i8
        } else {
            code as i8
        };
        let address = slice.get_next_hash()?;
        Ok(MsgAddressInt { anycast, workchain_id, address })
    }

    /// Appends the layout to `builder`, or fails and changes nothing where it does not
    /// fit.
    pub fn write_to(&self, builder: &mut BuilderData) -> (r: Result<(), BlockError>)
        ensures
            old(builder)@.concat(self.payload()).fits() ==> r is Ok && final(builder)@
                == old(builder)@.concat(self.payload()),
            !old(builder)@.concat(self.payload()).fits() ==> r == Err::<(), BlockError>(
                BlockError::CellOverflow,
            ) && final(builder)@ == old(builder)@,
    {
        let mut f = Fragment::new();
        self.encode(&mut f);
        proof {
            crate::codec::lemma_concat_empty(self.payload());
        }
        builder.append_fragment(&f)
    }
}

/// Whether a contract is called at the start and at the end of each block.
#[derive(Clone, Copy, Debug, PartialEq, Eq, Structural)]
pub struct TickTock {
    pub tick: bool,
    pub tock: bool,
}

impl TickTock {
    pub fn with_values(tick: bool, tock: bool) -> (r: TickTock)
        ensures
            r.tick == tick,
            r.tock == tock,
    {
        TickTock { tick, tock }
    }
}

/// The libraries of a contract, held as the root of their dictionary. The dictionary is
/// carried and counted, and never opened here.
#[derive(Debug, Eq)]
pub struct StateInitLib {
    pub root: Option<Cell>,
}

impl StateInitLib {
    /// Whether the roots of the two dictionaries are both absent, or have the same hash.
    pub open spec fn same_as(&self, other: &StateInitLib) -> bool {
        crate::cell::same_node(self.root, other.root)
    }

    pub fn default() -> (r: StateInitLib)
        ensures
            r.root is None,
    {
        StateInitLib { root: None }
    }

    pub fn with_root(root: Cell) -> (r: StateInitLib)
        ensures
            r.root == Some(root),
    {
        StateInitLib { root: Some(root) }
    }

    pub fn is_empty(&self) -> (b: bool)
        ensures
            b == (self.root is None),
    {
        self.root.is_none()
    }

    /// The library under the hash of its code, and none where there is none. It fails
    /// where the dictionary or the library cannot be read.
    pub open spec fn spec_get(&self, hash: UInt256) -> Result<Option<SimpleLib>, BlockError> {
        match find(self.root, hash.bits(), 0) {
            Err(e) => Err(e),
            Ok(leaf) => library_of(leaf),
        }
    }

    /// Whether the libraries are `before` with what is under `hash` replaced by
    /// `library`.
    pub open spec fn is_update_of(
        &self,
        before: StateInitLib,
        hash: UInt256,
        library: Option<SimpleLib>,
    ) -> bool {
        &&& self.spec_get(hash) == Ok::<Option<SimpleLib>, BlockError>(library)
        &&& forall|other: UInt256|
            other != hash ==> #[trigger] self.spec_get(other) == before.spec_get(other)
    }

    pub fn get(&self, hash: &UInt256) -> (r: Result<Option<SimpleLib>, BlockError>)
        ensures
            r == self.spec_get(*hash),
    {
        let key = hash_key_bits(hash);
        match crate::dict::get(&self.root, &key)? {
            None => Ok(None),
            Some(c) => {
                let mut slice = SliceData::load_cell(c)?;
                Ok(Some(SimpleLib::construct_from(&mut slice)?))
            },
        }
    }

    /// Puts `library` under `hash`. It fails and changes nothing where looking up `hash`
    /// fails. The counts that the root carries grow by no more than those of the library,
    /// 257 nodes and 513 bits.
    pub fn set(&mut self, hash: &UInt256, library: &SimpleLib) -> (r: Result<(), BlockError>)
        ensures
            cells_below(final(self).root) <= cells_below(old(self).root) + 257
                + library.root.tree_cells(),
            bits_below(final(self).root) <= bits_below(old(self).root) + 513
                + library.root.tree_bits(),
            match find(old(self).root, hash.bits(), 0) {
                Err(e) => r == Err::<(), BlockError>(e) && *final(self) == *old(self),
                Ok(_) => r is Ok && final(self).is_update_of(*old(self), *hash, Some(*library)),
            },
    {
        let key = hash_key_bits(hash);
        let leaf = library.serialize();
        let root = crate::dict::set(&self.root, &key, leaf)?;
        proof {
            lemma_concat_empty(library.payload());
            library.lemma_parse_payload(Payload::empty());
            assert forall|other: UInt256| other != *hash implies #[trigger] find(
                root,
                other.bits(),
                0,
            ) == find(self.root, other.bits(), 0) by {
                crate::bits::lemma_uint_bits_len(other.hi as nat, 128);
                crate::bits::lemma_uint_bits_len(other.lo as nat, 128);
                if other.bits() == hash.bits() {
                    crate::cell::lemma_hash_bits_injective(other, *hash);
                }
            }
        }
        self.root = root;
        Ok(())
    }

    /// Takes away what is under `hash`. It fails and changes nothing where looking up
    /// `hash` fails.
    pub fn remove(&mut self, hash: &UInt256) -> (r: Result<(), BlockError>)
        ensures
            match find(old(self).root, hash.bits(), 0) {
                Err(e) => r == Err::<(), BlockError>(e) && *final(self) == *old(self),
                Ok(_) => r is Ok && final(self).is_update_of(*old(self), *hash, None),
            },
    {
        let key = hash_key_bits(hash);
        let root = crate::dict::remove(&self.root, &key)?;
        proof {
            assert forall|other: UInt256| other != *hash implies #[trigger] find(
                root,
                other.bits(),
                0,
            ) == find(self.root, other.bits(), 0) by {
                crate::bits::lemma_uint_bits_len(other.hi as nat, 128);
                crate::bits::lemma_uint_bits_len(other.lo as nat, 128);
                if other.bits() == hash.bits() {
                    crate::cell::lemma_hash_bits_injective(other, *hash);
                }
            }
        }
        self.root = root;
        Ok(())
    }
}

impl PartialEq for StateInitLib {
    fn eq(&self, other: &StateInitLib) -> (r: bool) {
        self.root == other.root
    }
}

impl PartialEqSpecImpl for StateInitLib {
    open spec fn obeys_eq_spec() -> bool {
        true
    }

    open spec fn eq_spec(&self, other: &StateInitLib) -> bool {
        self.same_as(other)
    }
}

impl Clone for StateInitLib {
    fn clone(&self) -> (r: StateInitLib)
        ensures
            r == *self,
    {
        match &self.root {
            Some(c) => StateInitLib { root: Some(c.clone()) },
            None => StateInitLib { root: None },
        }
    }
}

/// A library: its code, and whether other contracts may use it.
#[derive(Debug, PartialEq, Eq)]
pub struct SimpleLib {
    pub public: bool,
    pub root: Cell,
}

impl Clone for SimpleLib {
    fn clone(&self) -> (r: SimpleLib)
        ensures
            r == *self,
    {
        SimpleLib { public: self.public, root: self.root.clone() }
    }
}

impl SimpleLib {
    pub fn new(root: Cell, public: bool) -> (r: SimpleLib)
        ensures
            r == (SimpleLib { public, root }),
    {
        SimpleLib { public, root }
    }

    pub fn is_public_library(&self) -> (b: bool)
        ensures
            b == self.public,
    {
        self.public
    }

    /// The layout: one bit that tells whether the library is public, and the code as a
    /// child.
    pub open spec fn payload(&self) -> Payload {
        Payload::of_bits(seq![self.public]).concat(Payload::of_ref(self.root))
    }

    #[verifier::opaque]
    pub open spec fn parse(p: Payload) -> Result<(SimpleLib, Payload), BlockError> {
        match p.take_bit() {
            Err(e) => Err(e),
            Ok((public, rest)) => match rest.take_ref() {
                Err(e) => Err(e),
                Ok((root, rest2)) => Ok((SimpleLib { public, root }, rest2)),
            },
        }
    }

    pub proof fn lemma_parse_payload(self, rest: Payload)
        ensures
            Self::parse(self.payload().concat(rest)) == Ok::<(SimpleLib, Payload), BlockError>(
                (self, rest),
            ),
    {
        reveal(SimpleLib::parse);
        lemma_concat_assoc(Payload::of_bits(seq![self.public]), Payload::of_ref(self.root), rest);
        lemma_take_bit(self.public, Payload::of_ref(self.root).concat(rest));
        lemma_take_ref(self.root, rest);
    }

    /// The node that holds the library.
    pub fn serialize(&self) -> (c: Cell)
        ensures
            c.payload() == self.payload(),
            !c.is_pruned(),
            c.tree_cells() <= 1 + self.root.tree_cells(),
            c.tree_bits() <= 1 + self.root.tree_bits(),
    {
        let mut f = Fragment::new();
        f.push_bit(self.public);
        f.push_reference(self.root.clone());
        proof {
            lemma_concat_assoc(
                Payload::empty(),
                Payload::of_bits(seq![self.public]),
                Payload::of_ref(self.root),
            );
            lemma_concat_empty(self.payload());
        }
        let mut b = BuilderData::new();
        let r = b.append_fragment(&f);
        let c = b.into_cell();
        proof {
            lemma_sat_sum_short(c.refs(), |c: Cell| c.tree_cells());
            lemma_sat_sum_short(c.refs(), |c: Cell| c.tree_bits());
        }
        c
    }

    pub fn construct_from(slice: &mut SliceData) -> (r: Result<SimpleLib, BlockError>)
        ensures
            match Self::parse(old(slice)@) {
                Ok((v, rest)) => r == Ok::<SimpleLib, BlockError>(v) && final(slice)@ == rest,
                Err(e) => r == Err::<SimpleLib, BlockError>(e),
            },
    {
        proof {
            reveal(SimpleLib::parse);
        }
        let public = slice.get_next_bit()?;
        let root = slice.checked_drain_reference()?;
        Ok(SimpleLib { public, root })
    }
}

/// The library that a node of the dictionary holds.
pub open spec fn library_of(leaf: Option<Cell>) -> Result<Option<SimpleLib>, BlockError> {
    match leaf {
        None => Ok(None),
        Some(c) => if c.is_pruned() {
            Err(BlockError::PrunedCellAccess)
        } else {
            match SimpleLib::parse(c.payload()) {
                Err(e) => Err(e),
                Ok((lib, rest)) => Ok(Some(lib)),
            }
        },
    }
}

/// The initial state of a contract: its code, its data and its libraries, each a node of
/// the graph, and two optional settings.
#[derive(Debug, Eq)]
pub struct StateInit {
    pub split_depth: Option<Number5>,
    pub special: Option<TickTock>,
    pub code: Option<Cell>,
    pub data: Option<Cell>,
    pub library: StateInitLib,
}

fn clone_cell(cell: &Option<Cell>) -> (r: Option<Cell>)
    ensures
        r == *cell,
{
    match cell {
        Some(c) => Some(c.clone()),
        None => None,
    }
}

impl StateInit {
    /// Whether the two states have the same settings, and code, data and libraries with the
    /// same hashes.
    pub open spec fn same_as(&self, other: &StateInit) -> bool {
        self.split_depth == other.split_depth && self.special == other.special
            && crate::cell::same_node(self.code, other.code) && crate::cell::same_node(
            self.data,
            other.data,
        ) && self.library.same_as(&other.library)
    }

    pub open spec fn wf(&self) -> bool {
        self.split_depth matches Some(d) ==> d.wf()
    }

    pub fn default() -> (r: StateInit)
        ensures
            r.split_depth is None,
            r.special is None,
            r.code is None,
            r.data is None,
            r.library.root is None,
            r.wf(),
    {
        StateInit {
            split_depth: None,
            special: None,
            code: None,
            data: None,
            library: StateInitLib::default(),
        }
    }

    pub fn set_split_depth(&mut self, split_depth: Number5)
        ensures
            *final(self) == (StateInit { split_depth: Some(split_depth), ..*old(self) }),
    {
        self.split_depth = Some(split_depth);
    }

    pub fn set_special(&mut self, special: TickTock)
        ensures
            *final(self) == (StateInit { special: Some(special), ..*old(self) }),
    {
        self.special = Some(special);
    }

    pub fn set_code(&mut self, code: Cell)
        ensures
            *final(self) == (StateInit { code: Some(code), ..*old(self) }),
    {
        self.code = Some(code);
    }

    pub fn set_data(&mut self, data: Cell)
        ensures
            *final(self) == (StateInit { data: Some(data), ..*old(self) }),
    {
        self.data = Some(data);
    }

    pub fn set_library(&mut self, library: StateInitLib)
        ensures
            *final(self) == (StateInit { library, ..*old(self) }),
    {
        self.library = library;
    }

    /// Puts the library with the code `code` under the hash of the code. It fails and
    /// changes nothing where looking up that hash fails. The counts that the root of the
    /// libraries carries grow by no more than those of the code, 257 nodes and 513 bits.
    pub fn set_library_code(&mut self, code: Cell, public: bool) -> (r: Result<(), BlockError>)
        ensures
            cells_below(final(self).library.root) <= cells_below(old(self).library.root) + 257
                + code.tree_cells(),
            bits_below(final(self).library.root) <= bits_below(old(self).library.root) + 513
                + code.tree_bits(),
            match find(old(self).library.root, code.hash().bits(), 0) {
                Err(e) => r == Err::<(), BlockError>(e) && *final(self) == *old(self),
                Ok(_) => r is Ok && *final(self) == (StateInit {
                    library: final(self).library,
                    ..*old(self)
                }) && final(self).library.is_update_of(
                    old(self).library,
                    code.hash(),
                    Some(SimpleLib { public, root: code }),
                ),
            },
    {
        let hash = code.repr_hash();
        let mut library = self.library.clone();
        library.set(&hash, &SimpleLib::new(code, public))?;
        self.library = library;
        Ok(())
    }

    pub fn code(&self) -> (r: Option<&Cell>)
        ensures
            r == match self.code {
                Some(c) => Some(&c),
                None => None,
            },
    {
        self.code.as_ref()
    }

    pub fn data(&self) -> (r: Option<&Cell>)
        ensures
            r == match self.data {
                Some(c) => Some(&c),
                None => None,
            },
    {
        self.data.as_ref()
    }

    pub fn libraries(&self) -> (r: StateInitLib)
        ensures
            r == self.library,
    {
        self.library.clone()
    }

    pub open spec fn split_depth_payload(d: Option<Number5>) -> Payload {
        match d {
            None => Payload::of_bits(seq![false]),
            Some(n) => Payload::of_bits(seq![true]).concat(n.payload()),
        }
    }

    pub open spec fn special_payload(s: Option<TickTock>) -> Payload {
        match s {
            None => Payload::of_bits(seq![false]),
            Some(t) => Payload::of_bits(seq![true, t.tick, t.tock]),
        }
    }

    /// The layout: the split depth on five bits behind one bit; the two flags behind one
    /// bit; then code, data and libraries, each one bit and, where present, a child.
    pub open spec fn payload(&self) -> Payload {
        Self::split_depth_payload(self.split_depth).concat(
            Self::special_payload(self.special),
        ).concat(maybe_ref_payload(self.code)).concat(maybe_ref_payload(self.data)).concat(
            maybe_ref_payload(self.library.root),
        )
    }

    #[verifier::opaque]
    pub open spec fn parse_split_depth(p: Payload) -> Result<(Option<Number5>, Payload), BlockError> {
        match p.take_bit() {
            Err(e) => Err(e),
            Ok((false, rest)) => Ok((None, rest)),
            Ok((true, rest)) => match Number5::parse(rest) {
                Err(e) => Err(e),
                Ok((n, rest2)) => Ok((Some(n), rest2)),
            },
        }
    }

    #[verifier::opaque]
    pub open spec fn parse_special(p: Payload) -> Result<(Option<TickTock>, Payload), BlockError> {
        match p.take_bit() {
            Err(e) => Err(e),
            Ok((false, rest)) => Ok((None, rest)),
            Ok((true, rest)) => match rest.take_bit() {
                Err(e) => Err(e),
                Ok((tick, rest2)) => match rest2.take_bit() {
                    Err(e) => Err(e),
                    Ok((tock, rest3)) => Ok((Some(TickTock { tick, tock }), rest3)),
                },
            },
        }
    }

    #[verifier::opaque]
    pub open spec fn parse(p: Payload) -> Result<(StateInit, Payload), BlockError> {
        match Self::parse_split_depth(p) {
            Err(e) => Err(e),
            Ok((split_depth, r1)) => match Self::parse_special(r1) {
                Err(e) => Err(e),
                Ok((special, r2)) => match parse_maybe_ref(r2) {
                    Err(e) => Err(e),
                    Ok((code, r3)) => match parse_maybe_ref(r3) {
                        Err(e) => Err(e),
                        Ok((data, r4)) => match parse_maybe_ref(r4) {
                            Err(e) => Err(e),
                            Ok((root, r5)) => Ok(
                                (
                                    StateInit {
                                        split_depth,
                                        special,
                                        code,
                                        data,
                                        library: StateInitLib { root },
                                    },
                                    r5,
                                ),
                            ),
                        },
                    },
                },
            },
        }
    }

    pub proof fn lemma_parse_split_depth(d: Option<Number5>, rest: Payload)
        requires
            d matches Some(n) ==> n.wf(),
        ensures
            Self::parse_split_depth(Self::split_depth_payload(d).concat(rest)) == Ok::<
                (Option<Number5>, Payload),
                BlockError,
            >((d, rest)),
    {
        reveal(StateInit::parse_split_depth);
        match d {
            None => {
                lemma_take_bit(false, rest);
            },
            Some(n) => {
                lemma_concat_assoc(Payload::of_bits(seq![true]), n.payload(), rest);
                lemma_take_bit(true, n.payload().concat(rest));
                n.lemma_parse_payload(rest);
            },
        }
    }

    pub proof fn lemma_parse_special(s: Option<TickTock>, rest: Payload)
        ensures
            Self::parse_special(Self::special_payload(s).concat(rest)) == Ok::<
                (Option<TickTock>, Payload),
                BlockError,
            >((s, rest)),
    {
        reveal(StateInit::parse_special);
        match s {
            None => {
                lemma_take_bit(false, rest);
            },
            Some(t) => {
                let t1 = Payload::of_bits(seq![t.tick]);
                let t2 = Payload::of_bits(seq![t.tock]);
                assert(Self::special_payload(s).concat(rest) =~= Payload::of_bits(
                    seq![true],
                ).concat(t1.concat(t2.concat(rest))));
                lemma_take_bit(true, t1.concat(t2.concat(rest)));
                lemma_take_bit(t.tick, t2.concat(rest));
                lemma_take_bit(t.tock, rest);
            },
        }
    }

    pub proof fn lemma_parse_payload(self, rest: Payload)
        requires
            self.wf(),
        ensures
            Self::parse(self.payload().concat(rest)) == Ok::<(StateInit, Payload), BlockError>(
                (self, rest),
            ),
    {
        reveal(StateInit::parse);
        reveal(StateInit::parse_split_depth);
        reveal(StateInit::parse_special);
        let a = Self::split_depth_payload(self.split_depth);
        let b = Self::special_payload(self.special);
        let c = maybe_ref_payload(self.code);
        let d = maybe_ref_payload(self.data);
        let e = maybe_ref_payload(self.library.root);
        let r4 = e.concat(rest);
        let r3 = d.concat(r4);
        let r2 = c.concat(r3);
        let r1 = b.concat(r2);
        lemma_concat_assoc(a.concat(b).concat(c).concat(d), e, rest);
        lemma_concat_assoc(a.concat(b).concat(c), d, r4);
        lemma_concat_assoc(a.concat(b), c, r3);
        lemma_concat_assoc(a, b, r2);
        assert(self.payload().concat(rest) == a.concat(r1));
        Self::lemma_parse_split_depth(self.split_depth, r1);
        Self::lemma_parse_special(self.special, r2);
        lemma_parse_maybe_ref(self.code, r3);
        lemma_parse_maybe_ref(self.data, r4);
        lemma_parse_maybe_ref(self.library.root, rest);
    }

    pub proof fn lemma_parse_wf(p: Payload)
        requires
            Self::parse(p) is Ok,
        ensures
            Self::parse(p)->Ok_0.0.wf(),
    {
        reveal(StateInit::parse);
        reveal(StateInit::parse_split_depth);
        reveal(StateInit::parse_special);
        let (bit, rest) = p.take_bit()->Ok_0;
        if bit {
            Number5::lemma_parse_wf(rest);
        }
    }

    /// The layout holds at most twelve bits and three children.
    pub proof fn lemma_payload_small(self)
        ensures
            self.payload().bits.len() <= 12,
            self.payload().refs.len() <= 3,
    {
        match self.split_depth {
            Some(n) => {
                crate::bits::lemma_uint_bits_len(n@, 5);
            },
            None => {},
        }
    }

    fn encode_split_depth(d: &Option<Number5>, out: &mut Fragment)
        ensures
            final(out)@ == old(out)@.concat(Self::split_depth_payload(*d)),
    {
        match d {
            None => {
                out.push_bit(false);
            },
            Some(n) => {
                out.push_bit(true);
                n.encode(out);
                proof {
                    lemma_concat_assoc(old(out)@, Payload::of_bits(seq![true]), n.payload());
                }
            },
        }
    }

    fn encode_special(s: &Option<TickTock>, out: &mut Fragment)
        ensures
            final(out)@ == old(out)@.concat(Self::special_payload(*s)),
    {
        match s {
            None => {
                out.push_bit(false);
            },
            Some(t) => {
                out.push_bit(true);
                out.push_bit(t.tick);
                out.push_bit(t.tock);
                assert(out@ =~= old(out)@.concat(Self::special_payload(*s)));
            },
        }
    }

    pub fn encode(&self, out: &mut Fragment)
        ensures
            final(out)@ == old(out)@.concat(self.payload()),
    {
        Self::encode_split_depth(&self.split_depth, out);
        Self::encode_special(&self.special, out);
        push_maybe_ref(out, &self.code);
        push_maybe_ref(out, &self.data);
        push_maybe_ref(out, &self.library.root);
        proof {
            let a = Self::split_depth_payload(self.split_depth);
            let b = Self::special_payload(self.special);
            let c = maybe_ref_payload(self.code);
            let d = maybe_ref_payload(self.data);
            let e = maybe_ref_payload(self.library.root);
            lemma_concat_assoc(old(out)@, a, b);
            lemma_concat_assoc(old(out)@, a.concat(b), c);
            lemma_concat_assoc(old(out)@, a.concat(b).concat(c), d);
            lemma_concat_assoc(old(out)@, a.concat(b).concat(c).concat(d), e);
        }
    }

    pub fn construct_from(slice: &mut SliceData) -> (r: Result<StateInit, BlockError>)
        ensures
            match Self::parse(old(slice)@) {
                Ok((v, rest)) => r == Ok::<StateInit, BlockError>(v) && final(slice)@ == rest,
                Err(e) => r == Err::<StateInit, BlockError>(e),
            },
    {
        proof {
            reveal(StateInit::parse);
            reveal(StateInit::parse_split_depth);
            reveal(StateInit::parse_special);
        }
        let split_depth = if slice.get_next_bit()? {
            Some(Number5::construct_from(slice)?)
        } else {
            None
        };
        let special = if slice.get_next_bit()? {
            let tick = slice.get_next_bit()?;
            let tock = slice.get_next_bit()?;
            Some(TickTock { tick, tock })
        } else {
            None
        };
        let code = read_maybe_ref(slice)?;
        let data = read_maybe_ref(slice)?;
        let root = read_maybe_ref(slice)?;
        Ok(StateInit { split_depth, special, code, data, library: StateInitLib { root } })
    }

    /// The hash of the node that holds the layout.
    pub open spec fn spec_hash(&self) -> UInt256 {
        hash_of(self.payload().bits, links_of(self.payload().refs))
    }

    /// The node that holds the layout.
    pub fn serialize(&self) -> (c: Cell)
        ensures
            c.holds(self.payload()),
            c.hash() == self.spec_hash(),
    {
        let mut f = Fragment::new();
        self.encode(&mut f);
        let mut b = BuilderData::new();
        proof {
            self.lemma_payload_small();
            crate::codec::lemma_concat_empty(self.payload());
        }
        let r = b.append_fragment(&f);
        b.into_cell()
    }

    /// The hash that commits an address or a frozen account to this state.
    pub fn hash(&self) -> (h: UInt256)
        ensures
            h == self.spec_hash(),
    {
        self.serialize().repr_hash()
    }

    /// Appends the layout to `builder`, or fails and changes nothing where it does not
    /// fit.
    pub fn write_to(&self, builder: &mut BuilderData) -> (r: Result<(), BlockError>)
        ensures
            old(builder)@.concat(self.payload()).fits() ==> r is Ok && final(builder)@
                == old(builder)@.concat(self.payload()),
            !old(builder)@.concat(self.payload()).fits() ==> r == Err::<(), BlockError>(
                BlockError::CellOverflow,
            ) && final(builder)@ == old(builder)@,
    {
        let mut f = Fragment::new();
        self.encode(&mut f);
        proof {
            crate::codec::lemma_concat_empty(self.payload());
        }
        builder.append_fragment(&f)
    }
}

impl PartialEq for StateInit {
    fn eq(&self, other: &StateInit) -> (r: bool) {
        self.split_depth == other.split_depth && self.special == other.special && self.code
            == other.code && self.data == other.data && self.library == other.library
    }
}

impl PartialEqSpecImpl for StateInit {
    open spec fn obeys_eq_spec() -> bool {
        true
    }

    open spec fn eq_spec(&self, other: &StateInit) -> bool {
        self.same_as(other)
    }
}

impl Clone for StateInit {
    fn clone(&self) -> (r: StateInit)
        ensures
            r == *self,
    {
        StateInit {
            split_depth: self.split_depth,
            special: self.special,
            code: clone_cell(&self.code),
            data: clone_cell(&self.data),
            library: self.library.clone(),
        }
    }
}

/// What the account model reads of the header of an internal message.
#[derive(Debug, PartialEq, Eq)]
pub struct InternalMessageHeader {
    pub bounce: bool,
    pub dst: MsgAddressInt,
    pub value: CurrencyCollection,
}

impl InternalMessageHeader {
    pub fn value(&self) -> (v: &CurrencyCollection)
        ensures
            *v == self.value,
    {
        &self.value
    }
}

/// The kind of a message, with the header of an internal one.
#[derive(Debug, PartialEq, Eq)]
pub enum CommonMsgInfo {
    IntMsgInfo(InternalMessageHeader),
    ExtInMsgInfo,
    ExtOutMsgInfo,
}

/// What the account model reads of a message: its header and the state it brings.
#[derive(Debug, PartialEq, Eq)]
pub struct Message {
    pub header: CommonMsgInfo,
    pub init: Option<StateInit>,
}

impl Message {
    pub fn with_int_header(header: InternalMessageHeader) -> (m: Message)
        ensures
            m.header == CommonMsgInfo::IntMsgInfo(header),
            m.init is None,
    {
        Message { header: CommonMsgInfo::IntMsgInfo(header), init: None }
    }

    pub fn set_state_init(&mut self, init: StateInit)
        ensures
            final(self).header == old(self).header,
            final(self).init == Some(init),
    {
        self.init = Some(init);
    }

    /// The header, where the message is internal.
    pub fn int_header(&self) -> (h: Option<&InternalMessageHeader>)
        ensures
            h == match self.header {
                CommonMsgInfo::IntMsgInfo(hdr) => Some(&hdr),
                _ => None,
            },
    {
        match &self.header {
            CommonMsgInfo::IntMsgInfo(hdr) => Some(hdr),
            _ => None,
        }
    }

    pub fn state_init(&self) -> (s: Option<&StateInit>)
        ensures
            s == match self.init {
                Some(i) => Some(&i),
                None => None,
            },
    {
        self.init.as_ref()
    }
}

impl Serializable for MsgAddressInt {
    open spec fn layout(&self) -> Payload {
        self.payload()
    }

    fn write_into(&self, out: &mut Fragment) {
        self.encode(out);
    }
}

impl Default for StateInit {
    fn default() -> (r: StateInit)
        ensures
            r.split_depth is None,
            r.special is None,
            r.code is None,
            r.data is None,
            r.library.root is None,
            r.wf(),
    {
        StateInit::default()
    }
}

impl Serializable for StateInit {
    open spec fn layout(&self) -> Payload {
        self.payload()
    }

    fn write_into(&self, out: &mut Fragment) {
        self.encode(out);
    }
}

} // verus!
