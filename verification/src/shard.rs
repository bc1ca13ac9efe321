//! What the account model reads of a shard and of the configuration.
use crate::accounts::ShardAccount;
use crate::bits::{
    bits_uint, lemma_bits_uint_bound, lemma_pow2_128, lemma_uint_bits_len, read_uint, uint_bits,
};
use crate::builder::{serialize, BuilderData, Fragment};
use crate::cell::{Cell, Payload, UInt256};
use crate::codec::{lemma_concat_assoc, lemma_concat_empty, lemma_take_uint};
use crate::dict::{find, find_visits, hash_key_bits};
use crate::error::BlockError;
use crate::merkle::UsageTree;
use crate::slice::SliceData;
use crate::types::{
    lemma_parse_maybe_ref, maybe_ref_payload, parse_maybe_ref, push_maybe_ref, read_maybe_ref,
};
use vstd::arithmetic::power2::lemma2_to64;
use vstd::prelude::*;

verus! {

/// The most bits that the prefix of a shard has.
pub const MAX_SPLIT_DEPTH: u8 = 60;

/// A shard of a workchain: the accounts whose identifiers start with a given prefix.
#[derive(Clone, Copy, Debug, PartialEq, Eq, Structural)]
pub struct ShardIdent {
    workchain_id: i32,
    prefix_bits: u8,
    prefix: u64,
}

impl ShardIdent {
    #[verifier::type_invariant]
    spec fn inv(self) -> bool {
        self.prefix_bits <= MAX_SPLIT_DEPTH
    }

    pub closed spec fn spec_workchain_id(&self) -> i32 {
        self.workchain_id
    }

    /// The number of bits of the prefix.
    pub closed spec fn spec_prefix_bits(&self) -> nat {
        self.prefix_bits as nat
    }

    /// The prefix, as the number that its bits denote.
    pub closed spec fn spec_prefix(&self) -> nat {
        self.prefix as nat
    }

    /// Whether the prefix has at most 60 bits, as that of every shard that a program
    /// holds has.
    pub closed spec fn wf(&self) -> bool {
        self.prefix_bits <= MAX_SPLIT_DEPTH
    }

    /// The shard with the given parts.
    pub closed spec fn of(workchain_id: i32, prefix_bits: nat, prefix: nat) -> ShardIdent {
        ShardIdent { workchain_id, prefix_bits: prefix_bits as u8, prefix: prefix as u64 }
    }

    pub proof fn lemma_parts(self)
        requires
            self.wf(),
        ensures
            self.spec_prefix_bits() <= MAX_SPLIT_DEPTH,
            self.spec_prefix() <= u64::MAX,
            Self::of(self.spec_workchain_id(), self.spec_prefix_bits(), self.spec_prefix()) == self,
    {
    }

    pub proof fn lemma_is_of(self)
        ensures
            Self::of(self.spec_workchain_id(), self.spec_prefix_bits(), self.spec_prefix()) == self,
    {
    }

    /// Whether the shard holds the account: the first bits of the identifier are the
    /// prefix.
    pub open spec fn spec_contains(&self, account_id: UInt256) -> bool {
        bits_uint(account_id.bits().take(self.spec_prefix_bits() as int)) == self.spec_prefix()
    }

    /// The shard that holds every account of a workchain.
    pub fn full(workchain_id: i32) -> (r: ShardIdent)
        ensures
            r.spec_workchain_id() == workchain_id,
            r.spec_prefix_bits() == 0,
            r.spec_prefix() == 0,
    {
        ShardIdent { workchain_id, prefix_bits: 0, prefix: 0 }
    }

    /// The shard of the accounts whose identifiers start with the `prefix_bits` bits
    /// that denote `prefix`. It fails where there are more than 60 bits.
    pub fn with_prefix(workchain_id: i32, prefix_bits: u8, prefix: u64) -> (r: Result<
        ShardIdent,
        BlockError,
    >)
        ensures
            prefix_bits <= MAX_SPLIT_DEPTH ==> r is Ok && r->Ok_0.spec_workchain_id()
                == workchain_id && r->Ok_0.spec_prefix_bits() == prefix_bits
                && r->Ok_0.spec_prefix() == prefix && r->Ok_0.wf(),
            prefix_bits > MAX_SPLIT_DEPTH ==> r == Err::<ShardIdent, BlockError>(
                BlockError::InvalidArg,
            ),
    {
        if prefix_bits > MAX_SPLIT_DEPTH {
            Err(BlockError::InvalidArg)
        } else {
            Ok(ShardIdent { workchain_id, prefix_bits, prefix })
        }
    }

    pub fn workchain_id(&self) -> (w: i32)
        ensures
            w == self.spec_workchain_id(),
    {
        self.workchain_id
    }

    pub fn prefix_bits(&self) -> (n: u8)
        ensures
            n == self.spec_prefix_bits(),
            n <= MAX_SPLIT_DEPTH,
            self.wf(),
    {
        proof {
            use_type_invariant(self);
        }
        self.prefix_bits
    }

    pub fn prefix(&self) -> (p: u64)
        ensures
            p == self.spec_prefix(),
    {
        self.prefix
    }

    /// Whether the shard holds the account with the given identifier.
    pub fn contains_account(&self, account_id: &UInt256) -> (b: bool)
        ensures
            b == self.spec_contains(*account_id),
    {
        proof {
            use_type_invariant(self);
            lemma_uint_bits_len(account_id.hi as nat, 128);
            lemma_uint_bits_len(account_id.lo as nat, 128);
        }
        let mut bits: Vec<bool> = Vec::new();
        account_id.push_bits(&mut bits);
        assert(bits@ =~= account_id.bits());
        let v = read_uint(&bits, 0, self.prefix_bits as usize);
        assert(bits@.subrange(0, self.prefix_bits as int) =~= account_id.bits().take(
            self.prefix_bits as int,
        ));
        v == self.prefix as u128
    }
}

/// What the account model reads of the configuration: the address of the contract that
/// keeps it, and the root of its parameters.
#[derive(Debug, PartialEq, Eq)]
pub struct ConfigParams {
    pub config_addr: UInt256,
    pub config_params: Option<Cell>,
}

impl ConfigParams {
    pub fn with_root(config_addr: UInt256, root: Cell) -> (r: ConfigParams)
        ensures
            r.config_addr == config_addr,
            r.config_params == Some(root),
    {
        ConfigParams { config_addr, config_params: Some(root) }
    }
}

/// The accounts of a shard: a dictionary from the 256 bits of an account identifier to
/// the node that holds the account's entry.
#[derive(Debug, PartialEq, Eq)]
pub struct ShardAccounts {
    pub root: Option<Cell>,
}

impl Clone for ShardAccounts {
    fn clone(&self) -> (r: ShardAccounts)
        ensures
            r == *self,
    {
        match &self.root {
            Some(c) => ShardAccounts { root: Some(c.clone()) },
            None => ShardAccounts { root: None },
        }
    }
}

/// The entry that a node of the dictionary holds.
pub open spec fn entry_of(leaf: Option<Cell>) -> Result<Option<ShardAccount>, BlockError> {
    match leaf {
        None => Ok(None),
        Some(c) => if c.is_pruned() {
            Err(BlockError::PrunedCellAccess)
        } else {
            match ShardAccount::parse(c.payload()) {
                Err(e) => Err(e),
                Ok((entry, rest)) => Ok(Some(entry)),
            }
        },
    }
}

impl ShardAccounts {
    pub fn default() -> (r: ShardAccounts)
        ensures
            r.root is None,
    {
        ShardAccounts { root: None }
    }

    /// The entry of the account with the given identifier, and none where the shard has
    /// no such account. It fails where the dictionary or the entry cannot be read.
    pub open spec fn spec_get(&self, account_id: UInt256) -> Result<Option<ShardAccount>, BlockError> {
        match find(self.root, account_id.bits(), 0) {
            Err(e) => Err(e),
            Ok(leaf) => entry_of(leaf),
        }
    }

    fn read_entry(leaf: Option<Cell>) -> (r: Result<Option<ShardAccount>, BlockError>)
        ensures
            r == entry_of(leaf),
    {
        match leaf {
            None => Ok(None),
            Some(c) => {
                let mut slice = SliceData::load_cell(c)?;
                Ok(Some(ShardAccount::construct_from(&mut slice)?))
            },
        }
    }

    pub fn get(&self, account_id: &UInt256) -> (r: Result<Option<ShardAccount>, BlockError>)
        ensures
            r == self.spec_get(*account_id),
    {
        let key = hash_key_bits(account_id);
        let leaf = crate::dict::get(&self.root, &key)?;
        Self::read_entry(leaf)
    }

    /// The hashes of the nodes that are opened to get the entry of an account: the
    /// inner nodes on the way, and the node of the entry.
    pub open spec fn get_visits(&self, account_id: UInt256) -> Set<UInt256> {
        find_visits(self.root, account_id.bits(), 0).union(
            match find(self.root, account_id.bits(), 0) {
                Ok(Some(leaf)) => if leaf.is_pruned() {
                    Set::empty()
                } else {
                    Set::empty().insert(leaf.hash())
                },
                _ => Set::empty(),
            },
        )
    }

    /// Gets the entry of an account as `get` does, while `usage` notes every node that
    /// is opened.
    pub fn get_tracked(&self, account_id: &UInt256, usage: &mut UsageTree) -> (r: Result<
        Option<ShardAccount>,
        BlockError,
    >)
        ensures
            r == self.spec_get(*account_id),
            final(usage).spec_root() == old(usage).spec_root(),
            final(usage).visited() == old(usage).visited().union(self.get_visits(*account_id)),
    {
        let key = hash_key_bits(account_id);
        let ghost before = usage.visited();
        let ghost way = find_visits(self.root, account_id.bits(), 0);
        let leaf = match crate::dict::get_tracked(&self.root, &key, usage) {
            Ok(leaf) => leaf,
            Err(e) => {
                assert(before.union(self.get_visits(*account_id)) =~= before.union(way));
                return Err(e);
            },
        };
        match leaf {
            None => {
                assert(before.union(self.get_visits(*account_id)) =~= before.union(way));
                Ok(None)
            },
            Some(c) => {
                let mut slice = match usage.load(&c) {
                    Ok(slice) => slice,
                    Err(e) => {
                        assert(before.union(self.get_visits(*account_id)) =~= before.union(way));
                        return Err(e);
                    },
                };
                assert(before.union(self.get_visits(*account_id)) =~= usage.visited());
                Ok(Some(ShardAccount::construct_from(&mut slice)?))
            },
        }
    }

    /// Puts the entry of an account into the dictionary: it is then the entry of that
    /// account, and the entries of all other accounts are found as before. It fails and
    /// changes nothing where looking up the account fails.
    pub fn insert(&mut self, account_id: &UInt256, entry: &ShardAccount) -> (r: Result<
        (),
        BlockError,
    >)
        ensures
            match find(old(self).root, account_id.bits(), 0) {
                Err(e) => r == Err::<(), BlockError>(e) && *final(self) == *old(self),
                Ok(_) => r is Ok && final(self).spec_get(*account_id) == Ok::<
                    Option<ShardAccount>,
                    BlockError,
                >(Some(*entry)) && forall|other: UInt256|
                    other != *account_id ==> #[trigger] final(self).spec_get(other)
                        == old(self).spec_get(other),
            },
    {
        let key = hash_key_bits(account_id);
        proof {
            lemma_uint_bits_len(entry.spec_last_trans_hash().hi as nat, 128);
            lemma_uint_bits_len(entry.spec_last_trans_hash().lo as nat, 128);
            lemma_uint_bits_len(entry.spec_last_trans_lt() as nat, 64);
        }
        let leaf = match serialize(entry) {
            Ok(c) => c,
            Err(_) => {
                return Err(BlockError::CellOverflow);
            },
        };
        let root = crate::dict::set(&self.root, &key, leaf)?;
        proof {
            lemma_concat_empty(entry.payload());
            entry.lemma_parse_payload(Payload::empty());
            assert forall|other: UInt256| other != *account_id implies #[trigger] find(
                root,
                other.bits(),
                0,
            ) == find(self.root, other.bits(), 0) by {
                lemma_uint_bits_len(other.hi as nat, 128);
                lemma_uint_bits_len(other.lo as nat, 128);
                lemma_uint_bits_len(account_id.hi as nat, 128);
                lemma_uint_bits_len(account_id.lo as nat, 128);
                if other.bits() == account_id.bits() {
                    crate::cell::lemma_hash_bits_injective(other, *account_id);
                }
            }
        }
        self.root = root;
        Ok(())
    }
}

/// A workchain identifier as the 32 bits of its two's complement.
pub open spec fn workchain_code(workchain_id: i32) -> nat {
    if workchain_id < 0 {
        (workchain_id + 0x1_0000_0000) as nat
    } else {
        workchain_id as nat
    }
}

/// The workchain identifier that 32 bits denote.
pub open spec fn workchain_of(code: nat) -> i32 {
    if code >= 0x8000_0000 {
        (code - 0x1_0000_0000) as i32
    } else {
        code as i32
    }
}

/// The 32 bits that start the node of a shard state.
pub const SHARD_STATE_TAG: u32 = 0x9023afe2;

/// What the account model reads of the state of a shard: which shard it is, and its
/// accounts.
#[derive(Debug, PartialEq, Eq)]
pub struct ShardStateUnsplit {
    pub shard_id: ShardIdent,
    pub accounts: ShardAccounts,
}

impl ShardStateUnsplit {
    pub fn with_ident(shard_id: ShardIdent) -> (r: ShardStateUnsplit)
        ensures
            r.shard_id == shard_id,
            r.accounts.root is None,
    {
        ShardStateUnsplit { shard_id, accounts: ShardAccounts::default() }
    }

    pub fn read_accounts(&self) -> (r: &ShardAccounts)
        ensures
            *r == self.accounts,
    {
        &self.accounts
    }

    /// The layout: the tag on 32 bits, the workchain on 32 bits, the number of bits of
    /// the prefix on six bits, the prefix on 64 bits, and the root of the accounts behind
    /// one bit.
    pub open spec fn payload(&self) -> Payload {
        Payload::of_bits(
            uint_bits(SHARD_STATE_TAG as nat, 32) + uint_bits(
                workchain_code(self.shard_id.spec_workchain_id()),
                32,
            ) + uint_bits(self.shard_id.spec_prefix_bits(), 6) + uint_bits(
                self.shard_id.spec_prefix(),
                64,
            ),
        ).concat(maybe_ref_payload(self.accounts.root))
    }

    #[verifier::opaque]
    pub open spec fn parse(p: Payload) -> Result<(ShardStateUnsplit, Payload), BlockError> {
        match p.take_uint(32) {
            Err(e) => Err(e),
            Ok((tag, r1)) => if tag != SHARD_STATE_TAG {
                Err(BlockError::InvalidConstructorTag { tag: tag as u32 })
            } else {
                match r1.take_uint(32) {
                    Err(e) => Err(e),
                    Ok((code, r2)) => match r2.take_uint(6) {
                        Err(e) => Err(e),
                        Ok((prefix_bits, r3)) => match r3.take_uint(64) {
                            Err(e) => Err(e),
                            Ok((prefix, r4)) => if prefix_bits > MAX_SPLIT_DEPTH {
                                Err(BlockError::InvalidData)
                            } else {
                                match parse_maybe_ref(r4) {
                                    Err(e) => Err(e),
                                    Ok((root, r5)) => Ok(
                                        (
                                            ShardStateUnsplit {
                                                shard_id: ShardIdent::of(
                                                    workchain_of(code),
                                                    prefix_bits,
                                                    prefix,
                                                ),
                                                accounts: ShardAccounts { root },
                                            },
                                            r5,
                                        ),
                                    ),
                                }
                            },
                        },
                    },
                }
            },
        }
    }

    /// A shard state is read back as it was written.
    pub proof fn lemma_parse_payload(self, rest: Payload)
        requires
            self.shard_id.wf(),
        ensures
            Self::parse(self.payload().concat(rest)) == Ok::<(ShardStateUnsplit, Payload), BlockError>(
                (self, rest),
            ),
    {
        reveal(ShardStateUnsplit::parse);
        let a = Payload::of_bits(uint_bits(SHARD_STATE_TAG as nat, 32));
        let b = Payload::of_bits(uint_bits(workchain_code(self.shard_id.spec_workchain_id()), 32));
        let c = Payload::of_bits(uint_bits(self.shard_id.spec_prefix_bits(), 6));
        let d = Payload::of_bits(uint_bits(self.shard_id.spec_prefix(), 64));
        let e = maybe_ref_payload(self.accounts.root);
        let r4 = e.concat(rest);
        let r3 = d.concat(r4);
        let r2 = c.concat(r3);
        let r1 = b.concat(r2);
        assert(self.payload().concat(rest) =~= a.concat(r1));
        lemma_pow2_128();
        lemma2_to64();
        lemma_take_uint(SHARD_STATE_TAG as nat, 32, r1);
        lemma_take_uint(workchain_code(self.shard_id.spec_workchain_id()), 32, r2);
        self.shard_id.lemma_parts();
        lemma_take_uint(self.shard_id.spec_prefix_bits(), 6, r3);
        lemma_take_uint(self.shard_id.spec_prefix(), 64, r4);
        lemma_parse_maybe_ref(self.accounts.root, rest);
    }

    pub fn encode(&self, out: &mut Fragment)
        ensures
            final(out)@ == old(out)@.concat(self.payload()),
    {
        out.push_uint(SHARD_STATE_TAG as u128, 32);
        let w = self.shard_id.workchain_id();
        let code: u64 = if w < 0 {
            (w as i64 + 0x1_0000_0000) as u64
        } else {
            w as u64
        };
        out.push_uint(code as u128, 32);
        out.push_uint(self.shard_id.prefix_bits() as u128, 6);
        out.push_uint(self.shard_id.prefix() as u128, 64);
        let ghost head = out@;
        push_maybe_ref(out, &self.accounts.root);
        proof {
            let bits = Payload::of_bits(
                uint_bits(SHARD_STATE_TAG as nat, 32) + uint_bits(
                    workchain_code(self.shard_id.spec_workchain_id()),
                    32,
                ) + uint_bits(self.shard_id.spec_prefix_bits(), 6) + uint_bits(
                    self.shard_id.spec_prefix(),
                    64,
                ),
            );
            assert(head =~= old(out)@.concat(bits));
            lemma_concat_assoc(old(out)@, bits, maybe_ref_payload(self.accounts.root));
        }
    }

    pub fn serialize(&self) -> (c: Cell)
        ensures
            c.holds(self.payload()),
    {
        let mut f = Fragment::new();
        self.encode(&mut f);
        proof {
            lemma_concat_empty(self.payload());
            lemma_uint_bits_len(SHARD_STATE_TAG as nat, 32);
            lemma_uint_bits_len(workchain_code(self.shard_id.spec_workchain_id()), 32);
            lemma_uint_bits_len(self.shard_id.spec_prefix_bits(), 6);
            lemma_uint_bits_len(self.shard_id.spec_prefix(), 64);
        }
        let mut b = BuilderData::new();
        let r = b.append_fragment(&f);
        b.into_cell()
    }

    pub fn construct_from(slice: &mut SliceData) -> (r: Result<ShardStateUnsplit, BlockError>)
        ensures
            match Self::parse(old(slice)@) {
                Ok((v, rest)) => r == Ok::<ShardStateUnsplit, BlockError>(v) && final(slice)@
                    == rest,
                Err(e) => r == Err::<ShardStateUnsplit, BlockError>(e),
            },
    {
        proof {
            reveal(ShardStateUnsplit::parse);
        }
        let ghost p = slice@;
        let tag = slice.get_next_u32()?;
        if tag != SHARD_STATE_TAG {
            return Err(BlockError::InvalidConstructorTag { tag });
        }
        let ghost r1 = slice@;
        let code = slice.get_next_u32()?;
        let workchain_id: i32 = if code >= 0x8000_0000 {
            (code as i64 - 0x1_0000_0000) as i32
        } else {
            code as i32
        };
        let ghost r2 = slice@;
        let prefix_bits = slice.get_next_uint(6)?;
        proof {
            lemma_bits_uint_bound(r2.bits.take(6));
            lemma2_to64();
        }
        let prefix = slice.get_next_u64()?;
        let shard_id = match ShardIdent::with_prefix(workchain_id, prefix_bits as u8, prefix) {
            Ok(id) => id,
            Err(_) => {
                return Err(BlockError::InvalidData);
            },
        };
        proof {
            shard_id.lemma_is_of();
        }
        let root = read_maybe_ref(slice)?;
        Ok(ShardStateUnsplit { shard_id, accounts: ShardAccounts { root } })
    }
}

} // verus!
