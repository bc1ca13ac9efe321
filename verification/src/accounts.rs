//! The account: its lifecycle, its balance, and the layout in which it is kept.
use crate::bits::{bits_uint, lemma_bits_uint_bound, lemma_uint_bits_len, uint_bits};
use crate::builder::{serialize, write_to, BuilderData, Fragment, Serializable};
use crate::cell::{
    bits_below, cells_below, lemma_sat_sum_bounded, lemma_sat_sum_short, tree_bits_of,
    tree_cells_of, Cell, Payload, UInt256,
};
use crate::codec::{lemma_concat_assoc, lemma_concat_empty, lemma_take_bit, lemma_take_hash, lemma_take_uint};
use crate::currency::{
    add_error, is_difference, is_sum, CurrencyCollection, ExtraCurrencyCollection,
};
use crate::dict::find;
use crate::error::BlockError;
use crate::merkle::{is_pruning_of, MerkleProof, UsageTree};
use crate::messages::{Message, MsgAddressInt, SimpleLib, StateInit, StateInitLib, TickTock};
use crate::shard::{ConfigParams, ShardIdent, ShardStateUnsplit};
use crate::slice::SliceData;
use crate::storage::{footprint_of, StorageExtra, StorageInfo, StorageUsed, Walk};
use crate::text::{decimal, hash_text, push_decimal, push_hash};
use crate::types::{Grams, Number5, VarUInteger7, MAX_VAR_UINT7};
use vstd::arithmetic::power2::lemma2_to64;
use vstd::prelude::*;
use vstd::std_specs::cmp::PartialEqSpecImpl;
use vstd::string::*;

verus! {

/// The position of an account in its lifecycle, as it is reported.
#[derive(Clone, Copy, Debug, PartialEq, Eq, Structural, PartialOrd, Ord)]
pub enum AccountStatus {
    AccStateUninit,
    AccStateFrozen,
    AccStateActive,
    AccStateNonexist,
}

impl AccountStatus {
    pub fn default() -> (r: AccountStatus)
        ensures
            r == AccountStatus::AccStateUninit,
    {
        AccountStatus::AccStateUninit
    }

    /// The two bits that stand for a status.
    pub open spec fn code(self) -> nat {
        match self {
            AccountStatus::AccStateUninit => 0,
            AccountStatus::AccStateFrozen => 1,
            AccountStatus::AccStateActive => 2,
            AccountStatus::AccStateNonexist => 3,
        }
    }

    /// The status that two bits stand for.
    pub open spec fn of_code(code: nat) -> AccountStatus {
        if code == 0 {
            AccountStatus::AccStateUninit
        } else if code == 1 {
            AccountStatus::AccStateFrozen
        } else if code == 2 {
            AccountStatus::AccStateActive
        } else {
            AccountStatus::AccStateNonexist
        }
    }

    /// The layout: two bits.
    pub open spec fn payload(&self) -> Payload {
        Payload::of_bits(uint_bits(self.code(), 2))
    }

    #[verifier::opaque]
    pub open spec fn parse(p: Payload) -> Result<(AccountStatus, Payload), BlockError> {
        match p.take_uint(2) {
            Err(e) => Err(e),
            Ok((code, rest)) => Ok((Self::of_code(code), rest)),
        }
    }

    pub proof fn lemma_parse_payload(self, rest: Payload)
        ensures
            Self::parse(self.payload().concat(rest)) == Ok::<(AccountStatus, Payload), BlockError>(
                (self, rest),
            ),
    {
        reveal(AccountStatus::parse);
        lemma2_to64();
        lemma_take_uint(self.code(), 2, rest);
    }

    pub fn encode(&self, out: &mut Fragment)
        ensures
            final(out)@ == old(out)@.concat(self.payload()),
    {
        let code: u128 = match self {
            AccountStatus::AccStateUninit => 0,
            AccountStatus::AccStateFrozen => 1,
            AccountStatus::AccStateActive => 2,
            AccountStatus::AccStateNonexist => 3,
        };
        out.push_uint(code, 2);
    }

    pub fn construct_from(slice: &mut SliceData) -> (r: Result<AccountStatus, BlockError>)
        ensures
            match Self::parse(old(slice)@) {
                Ok((v, rest)) => r == Ok::<AccountStatus, BlockError>(v) && final(slice)@ == rest,
                Err(e) => r == Err::<AccountStatus, BlockError>(e),
            },
    {
        proof {
            reveal(AccountStatus::parse);
        }
        let code = slice.get_next_uint(2)?;
        if code == 0 {
            Ok(AccountStatus::AccStateUninit)
        } else if code == 1 {
            Ok(AccountStatus::AccStateFrozen)
        } else if code == 2 {
            Ok(AccountStatus::AccStateActive)
        } else {
            Ok(AccountStatus::AccStateNonexist)
        }
    }

    /// Appends the layout to `builder`, or fails and changes nothing where it does not
    /// fit.
    pub fn write_to(&self, builder: &mut BuilderData) -> (r: Result<(), BlockError>)
        ensures
            old(builder)@.concat(self.payload()).fits() ==> r is Ok && final(builder)@
                == old(builder)@.concat(self.payload()),
            !old(builder)@.concat(self.payload()).fits() ==> r == Err::<(), BlockError>(
                BlockError::CellOverflow,
            ) && final(builder)@ == old(builder)@,
    {
        let mut f = Fragment::new();
        self.encode(&mut f);
        proof {
            crate::codec::lemma_concat_empty(self.payload());
        }
        builder.append_fragment(&f)
    }

    /// Reads a value in place of this one. Nothing changes where reading fails.
    pub fn read_from(&mut self, slice: &mut SliceData) -> (r: Result<(), BlockError>)
        ensures
            match Self::parse(old(slice)@) {
                Ok((v, rest)) => r is Ok && *final(self) == v && final(slice)@ == rest,
                Err(e) => r == Err::<(), BlockError>(e) && *final(self) == *old(self),
            },
    {
        let v = Self::construct_from(slice)?;
        *self = v;
        Ok(())
    }
}

impl Default for AccountStatus {
    fn default() -> (r: AccountStatus)
        ensures
            r == AccountStatus::AccStateUninit,
    {
        AccountStatus::default()
    }
}

impl Serializable for AccountStatus {
    open spec fn layout(&self) -> Payload {
        self.payload()
    }

    fn write_into(&self, out: &mut Fragment) {
        self.encode(out);
    }
}

/// The state of an account that exists.
#[derive(Debug, Eq)]
pub enum AccountState {
    AccountUninit,
    AccountActive { state_init: StateInit },
    AccountFrozen { state_init_hash: UInt256 },
}

impl PartialEq for AccountState {
    fn eq(&self, other: &AccountState) -> (r: bool) {
        match (self, other) {
            (AccountState::AccountUninit, AccountState::AccountUninit) => true,
            (
                AccountState::AccountActive { state_init: a },
                AccountState::AccountActive { state_init: b },
            ) => *a == *b,
            (
                AccountState::AccountFrozen { state_init_hash: a },
                AccountState::AccountFrozen { state_init_hash: b },
            ) => *a == *b,
            _ => false,
        }
    }
}

impl PartialEqSpecImpl for AccountState {
    open spec fn obeys_eq_spec() -> bool {
        true
    }

    open spec fn eq_spec(&self, other: &AccountState) -> bool {
        self.same_as(other)
    }
}

impl Clone for AccountState {
    fn clone(&self) -> (r: AccountState)
        ensures
            r == *self,
    {
        match self {
            AccountState::AccountUninit => AccountState::AccountUninit,
            AccountState::AccountActive { state_init } => AccountState::AccountActive {
                state_init: state_init.clone(),
            },
            AccountState::AccountFrozen { state_init_hash } => AccountState::AccountFrozen {
                state_init_hash: *state_init_hash,
            },
        }
    }
}

impl AccountState {
    pub open spec fn wf(&self) -> bool {
        self matches AccountState::AccountActive { state_init } ==> state_init.wf()
    }

    pub fn default() -> (r: AccountState)
        ensures
            r == AccountState::AccountUninit,
    {
        AccountState::AccountUninit
    }

    /// The layout: `00` for uninit; `01` and the hash for frozen; `1` and the state
    /// for active.
    pub open spec fn payload(&self) -> Payload {
        match *self {
            AccountState::AccountUninit => Payload::of_bits(seq![false, false]),
            AccountState::AccountFrozen { state_init_hash } => Payload::of_bits(
                seq![false, true],
            ).concat(Payload::of_bits(state_init_hash.bits())),
            AccountState::AccountActive { state_init } => Payload::of_bits(seq![true]).concat(
                state_init.payload(),
            ),
        }
    }

    #[verifier::opaque]
    pub open spec fn parse(p: Payload) -> Result<(AccountState, Payload), BlockError> {
        match p.take_bit() {
            Err(e) => Err(e),
            Ok((true, rest)) => match StateInit::parse(rest) {
                Err(e) => Err(e),
                Ok((state_init, rest2)) => Ok((AccountState::AccountActive { state_init }, rest2)),
            },
            Ok((false, rest)) => match rest.take_bit() {
                Err(e) => Err(e),
                Ok((true, rest2)) => match rest2.take_hash() {
                    Err(e) => Err(e),
                    Ok((state_init_hash, rest3)) => Ok(
                        (AccountState::AccountFrozen { state_init_hash }, rest3),
                    ),
                },
                Ok((false, rest2)) => Ok((AccountState::AccountUninit, rest2)),
            },
        }
    }

    pub proof fn lemma_parse_payload(self, rest: Payload)
        requires
            self.wf(),
        ensures
            Self::parse(self.payload().concat(rest)) == Ok::<(AccountState, Payload), BlockError>(
                (self, rest),
            ),
    {
        reveal(AccountState::parse);
        match self {
            AccountState::AccountUninit => {
                let b = Payload::of_bits(seq![false]);
                assert(self.payload().concat(rest) =~= b.concat(b.concat(rest)));
                lemma_take_bit(false, b.concat(rest));
                lemma_take_bit(false, rest);
            },
            AccountState::AccountFrozen { state_init_hash } => {
                let b0 = Payload::of_bits(seq![false]);
                let b1 = Payload::of_bits(seq![true]);
                let h = Payload::of_bits(state_init_hash.bits());
                assert(self.payload().concat(rest) =~= b0.concat(b1.concat(h.concat(rest))));
                lemma_take_bit(false, b1.concat(h.concat(rest)));
                lemma_take_bit(true, h.concat(rest));
                lemma_take_hash(state_init_hash, rest);
            },
            AccountState::AccountActive { state_init } => {
                lemma_concat_assoc(Payload::of_bits(seq![true]), state_init.payload(), rest);
                lemma_take_bit(true, state_init.payload().concat(rest));
                state_init.lemma_parse_payload(rest);
            },
        }
    }

    pub proof fn lemma_parse_wf(p: Payload)
        requires
            Self::parse(p) is Ok,
        ensures
            Self::parse(p)->Ok_0.0.wf(),
    {
        reveal(AccountState::parse);
        let (bit, rest) = p.take_bit()->Ok_0;
        if bit {
            StateInit::lemma_parse_wf(rest);
        }
    }

    pub fn encode(&self, out: &mut Fragment)
        ensures
            final(out)@ == old(out)@.concat(self.payload()),
    {
        match self {
            AccountState::AccountUninit => {
                out.push_bit(false);
                out.push_bit(false);
                assert(out@ =~= old(out)@.concat(self.payload()));
            },
            AccountState::AccountFrozen { state_init_hash } => {
                out.push_bit(false);
                out.push_bit(true);
                out.push_hash(state_init_hash);
                assert(out@ =~= old(out)@.concat(self.payload()));
            },
            AccountState::AccountActive { state_init } => {
                out.push_bit(true);
                state_init.encode(out);
                proof {
                    lemma_concat_assoc(
                        old(out)@,
                        Payload::of_bits(seq![true]),
                        state_init.payload(),
                    );
                }
            },
        }
    }

    pub fn construct_from(slice: &mut SliceData) -> (r: Result<AccountState, BlockError>)
        ensures
            match Self::parse(old(slice)@) {
                Ok((v, rest)) => r == Ok::<AccountState, BlockError>(v) && final(slice)@ == rest,
                Err(e) => r == Err::<AccountState, BlockError>(e),
            },
    {
        proof {
            reveal(AccountState::parse);
        }
        if slice.get_next_bit()? {
            let state_init = StateInit::construct_from(slice)?;
            Ok(AccountState::AccountActive { state_init })
        } else if slice.get_next_bit()? {
            let state_init_hash = slice.get_next_hash()?;
            Ok(AccountState::AccountFrozen { state_init_hash })
        } else {
            Ok(AccountState::AccountUninit)
        }
    }

    /// Appends the layout to `builder`, or fails and changes nothing where it does not
    /// fit.
    pub fn write_to(&self, builder: &mut BuilderData) -> (r: Result<(), BlockError>)
        ensures
            old(builder)@.concat(self.payload()).fits() ==> r is Ok && final(builder)@
                == old(builder)@.concat(self.payload()),
            !old(builder)@.concat(self.payload()).fits() ==> r == Err::<(), BlockError>(
                BlockError::CellOverflow,
            ) && final(builder)@ == old(builder)@,
    {
        let mut f = Fragment::new();
        self.encode(&mut f);
        proof {
            crate::codec::lemma_concat_empty(self.payload());
        }
        builder.append_fragment(&f)
    }

    /// Whether the two states are at the same position, with the same initial state or the
    /// same hash.
    pub open spec fn same_as(&self, other: &AccountState) -> bool {
        match (*self, *other) {
            (AccountState::AccountUninit, AccountState::AccountUninit) => true,
            (
                AccountState::AccountActive { state_init: a },
                AccountState::AccountActive { state_init: b },
            ) => a.same_as(&b),
            (
                AccountState::AccountFrozen { state_init_hash: a },
                AccountState::AccountFrozen { state_init_hash: b },
            ) => a == b,
            _ => false,
        }
    }

    /// The text of a state: its position and the hash it is committed to.
    pub open spec fn state_text(&self) -> Seq<char> {
        match *self {
            AccountState::AccountUninit => "AccountUninit"@,
            AccountState::AccountActive { state_init } => "AccountActive { state_init: "@
                + hash_text(state_init.spec_hash()) + " }"@,
            AccountState::AccountFrozen { state_init_hash } => "AccountFrozen { state_init_hash: "@
                + hash_text(state_init_hash) + " }"@,
        }
    }

    pub open spec fn text(&self) -> Seq<char> {
        "AccountStorage["@ + self.state_text() + "]"@
    }

    fn push_state(&self, s: &mut String)
        ensures
            final(s)@ == old(s)@ + self.state_text(),
    {
        match self {
            AccountState::AccountUninit => {
                s.append("AccountUninit");
            },
            AccountState::AccountActive { state_init } => {
                s.append("AccountActive { state_init: ");
                push_hash(s, &state_init.hash());
                s.append(" }");
            },
            AccountState::AccountFrozen { state_init_hash } => {
                s.append("AccountFrozen { state_init_hash: ");
                push_hash(s, state_init_hash);
                s.append(" }");
            },
        }
        assert(s@ =~= old(s)@ + self.state_text());
    }

    pub fn to_string(&self) -> (s: String)
        ensures
            s@ == self.text(),
    {
        let mut s = String::new();
        s.append("AccountStorage[");
        self.push_state(&mut s);
        s.append("]");
        assert(s@ =~= self.text());
        s
    }
}

impl Default for AccountState {
    fn default() -> (r: AccountState)
        ensures
            r == AccountState::AccountUninit,
    {
        AccountState::default()
    }
}

impl Serializable for AccountState {
    open spec fn layout(&self) -> Payload {
        self.payload()
    }

    fn write_into(&self, out: &mut Fragment) {
        self.encode(out);
    }
}

/// The hash of the code of `state_init` where `pin` is set and there is code.
pub open spec fn pinned_code_hash(state_init: StateInit, pin: bool) -> Option<UInt256> {
    if pin {
        match state_init.code {
            Some(code) => Some(code.hash()),
            None => None,
        }
    } else {
        None
    }
}

fn pin_code_hash(state_init: &StateInit, pin: bool) -> (r: Option<UInt256>)
    ensures
        r == pinned_code_hash(*state_init, pin),
{
    if pin {
        match state_init.code() {
            Some(code) => Some(code.repr_hash()),
            None => None,
        }
    } else {
        None
    }
}

/// What an account keeps: the time of its last transaction, its balance, its state, and
/// the hash of the code it was activated with, where that was pinned.
#[derive(Debug, Eq)]
pub struct AccountStorage {
    pub last_trans_lt: u64,
    pub balance: CurrencyCollection,
    pub state: AccountState,
    pub init_code_hash: Option<UInt256>,
}

impl PartialEq for AccountStorage {
    fn eq(&self, other: &AccountStorage) -> (r: bool) {
        self.last_trans_lt == other.last_trans_lt && self.balance == other.balance && self.state
            == other.state && self.init_code_hash == other.init_code_hash
    }
}

impl PartialEqSpecImpl for AccountStorage {
    open spec fn obeys_eq_spec() -> bool {
        true
    }

    open spec fn eq_spec(&self, other: &AccountStorage) -> bool {
        self.same_as(other)
    }
}

impl Clone for AccountStorage {
    fn clone(&self) -> (r: AccountStorage)
        ensures
            r == *self,
    {
        AccountStorage {
            last_trans_lt: self.last_trans_lt,
            balance: self.balance.clone(),
            state: self.state.clone(),
            init_code_hash: self.init_code_hash,
        }
    }
}

impl AccountStorage {
    pub open spec fn wf(&self) -> bool {
        self.balance.wf() && self.state.wf()
    }

    /// The storage of an uninitialised account with no funds.
    pub fn default() -> (r: AccountStorage)
        ensures
            r.last_trans_lt == 0,
            r.balance.grams@ == 0,
            r.balance.other.root is None,
            r.state == AccountState::AccountUninit,
            r.init_code_hash is None,
            r.wf(),
    {
        AccountStorage {
            last_trans_lt: 0,
            balance: CurrencyCollection::default(),
            state: AccountState::AccountUninit,
            init_code_hash: None,
        }
    }

    /// The storage of an uninitialised account.
    pub fn unint(balance: CurrencyCollection) -> (r: AccountStorage)
        ensures
            r == (AccountStorage {
                last_trans_lt: 0,
                balance,
                state: AccountState::AccountUninit,
                init_code_hash: None,
            }),
    {
        AccountStorage {
            last_trans_lt: 0,
            balance,
            state: AccountState::AccountUninit,
            init_code_hash: None,
        }
    }

    /// The storage of an active account. Where `init_code_hash` is set, the hash of the
    /// code is pinned.
    pub fn active_by_init_code_hash(
        last_trans_lt: u64,
        balance: CurrencyCollection,
        state_init: StateInit,
        init_code_hash: bool,
    ) -> (r: AccountStorage)
        ensures
            r == (AccountStorage {
                last_trans_lt,
                balance,
                state: AccountState::AccountActive { state_init },
                init_code_hash: pinned_code_hash(state_init, init_code_hash),
            }),
    {
        let init_code_hash = pin_code_hash(&state_init, init_code_hash);
        AccountStorage {
            last_trans_lt,
            balance,
            state: AccountState::AccountActive { state_init },
            init_code_hash,
        }
    }

    /// The storage of a frozen account.
    pub fn frozen(last_trans_lt: u64, balance: CurrencyCollection, state_init_hash: UInt256) -> (r:
        AccountStorage)
        ensures
            r == (AccountStorage {
                last_trans_lt,
                balance,
                state: AccountState::AccountFrozen { state_init_hash },
                init_code_hash: None,
            }),
    {
        AccountStorage {
            last_trans_lt,
            balance,
            state: AccountState::AccountFrozen { state_init_hash },
            init_code_hash: None,
        }
    }

    pub fn last_trans_lt(&self) -> (lt: u64)
        ensures
            lt == self.last_trans_lt,
    {
        self.last_trans_lt
    }

    pub fn balance(&self) -> (b: &CurrencyCollection)
        ensures
            *b == self.balance,
    {
        &self.balance
    }

    pub fn set_balance(&mut self, balance: CurrencyCollection)
        ensures
            *final(self) == (AccountStorage { balance, ..*old(self) }),
    {
        self.balance = balance;
    }

    /// The storage of an uninitialised account with the given balance.
    pub fn with_balance(balance: CurrencyCollection) -> (r: AccountStorage)
        ensures
            r == (AccountStorage {
                last_trans_lt: 0,
                balance,
                state: AccountState::AccountUninit,
                init_code_hash: None,
            }),
    {
        Self::unint(balance)
    }

    pub fn state(&self) -> (s: &AccountState)
        ensures
            *s == self.state,
    {
        &self.state
    }

    /// The layout of the pinned hash: nothing where there is none; a one bit and the hash.
    pub open spec fn pinned_payload(h: Option<UInt256>) -> Payload {
        match h {
            None => Payload::empty(),
            Some(hash) => Payload::of_bits(seq![true]).concat(Payload::of_bits(hash.bits())),
        }
    }

    /// The layout: the time on 64 bits, the balance, the state, and the pinned hash where
    /// there is one.
    pub open spec fn payload(&self) -> Payload {
        Payload::of_bits(uint_bits(self.last_trans_lt as nat, 64)).concat(
            self.balance.payload(),
        ).concat(self.state.payload()).concat(Self::pinned_payload(self.init_code_hash))
    }

    fn encode_pinned(h: &Option<UInt256>, out: &mut Fragment)
        ensures
            final(out)@ == old(out)@.concat(Self::pinned_payload(*h)),
    {
        match h {
            None => {
                proof {
                    lemma_concat_empty(old(out)@);
                }
            },
            Some(hash) => {
                out.push_bit(true);
                out.push_hash(hash);
                proof {
                    lemma_concat_assoc(
                        old(out)@,
                        Payload::of_bits(seq![true]),
                        Payload::of_bits(hash.bits()),
                    );
                }
            },
        }
    }

    pub fn encode(&self, out: &mut Fragment)
        ensures
            final(out)@ == old(out)@.concat(self.payload()),
    {
        out.push_uint(self.last_trans_lt as u128, 64);
        self.balance.encode(out);
        self.state.encode(out);
        Self::encode_pinned(&self.init_code_hash, out);
        proof {
            let a = Payload::of_bits(uint_bits(self.last_trans_lt as nat, 64));
            let b = self.balance.payload();
            let c = self.state.payload();
            let d = Self::pinned_payload(self.init_code_hash);
            lemma_concat_assoc(old(out)@, a, b);
            lemma_concat_assoc(old(out)@, a.concat(b), c);
            lemma_concat_assoc(old(out)@, a.concat(b).concat(c), d);
        }
    }

    /// Reads the pinned hash where the layout has it: one bit and, behind a one, the hash.
    #[verifier::opaque]
    pub open spec fn parse_pinned(p: Payload, extended: bool) -> Result<
        (Option<UInt256>, Payload),
        BlockError,
    > {
        if !extended {
            Ok((None, p))
        } else {
            match p.take_bit() {
                Err(e) => Err(e),
                Ok((false, rest)) => Ok((None, rest)),
                Ok((true, rest)) => match rest.take_hash() {
                    Err(e) => Err(e),
                    Ok((h, rest2)) => Ok((Some(h), rest2)),
                },
            }
        }
    }

    /// Reads a storage. The original layout has no pinned hash; the extended one ends
    /// with it.
    #[verifier::opaque]
    pub open spec fn parse(p: Payload, extended: bool) -> Result<
        (AccountStorage, Payload),
        BlockError,
    > {
        match p.take_uint(64) {
            Err(e) => Err(e),
            Ok((lt, r1)) => match CurrencyCollection::parse(r1) {
                Err(e) => Err(e),
                Ok((balance, r2)) => match AccountState::parse(r2) {
                    Err(e) => Err(e),
                    Ok((state, r3)) => match Self::parse_pinned(r3, extended) {
                        Err(e) => Err(e),
                        Ok((init_code_hash, r4)) => Ok(
                            (
                                AccountStorage {
                                    last_trans_lt: lt as u64,
                                    balance,
                                    state,
                                    init_code_hash,
                                },
                                r4,
                            ),
                        ),
                    },
                },
            },
        }
    }

    pub proof fn lemma_parse_pinned(h: Option<UInt256>, rest: Payload)
        ensures
            Self::parse_pinned(Self::pinned_payload(h).concat(rest), h is Some) == Ok::<
                (Option<UInt256>, Payload),
                BlockError,
            >((h, rest)),
    {
        reveal(AccountStorage::parse_pinned);
        match h {
            None => {
                lemma_concat_empty(rest);
            },
            Some(hash) => {
                lemma_concat_assoc(
                    Payload::of_bits(seq![true]),
                    Payload::of_bits(hash.bits()),
                    rest,
                );
                lemma_take_bit(true, Payload::of_bits(hash.bits()).concat(rest));
                lemma_take_hash(hash, rest);
            },
        }
    }

    /// A storage is read back as it was written, in the layout it was written in.
    pub proof fn lemma_parse_payload(self, rest: Payload)
        requires
            self.wf(),
        ensures
            Self::parse(self.payload().concat(rest), self.init_code_hash is Some) == Ok::<
                (AccountStorage, Payload),
                BlockError,
            >((self, rest)),
    {
        reveal(AccountStorage::parse);
        let a = Payload::of_bits(uint_bits(self.last_trans_lt as nat, 64));
        let b = self.balance.payload();
        let c = self.state.payload();
        let d = Self::pinned_payload(self.init_code_hash);
        let r3 = d.concat(rest);
        let r2 = c.concat(r3);
        let r1 = b.concat(r2);
        lemma_concat_assoc(a.concat(b).concat(c), d, rest);
        lemma_concat_assoc(a.concat(b), c, r3);
        lemma_concat_assoc(a, b, r2);
        crate::bits::lemma_pow2_128();
        lemma_take_uint(self.last_trans_lt as nat, 64, r1);
        self.balance.lemma_parse_payload(r2);
        self.state.lemma_parse_payload(r3);
        Self::lemma_parse_pinned(self.init_code_hash, rest);
    }

    pub proof fn lemma_parse_wf(p: Payload, extended: bool)
        requires
            Self::parse(p, extended) is Ok,
        ensures
            Self::parse(p, extended)->Ok_0.0.wf(),
    {
        reveal(AccountStorage::parse);
        let r1 = p.take_uint(64)->Ok_0.1;
        CurrencyCollection::lemma_parse_wf(r1);
        let r2 = CurrencyCollection::parse(r1)->Ok_0.1;
        AccountState::lemma_parse_wf(r2);
    }

    fn read_pinned(slice: &mut SliceData, extended: bool) -> (r: Result<Option<UInt256>, BlockError>)
        ensures
            match Self::parse_pinned(old(slice)@, extended) {
                Ok((v, rest)) => r == Ok::<Option<UInt256>, BlockError>(v) && final(slice)@ == rest,
                Err(e) => r == Err::<Option<UInt256>, BlockError>(e),
            },
    {
        proof {
            reveal(AccountStorage::parse_pinned);
        }
        if !extended {
            Ok(None)
        } else if slice.get_next_bit()? {
            Ok(Some(slice.get_next_hash()?))
        } else {
            Ok(None)
        }
    }

    pub fn construct_from(slice: &mut SliceData, extended: bool) -> (r: Result<
        AccountStorage,
        BlockError,
    >)
        ensures
            match Self::parse(old(slice)@, extended) {
                Ok((v, rest)) => r == Ok::<AccountStorage, BlockError>(v) && final(slice)@ == rest,
                Err(e) => r == Err::<AccountStorage, BlockError>(e),
            },
    {
        proof {
            reveal(AccountStorage::parse);
        }
        let last_trans_lt = slice.get_next_u64()?;
        let balance = CurrencyCollection::construct_from(slice)?;
        let state = AccountState::construct_from(slice)?;
        let init_code_hash = Self::read_pinned(slice, extended)?;
        Ok(AccountStorage { last_trans_lt, balance, state, init_code_hash })
    }

    /// Every child of the layout of a storage is the root of the extra currencies, or
    /// the code, the data or the root of the libraries of an active account.
    pub proof fn lemma_payload_children(self)
        ensures
            forall|i: int|
                0 <= i < self.payload().refs.len() ==> {
                    let child = Some(#[trigger] self.payload().refs[i]);
                    ||| child == self.balance.other.root
                    ||| self.state matches AccountState::AccountActive { state_init } && (child
                        == state_init.code || child == state_init.data || child
                        == state_init.library.root)
                },
    {
    }

    /// The layout of a storage has at most 704 bits and four children: one node holds
    /// it.
    pub proof fn lemma_payload_len(self)
        requires
            self.wf(),
        ensures
            self.payload().bits.len() <= 704,
            self.payload().refs.len() <= 4,
            self.payload().fits(),
    {
        lemma_uint_bits_len(self.last_trans_lt as nat, 64);
        self.balance.lemma_payload_len();
        match self.state {
            AccountState::AccountFrozen { state_init_hash } => {
                lemma_uint_bits_len(state_init_hash.hi as nat, 128);
                lemma_uint_bits_len(state_init_hash.lo as nat, 128);
            },
            AccountState::AccountActive { state_init } => {
                state_init.lemma_payload_small();
            },
            _ => {},
        }
        match self.init_code_hash {
            Some(h) => {
                lemma_uint_bits_len(h.hi as nat, 128);
                lemma_uint_bits_len(h.lo as nat, 128);
            },
            None => {},
        }
    }

    /// Appends the layout to `builder`, or fails and changes nothing where it does not
    /// fit.
    pub fn write_to(&self, builder: &mut BuilderData) -> (r: Result<(), BlockError>)
        ensures
            old(builder)@.concat(self.payload()).fits() ==> r is Ok && final(builder)@
                == old(builder)@.concat(self.payload()),
            !old(builder)@.concat(self.payload()).fits() ==> r == Err::<(), BlockError>(
                BlockError::CellOverflow,
            ) && final(builder)@ == old(builder)@,
    {
        let mut f = Fragment::new();
        self.encode(&mut f);
        proof {
            crate::codec::lemma_concat_empty(self.payload());
        }
        builder.append_fragment(&f)
    }

    /// Whether the two storages hold the same, nodes being the same where their hashes
    /// are.
    pub open spec fn same_as(&self, other: &AccountStorage) -> bool {
        self.last_trans_lt == other.last_trans_lt && self.balance.same_as(&other.balance)
            && self.state.same_as(&other.state) && self.init_code_hash == other.init_code_hash
    }

    /// The text of a storage: the time of the last transaction, the balance and the
    /// state.
    pub open spec fn text(&self) -> Seq<char> {
        "AccountStorage[last_trans_lt "@ + decimal(self.last_trans_lt as nat) + ", balance "@
            + self.balance.text() + ", account state "@ + self.state.state_text() + "]"@
    }

    pub fn to_string(&self) -> (s: String)
        ensures
            s@ == self.text(),
    {
        let mut s = String::new();
        s.append("AccountStorage[last_trans_lt ");
        push_decimal(&mut s, self.last_trans_lt as u128);
        s.append(", balance ");
        let balance = self.balance.to_string();
        s.append(balance.as_str());
        s.append(", account state ");
        self.state.push_state(&mut s);
        s.append("]");
        assert(s@ =~= self.text());
        s
    }
}

impl Default for AccountStorage {
    fn default() -> (r: AccountStorage)
        ensures
            r.last_trans_lt == 0,
            r.balance.grams@ == 0,
            r.balance.other.root is None,
            r.state == AccountState::AccountUninit,
            r.init_code_hash is None,
            r.wf(),
    {
        AccountStorage::default()
    }
}

impl Serializable for AccountStorage {
    open spec fn layout(&self) -> Payload {
        self.payload()
    }

    fn write_into(&self, out: &mut Fragment) {
        self.encode(out);
    }
}

/// An account that exists: its address, its rent bookkeeping, and what it keeps.
#[derive(Debug, Eq)]
pub struct AccountStuff {
    pub addr: MsgAddressInt,
    pub storage_stat: StorageInfo,
    pub storage: AccountStorage,
}

impl PartialEq for AccountStuff {
    fn eq(&self, other: &AccountStuff) -> (r: bool) {
        self.addr == other.addr && self.storage_stat == other.storage_stat && self.storage
            == other.storage
    }
}

impl PartialEqSpecImpl for AccountStuff {
    open spec fn obeys_eq_spec() -> bool {
        true
    }

    open spec fn eq_spec(&self, other: &AccountStuff) -> bool {
        self.same_as(other)
    }
}

impl Clone for AccountStuff {
    fn clone(&self) -> (r: AccountStuff)
        ensures
            r == *self,
    {
        AccountStuff {
            addr: self.addr,
            storage_stat: self.storage_stat,
            storage: self.storage.clone(),
        }
    }
}

impl AccountStuff {
    pub open spec fn wf(&self) -> bool {
        self.addr.wf() && self.storage_stat.wf() && self.storage.wf()
    }

    pub fn addr(&self) -> (a: &MsgAddressInt)
        ensures
            *a == self.addr,
    {
        &self.addr
    }

    pub fn storage_stat(&self) -> (s: &StorageInfo)
        ensures
            *s == self.storage_stat,
    {
        &self.storage_stat
    }

    pub fn storage(&self) -> (s: &AccountStorage)
        ensures
            *s == self.storage,
    {
        &self.storage
    }

    /// The initial state of an active account, to be changed in place.
    pub fn state_init_mut(&mut self) -> (r: Option<&mut StateInit>)
        ensures
            match r {
                Some(state_init) => old(self).storage.state == (AccountState::AccountActive {
                    state_init: *state_init,
                }) && *final(self) == (AccountStuff {
                    storage: AccountStorage {
                        state: AccountState::AccountActive { state_init: *final(state_init) },
                        ..old(self).storage
                    },
                    ..*old(self)
                }),
                None => !(old(self).storage.state is AccountActive) && *final(self) == *old(self),
            },
    {
        match &mut self.storage.state {
            AccountState::AccountActive { state_init } => Some(state_init),
            _ => None,
        }
    }

    /// Whether `self` is `before` with the footprint `cells` and `bits` and nothing behind
    /// the counts.
    pub open spec fn is_recounted(&self, before: AccountStuff, cells: nat, bits: nat) -> bool {
        &&& self.addr == before.addr
        &&& self.storage == before.storage
        &&& self.storage_stat.last_paid == before.storage_stat.last_paid
        &&& self.storage_stat.due_payment == before.storage_stat.due_payment
        &&& self.storage_stat.used.wf()
        &&& self.storage_stat.used.cells@ == cells
        &&& self.storage_stat.used.bits@ == bits
        &&& self.storage_stat.used.extra == StorageExtra::Empty
    }

    /// Counts the footprint of the storage anew, node by node, each distinct node once.
    /// It fails and changes nothing where the storage is longer than one node, or where
    /// a count would pass the bound of a count.
    fn update_storage_stat(&mut self) -> (r: Result<(), BlockError>)
        ensures
            match footprint_of(old(self).storage.payload()) {
                Ok(walk) => r is Ok && final(self).is_recounted(*old(self), walk.cells, walk.bits),
                Err(e) => r == Err::<(), BlockError>(e) && *final(self) == *old(self),
            },
            old(self).storage.payload().fits() && fast_counts_fit(old(self).storage.payload())
                ==> r is Ok,
    {
        let used = StorageUsed::calculate_for_struct(&self.storage)?;
        self.storage_stat.used = used;
        Ok(())
    }

    /// Takes the footprint of the storage from the counts that its root node carries:
    /// every node counted as often as it is referred to. It fails and changes nothing
    /// where the storage is longer than one node, or where a count needs more than
    /// seven bytes.
    fn update_storage_stat_fast(&mut self) -> (r: Result<(), BlockError>)
        ensures
            !old(self).storage.payload().fits() ==> r == Err::<(), BlockError>(
                BlockError::CellOverflow,
            ) && *final(self) == *old(self),
            old(self).storage.payload().fits() && !fast_counts_fit(old(self).storage.payload())
                ==> r == Err::<(), BlockError>(BlockError::IntegerOverflow) && *final(self)
                == *old(self),
            old(self).storage.payload().fits() && fast_counts_fit(old(self).storage.payload())
                ==> r is Ok && final(self).is_recounted(
                *old(self),
                tree_cells_of(old(self).storage.payload().refs),
                tree_bits_of(
                    old(self).storage.payload().bits.len(),
                    old(self).storage.payload().refs,
                ),
            ),
    {
        let cell = serialize(&self.storage)?;
        let bits = VarUInteger7::new(cell.tree_bits_count())?;
        let cells = VarUInteger7::new(cell.tree_cell_count())?;
        self.storage_stat.used = StorageUsed { cells, bits, extra: StorageExtra::default() };
        Ok(())
    }

    /// The layout: the address, the rent bookkeeping, the storage.
    pub open spec fn payload(&self) -> Payload {
        self.addr.payload().concat(self.storage_stat.payload()).concat(self.storage.payload())
    }

    #[verifier::opaque]
    pub open spec fn parse(p: Payload, extended: bool) -> Result<(AccountStuff, Payload), BlockError> {
        match MsgAddressInt::parse(p) {
            Err(e) => Err(e),
            Ok((addr, r1)) => match StorageInfo::parse(r1) {
                Err(e) => Err(e),
                Ok((storage_stat, r2)) => match AccountStorage::parse(r2, extended) {
                    Err(e) => Err(e),
                    Ok((storage, r3)) => Ok((AccountStuff { addr, storage_stat, storage }, r3)),
                },
            },
        }
    }

    pub proof fn lemma_parse_payload(self, rest: Payload)
        requires
            self.wf(),
        ensures
            Self::parse(self.payload().concat(rest), self.storage.init_code_hash is Some) == Ok::<
                (AccountStuff, Payload),
                BlockError,
            >((self, rest)),
    {
        reveal(AccountStuff::parse);
        let a = self.addr.payload();
        let b = self.storage_stat.payload();
        let c = self.storage.payload();
        lemma_concat_assoc(a.concat(b), c, rest);
        lemma_concat_assoc(a, b, c.concat(rest));
        self.addr.lemma_parse_payload(b.concat(c.concat(rest)));
        self.storage_stat.lemma_parse_payload(c.concat(rest));
        self.storage.lemma_parse_payload(rest);
    }

    pub proof fn lemma_parse_wf(p: Payload, extended: bool)
        requires
            Self::parse(p, extended) is Ok,
        ensures
            Self::parse(p, extended)->Ok_0.0.wf(),
    {
        reveal(AccountStuff::parse);
        MsgAddressInt::lemma_parse_wf(p);
        let r1 = MsgAddressInt::parse(p)->Ok_0.1;
        StorageInfo::lemma_parse_wf(r1);
        let r2 = StorageInfo::parse(r1)->Ok_0.1;
        AccountStorage::lemma_parse_wf(r2, extended);
    }

    pub fn encode(&self, out: &mut Fragment)
        ensures
            final(out)@ == old(out)@.concat(self.payload()),
    {
        self.addr.encode(out);
        self.storage_stat.encode(out);
        self.storage.encode(out);
        proof {
            let a = self.addr.payload();
            let b = self.storage_stat.payload();
            let c = self.storage.payload();
            lemma_concat_assoc(old(out)@, a, b);
            lemma_concat_assoc(old(out)@, a.concat(b), c);
        }
    }

    pub fn construct_from(slice: &mut SliceData, extended: bool) -> (r: Result<
        AccountStuff,
        BlockError,
    >)
        ensures
            match Self::parse(old(slice)@, extended) {
                Ok((v, rest)) => r == Ok::<AccountStuff, BlockError>(v) && final(slice)@ == rest,
                Err(e) => r == Err::<AccountStuff, BlockError>(e),
            },
    {
        proof {
            reveal(AccountStuff::parse);
        }
        let addr = MsgAddressInt::construct_from(slice)?;
        let storage_stat = StorageInfo::construct_from(slice)?;
        let storage = AccountStorage::construct_from(slice, extended)?;
        Ok(AccountStuff { addr, storage_stat, storage })
    }

    /// Appends the layout to `builder`, or fails and changes nothing where it does not
    /// fit.
    pub fn write_to(&self, builder: &mut BuilderData) -> (r: Result<(), BlockError>)
        ensures
            old(builder)@.concat(self.payload()).fits() ==> r is Ok && final(builder)@
                == old(builder)@.concat(self.payload()),
            !old(builder)@.concat(self.payload()).fits() ==> r == Err::<(), BlockError>(
                BlockError::CellOverflow,
            ) && final(builder)@ == old(builder)@,
    {
        let mut f = Fragment::new();
        self.encode(&mut f);
        proof {
            crate::codec::lemma_concat_empty(self.payload());
        }
        builder.append_fragment(&f)
    }

    /// Whether the two accounts have the same address, rent bookkeeping and storage.
    pub open spec fn same_as(&self, other: &AccountStuff) -> bool {
        self.addr == other.addr && self.storage_stat == other.storage_stat
            && self.storage.same_as(&other.storage)
    }
}

impl Serializable for AccountStuff {
    open spec fn layout(&self) -> Payload {
        self.payload()
    }

    fn write_into(&self, out: &mut Fragment) {
        self.encode(out);
    }
}

/// Whether the counts that the root node of `layout` carries fit into seven bytes each.
pub open spec fn fast_counts_fit(layout: Payload) -> bool {
    tree_cells_of(layout.refs) <= MAX_VAR_UINT7 && tree_bits_of(layout.bits.len(), layout.refs)
        <= MAX_VAR_UINT7
}

/// The storage of the account that a message creates, where it creates one: the message
/// is internal and brings funds; it brings a state with code, or brings no state and
/// does not ask to be bounced.
pub open spec fn message_storage(msg: Message, pin: bool) -> Option<AccountStorage> {
    match msg.header {
        crate::messages::CommonMsgInfo::IntMsgInfo(hdr) => if hdr.value.grams@ == 0 {
            None
        } else {
            match msg.init {
                Some(init) => match init.code {
                    Some(code) => Some(
                        AccountStorage {
                            last_trans_lt: 0,
                            balance: hdr.value,
                            state: AccountState::AccountActive { state_init: init },
                            init_code_hash: if pin {
                                Some(code.hash())
                            } else {
                                None
                            },
                        },
                    ),
                    None => None,
                },
                None => if hdr.bounce {
                    None
                } else {
                    Some(
                        AccountStorage {
                            last_trans_lt: 0,
                            balance: hdr.value,
                            state: AccountState::AccountUninit,
                            init_code_hash: None,
                        },
                    )
                },
            }
        },
        _ => None,
    }
}

/// The hashes of the nodes that are opened to read the account with the given identifier
/// under a state root: the root, the nodes of the dictionary on the way to the account's
/// entry, the node of the entry, and the node of the account. It fails where the state,
/// the entry or the account cannot be read, and where the state does not hold the
/// account.
pub open spec fn proof_visits(state_root: Cell, account_id: UInt256) -> Result<
    Set<UInt256>,
    BlockError,
> {
    if state_root.is_pruned() {
        Err(BlockError::PrunedCellAccess)
    } else {
        match ShardStateUnsplit::parse(state_root.payload()) {
            Err(e) => Err(e),
            Ok((state, rest)) => match state.accounts.spec_get(account_id) {
                Err(e) => Err(e),
                Ok(None) => Err(BlockError::NotFound),
                Ok(Some(entry)) => if entry.spec_account_cell().is_pruned() {
                    Err(BlockError::PrunedCellAccess)
                } else {
                    match Account::parse(entry.spec_account_cell().payload()) {
                        Err(e) => Err(e),
                        Ok(_) => Ok(
                            Set::empty().insert(state_root.hash()).union(
                                state.accounts.get_visits(account_id),
                            ).insert(entry.spec_account_cell().hash()),
                        ),
                    }
                },
            },
        }
    }
}

/// What the index of a shard keeps beside an account: the split depth of the account and
/// its balance.
#[derive(Debug, PartialEq, Eq)]
pub struct DepthBalanceInfo {
    pub split_depth: Option<Number5>,
    pub balance: CurrencyCollection,
}

/// An account, or the mark that there is none.
#[derive(Debug, Eq)]
pub enum Account {
    AccountNone,
    Account(AccountStuff),
}

impl PartialEq for Account {
    fn eq(&self, other: &Account) -> (r: bool) {
        match (self.stuff(), other.stuff()) {
            (Some(stuff1), Some(stuff2)) => stuff1.addr == stuff2.addr && stuff1.storage_stat
                == stuff2.storage_stat && stuff1.storage == stuff2.storage,
            (None, None) => true,
            _ => false,
        }
    }
}

impl PartialEqSpecImpl for Account {
    open spec fn obeys_eq_spec() -> bool {
        true
    }

    open spec fn eq_spec(&self, other: &Account) -> bool {
        self.same_as(other)
    }
}

impl Clone for Account {
    fn clone(&self) -> (r: Account)
        ensures
            r == *self,
    {
        match self {
            Account::AccountNone => Account::AccountNone,
            Account::Account(stuff) => Account::Account(stuff.clone()),
        }
    }
}

impl Account {
    pub open spec fn wf(&self) -> bool {
        self matches Account::Account(stuff) ==> stuff.wf()
    }

    /// The status that stands for the account's position in its lifecycle.
    pub open spec fn spec_status(&self) -> AccountStatus {
        match *self {
            Account::AccountNone => AccountStatus::AccStateNonexist,
            Account::Account(stuff) => match stuff.storage.state {
                AccountState::AccountUninit => AccountStatus::AccStateUninit,
                AccountState::AccountFrozen { .. } => AccountStatus::AccStateFrozen,
                AccountState::AccountActive { .. } => AccountStatus::AccStateActive,
            },
        }
    }

    /// The account with its state replaced.
    pub open spec fn with_state(&self, state: AccountState) -> Account {
        match *self {
            Account::AccountNone => Account::AccountNone,
            Account::Account(stuff) => Account::Account(
                AccountStuff { storage: AccountStorage { state, ..stuff.storage }, ..stuff },
            ),
        }
    }

    /// The account after freezing: an active account keeps the hash of its state and
    /// nothing else of it; any other account stays as it is.
    pub open spec fn frozen_form(&self) -> Account {
        match *self {
            Account::Account(stuff) => match stuff.storage.state {
                AccountState::AccountActive { state_init } => self.with_state(
                    AccountState::AccountFrozen { state_init_hash: state_init.spec_hash() },
                ),
                _ => *self,
            },
            Account::AccountNone => *self,
        }
    }

    /// The account after its state was discarded: an active account becomes
    /// uninitialised; any other account stays as it is.
    pub open spec fn uninit_form(&self) -> Account {
        match *self {
            Account::Account(stuff) => match stuff.storage.state {
                AccountState::AccountActive { .. } => self.with_state(AccountState::AccountUninit),
                _ => *self,
            },
            Account::AccountNone => *self,
        }
    }

    /// The account after activation with `state_init`, or why it cannot be activated.
    /// An uninitialised account is activated by the state whose hash is its address, a
    /// frozen account by the state whose hash it kept; either pins the hash of the code
    /// where `pin` is set, and pins nothing where it is not. An active account stays as
    /// it is, and so does the mark that there is no account.
    pub open spec fn activated(&self, state_init: StateInit, pin: bool) -> Result<
        Account,
        BlockError,
    > {
        match *self {
            Account::AccountNone => Ok(*self),
            Account::Account(stuff) => match stuff.storage.state {
                AccountState::AccountUninit => if state_init.spec_hash() == stuff.addr.address {
                    Ok(
                        Account::Account(
                            AccountStuff {
                                storage: AccountStorage {
                                    state: AccountState::AccountActive { state_init },
                                    init_code_hash: pinned_code_hash(state_init, pin),
                                    ..stuff.storage
                                },
                                ..stuff
                            },
                        ),
                    )
                } else {
                    Err(BlockError::HashMismatch)
                },
                AccountState::AccountFrozen { state_init_hash } => if state_init_hash
                    == state_init.spec_hash() {
                    Ok(
                        Account::Account(
                            AccountStuff {
                                storage: AccountStorage {
                                    state: AccountState::AccountActive { state_init },
                                    init_code_hash: pinned_code_hash(state_init, pin),
                                    ..stuff.storage
                                },
                                ..stuff
                            },
                        ),
                    )
                } else {
                    Err(BlockError::HashMismatch)
                },
                AccountState::AccountActive { .. } => Ok(*self),
            },
        }
    }

    /// The mark that there is no account.
    pub fn default() -> (r: Account)
        ensures
            r == Account::AccountNone,
    {
        Self::new()
    }

    /// The mark that there is no account.
    pub fn new() -> (r: Account)
        ensures
            r == Account::AccountNone,
    {
        Account::AccountNone
    }

    /// An uninitialised account with the given address and balance.
    pub fn with_address_and_ballance(addr: &MsgAddressInt, balance: &CurrencyCollection) -> (r:
        Account)
        ensures
            r matches Account::Account(stuff) && stuff.addr == *addr && stuff.storage == (
            AccountStorage {
                last_trans_lt: 0,
                balance: *balance,
                state: AccountState::AccountUninit,
                init_code_hash: None,
            }) && stuff.storage_stat.used.cells@ == 0 && stuff.storage_stat.used.bits@ == 0
                && stuff.storage_stat.used.extra == StorageExtra::Empty
                && stuff.storage_stat.last_paid == 0 && stuff.storage_stat.due_payment is None,
    {
        Account::Account(
            AccountStuff {
                addr: *addr,
                storage_stat: StorageInfo::default(),
                storage: AccountStorage::with_balance(balance.clone()),
            },
        )
    }

    /// An uninitialised account with the given address and no funds.
    pub fn with_address(addr: MsgAddressInt) -> (r: Account)
        ensures
            r matches Account::Account(stuff) && stuff.addr == addr && stuff.storage.last_trans_lt
                == 0 && stuff.storage.balance.grams@ == 0 && stuff.storage.balance.other.root is None
                && stuff.storage.state == AccountState::AccountUninit
                && stuff.storage.init_code_hash is None && stuff.storage_stat.used.cells@ == 0
                && stuff.storage_stat.used.bits@ == 0 && stuff.storage_stat.used.extra
                == StorageExtra::Empty && stuff.storage_stat.last_paid == 0
                && stuff.storage_stat.due_payment is None,
    {
        Account::Account(
            AccountStuff {
                addr,
                storage_stat: StorageInfo::default(),
                storage: AccountStorage::default(),
            },
        )
    }

    /// An account with the given address, rent bookkeeping and storage.
    pub fn with_storage(addr: &MsgAddressInt, storage_stat: &StorageInfo, storage: &AccountStorage)
        -> (r: Account)
        ensures
            r == Account::Account(
                AccountStuff { addr: *addr, storage_stat: *storage_stat, storage: *storage },
            ),
    {
        Account::Account(
            AccountStuff { addr: *addr, storage_stat: *storage_stat, storage: storage.clone() },
        )
    }

    pub fn is_none(&self) -> (b: bool)
        ensures
            b == (*self is AccountNone),
    {
        match self {
            Account::AccountNone => true,
            Account::Account(_) => false,
        }
    }

    pub fn stuff(&self) -> (r: Option<&AccountStuff>)
        ensures
            r == match *self {
                Account::Account(stuff) => Some(&stuff),
                Account::AccountNone => None,
            },
    {
        match self {
            Account::Account(stuff) => Some(stuff),
            Account::AccountNone => None,
        }
    }

    /// The hash that a frozen account kept.
    pub fn frozen_hash(&self) -> (r: Option<&UInt256>)
        ensures
            r == match *self {
                Account::Account(stuff) => match stuff.storage.state {
                    AccountState::AccountFrozen { state_init_hash } => Some(&state_init_hash),
                    _ => None,
                },
                Account::AccountNone => None,
            },
    {
        match self {
            Account::Account(stuff) => match &stuff.storage.state {
                AccountState::AccountFrozen { state_init_hash } => Some(state_init_hash),
                _ => None,
            },
            Account::AccountNone => None,
        }
    }

    /// The pinned hash of the code that the account was activated with.
    pub fn init_code_hash(&self) -> (r: Option<&UInt256>)
        ensures
            r == match *self {
                Account::Account(stuff) => match stuff.storage.init_code_hash {
                    Some(h) => Some(&h),
                    None => None,
                },
                Account::AccountNone => None,
            },
    {
        match self {
            Account::Account(stuff) => stuff.storage.init_code_hash.as_ref(),
            Account::AccountNone => None,
        }
    }

    /// The account identifier.
    pub fn get_id(&self) -> (r: Option<UInt256>)
        ensures
            r == match *self {
                Account::Account(stuff) => Some(stuff.addr.address),
                Account::AccountNone => None,
            },
    {
        match self {
            Account::Account(stuff) => Some(stuff.addr.address()),
            Account::AccountNone => None,
        }
    }

    pub fn get_addr(&self) -> (r: Option<&MsgAddressInt>)
        ensures
            r == match *self {
                Account::Account(stuff) => Some(&stuff.addr),
                Account::AccountNone => None,
            },
    {
        match self {
            Account::Account(stuff) => Some(&stuff.addr),
            Account::AccountNone => None,
        }
    }

    /// The state of an account that exists.
    pub fn state(&self) -> (r: Option<&AccountState>)
        ensures
            r == match *self {
                Account::Account(stuff) => Some(&stuff.storage.state),
                Account::AccountNone => None,
            },
    {
        match self {
            Account::Account(stuff) => Some(&stuff.storage.state),
            Account::AccountNone => None,
        }
    }

    /// The initial state that an active account holds.
    pub open spec fn spec_state_init(&self) -> Option<StateInit> {
        match *self {
            Account::Account(stuff) => match stuff.storage.state {
                AccountState::AccountActive { state_init } => Some(state_init),
                _ => None,
            },
            Account::AccountNone => None,
        }
    }

    /// The account with the initial state of an active account replaced.
    pub open spec fn with_state_init(&self, state_init: StateInit) -> Account {
        if self.spec_state_init() is Some {
            self.with_state(AccountState::AccountActive { state_init })
        } else {
            *self
        }
    }

    pub fn state_init(&self) -> (r: Option<&StateInit>)
        ensures
            r == match self.spec_state_init() {
                Some(s) => Some(&s),
                None => None,
            },
    {
        match self {
            Account::Account(stuff) => match &stuff.storage.state {
                AccountState::AccountActive { state_init } => Some(state_init),
                _ => None,
            },
            Account::AccountNone => None,
        }
    }

    pub fn get_tick_tock(&self) -> (r: Option<&TickTock>)
        ensures
            r == match self.spec_state_init() {
                Some(s) => match s.special {
                    Some(t) => Some(&t),
                    None => None,
                },
                None => None,
            },
    {
        match self.state_init() {
            Some(s) => s.special.as_ref(),
            None => None,
        }
    }

    /// The rent bookkeeping of an account that exists.
    pub fn storage_info(&self) -> (r: Option<&StorageInfo>)
        ensures
            r == match *self {
                Account::Account(stuff) => Some(&stuff.storage_stat),
                Account::AccountNone => None,
            },
    {
        match self {
            Account::Account(stuff) => Some(&stuff.storage_stat),
            Account::AccountNone => None,
        }
    }

    /// The root of the code of an active account.
    pub fn get_code(&self) -> (r: Option<Cell>)
        ensures
            r == match self.spec_state_init() {
                Some(s) => s.code,
                None => None,
            },
    {
        match self.state_init() {
            Some(s) => match &s.code {
                Some(c) => Some(c.clone()),
                None => None,
            },
            None => None,
        }
    }

    pub fn get_code_hash(&self) -> (r: Option<UInt256>)
        ensures
            r == match self.spec_state_init() {
                Some(s) => match s.code {
                    Some(c) => Some(c.hash()),
                    None => None,
                },
                None => None,
            },
    {
        match self.state_init() {
            Some(s) => match &s.code {
                Some(c) => Some(c.repr_hash()),
                None => None,
            },
            None => None,
        }
    }

    /// The root of the data of an active account.
    pub fn get_data(&self) -> (r: Option<Cell>)
        ensures
            r == match self.spec_state_init() {
                Some(s) => s.data,
                None => None,
            },
    {
        match self.state_init() {
            Some(s) => match &s.data {
                Some(c) => Some(c.clone()),
                None => None,
            },
            None => None,
        }
    }

    pub fn get_data_hash(&self) -> (r: Option<UInt256>)
        ensures
            r == match self.spec_state_init() {
                Some(s) => match s.data {
                    Some(c) => Some(c.hash()),
                    None => None,
                },
                None => None,
            },
    {
        match self.state_init() {
            Some(s) => match &s.data {
                Some(c) => Some(c.repr_hash()),
                None => None,
            },
            None => None,
        }
    }

    /// Replaces the initial state of an active account, and says whether the account is
    /// active.
    fn replace_state_init(&mut self, state_init: StateInit) -> (done: bool)
        ensures
            done == (old(self).spec_state_init() is Some),
            *final(self) == old(self).with_state_init(state_init),
    {
        match self {
            Account::Account(stuff) => {
                let active = match &stuff.storage.state {
                    AccountState::AccountActive { .. } => true,
                    _ => false,
                };
                if active {
                    stuff.storage.state = AccountState::AccountActive { state_init };
                }
                active
            },
            Account::AccountNone => false,
        }
    }

    /// Replaces the data of an active account, and says whether the account is active.
    pub fn set_data(&mut self, new_data: Cell) -> (done: bool)
        ensures
            done == (old(self).spec_state_init() is Some),
            *final(self) == match old(self).spec_state_init() {
                Some(s) => old(self).with_state_init(StateInit { data: Some(new_data), ..s }),
                None => *old(self),
            },
    {
        let state_init = match self.state_init() {
            Some(s) => {
                let mut next = s.clone();
                next.set_data(new_data);
                next
            },
            None => {
                return false;
            },
        };
        self.replace_state_init(state_init)
    }

    /// Replaces the code of an active account, and says whether the account is active.
    pub fn set_code(&mut self, new_code: Cell) -> (done: bool)
        ensures
            done == (old(self).spec_state_init() is Some),
            *final(self) == match old(self).spec_state_init() {
                Some(s) => old(self).with_state_init(StateInit { code: Some(new_code), ..s }),
                None => *old(self),
            },
    {
        let state_init = match self.state_init() {
            Some(s) => {
                let mut next = s.clone();
                next.set_code(new_code);
                next
            },
            None => {
                return false;
            },
        };
        self.replace_state_init(state_init)
    }

    /// Replaces the libraries of an active account, and says whether the account is
    /// active.
    pub fn set_libraries(&mut self, libraries: StateInitLib) -> (done: bool)
        ensures
            done == (old(self).spec_state_init() is Some),
            *final(self) == match old(self).spec_state_init() {
                Some(s) => old(self).with_state_init(StateInit { library: libraries, ..s }),
                None => *old(self),
            },
    {
        let state_init = match self.state_init() {
            Some(s) => {
                let mut next = s.clone();
                next.set_library(libraries);
                next
            },
            None => {
                return false;
            },
        };
        self.replace_state_init(state_init)
    }

    /// The libraries of an active account, and none for any other.
    pub fn libraries(&self) -> (r: StateInitLib)
        ensures
            r == match self.spec_state_init() {
                Some(s) => s.library,
                None => StateInitLib { root: None },
            },
    {
        match self.state_init() {
            Some(s) => s.libraries(),
            None => StateInitLib::default(),
        }
    }

    /// The position of the account in its lifecycle.
    pub fn status(&self) -> (r: AccountStatus)
        ensures
            r == self.spec_status(),
    {
        match self {
            Account::Account(stuff) => match &stuff.storage.state {
                AccountState::AccountUninit => AccountStatus::AccStateUninit,
                AccountState::AccountFrozen { .. } => AccountStatus::AccStateFrozen,
                AccountState::AccountActive { .. } => AccountStatus::AccStateActive,
            },
            Account::AccountNone => AccountStatus::AccStateNonexist,
        }
    }

    /// Freezes an active account: its state is replaced by the hash of its state. Any
    /// other account stays as it is.
    pub fn try_freeze(&mut self) -> (r: Result<(), BlockError>)
        ensures
            r is Ok,
            *final(self) == old(self).frozen_form(),
    {
        let hash = match self.state_init() {
            Some(s) => s.hash(),
            None => {
                return Ok(());
            },
        };
        match self {
            Account::Account(stuff) => {
                stuff.storage.state = AccountState::AccountFrozen { state_init_hash: hash };
            },
            Account::AccountNone => {},
        }
        Ok(())
    }

    /// Freezes an active account; see `try_freeze`.
    pub fn freeze_account(&mut self)
        ensures
            *final(self) == old(self).frozen_form(),
    {
        let _ = self.try_freeze();
    }

    /// Makes an active account uninitialised, without keeping anything of its state.
    /// Any other account stays as it is.
    pub fn uninit_account(&mut self)
        ensures
            *final(self) == old(self).uninit_form(),
    {
        match self {
            Account::Account(stuff) => {
                let active = match &stuff.storage.state {
                    AccountState::AccountActive { .. } => true,
                    _ => false,
                };
                if active {
                    stuff.storage.state = AccountState::AccountUninit;
                }
            },
            Account::AccountNone => {},
        }
    }

    /// Activates an account with `state_init`. It fails, and changes nothing, where the
    /// hash of `state_init` is not the hash that the account is committed to: its address
    /// if it is uninitialised, the hash it kept if it is frozen. An active account stays
    /// as it is, and nothing happens where there is no account.
    pub fn try_activate_by_init_code_hash(&mut self, state_init: &StateInit, init_code_hash: bool)
        -> (r: Result<(), BlockError>)
        ensures
            match old(self).activated(*state_init, init_code_hash) {
                Ok(account) => r is Ok && *final(self) == account,
                Err(e) => r == Err::<(), BlockError>(e) && *final(self) == *old(self),
            },
    {
        match self {
            Account::Account(stuff) => {
                let pinned = match &stuff.storage.state {
                    AccountState::AccountUninit => {
                        if state_init.hash() == stuff.addr.get_address() {
                            pin_code_hash(state_init, init_code_hash)
                        } else {
                            return Err(BlockError::HashMismatch);
                        }
                    },
                    AccountState::AccountFrozen { state_init_hash } => {
                        if *state_init_hash == state_init.hash() {
                            pin_code_hash(state_init, init_code_hash)
                        } else {
                            return Err(BlockError::HashMismatch);
                        }
                    },
                    AccountState::AccountActive { .. } => {
                        return Ok(());
                    },
                };
                stuff.storage.state = AccountState::AccountActive {
                    state_init: state_init.clone(),
                };
                stuff.storage.init_code_hash = pinned;
                Ok(())
            },
            Account::AccountNone => Ok(()),
        }
    }

    /// The time of the last payment, and zero where there is no account.
    pub fn last_paid(&self) -> (t: u32)
        ensures
            t == match *self {
                Account::Account(stuff) => stuff.storage_stat.last_paid,
                Account::AccountNone => 0,
            },
    {
        match self {
            Account::Account(stuff) => stuff.storage_stat.last_paid,
            Account::AccountNone => 0,
        }
    }

    pub fn set_last_paid(&mut self, last_paid: u32)
        ensures
            *final(self) == match *old(self) {
                Account::Account(stuff) => Account::Account(
                    AccountStuff {
                        storage_stat: StorageInfo { last_paid, ..stuff.storage_stat },
                        ..stuff
                    },
                ),
                Account::AccountNone => Account::AccountNone,
            },
    {
        match self {
            Account::Account(stuff) => {
                stuff.storage_stat.last_paid = last_paid;
            },
            Account::AccountNone => {},
        }
    }

    /// What the account owes for storage.
    pub fn due_payment(&self) -> (r: Option<&Grams>)
        ensures
            r == match *self {
                Account::Account(stuff) => match stuff.storage_stat.due_payment {
                    Some(g) => Some(&g),
                    None => None,
                },
                Account::AccountNone => None,
            },
    {
        match self {
            Account::Account(stuff) => stuff.storage_stat.due_payment.as_ref(),
            Account::AccountNone => None,
        }
    }

    pub fn set_due_payment(&mut self, due_payment: Option<Grams>)
        ensures
            *final(self) == match *old(self) {
                Account::Account(stuff) => Account::Account(
                    AccountStuff {
                        storage_stat: StorageInfo { due_payment, ..stuff.storage_stat },
                        ..stuff
                    },
                ),
                Account::AccountNone => Account::AccountNone,
            },
    {
        match self {
            Account::Account(stuff) => {
                stuff.storage_stat.due_payment = due_payment;
            },
            Account::AccountNone => {},
        }
    }

    /// The balance of an account that exists.
    pub fn balance(&self) -> (r: Option<&CurrencyCollection>)
        ensures
            r == match *self {
                Account::Account(stuff) => Some(&stuff.storage.balance),
                Account::AccountNone => None,
            },
    {
        match self {
            Account::Account(stuff) => Some(&stuff.storage.balance),
            Account::AccountNone => None,
        }
    }

    /// The balance of an account that exists; see `balance`.
    pub fn get_balance(&self) -> (r: Option<&CurrencyCollection>)
        ensures
            r == match *self {
                Account::Account(stuff) => Some(&stuff.storage.balance),
                Account::AccountNone => None,
            },
    {
        self.balance()
    }

    /// The balance of the account, and no funds where there is no account.
    pub fn balance_checked(&self) -> (r: CurrencyCollection)
        ensures
            match *self {
                Account::Account(stuff) => r == stuff.storage.balance,
                Account::AccountNone => r.grams@ == 0 && r.other.root is None,
            },
    {
        match self {
            Account::Account(stuff) => stuff.storage.balance.clone(),
            Account::AccountNone => CurrencyCollection::default(),
        }
    }

    /// The account with its balance replaced.
    pub open spec fn with_balance(&self, balance: CurrencyCollection) -> Account {
        match *self {
            Account::Account(stuff) => Account::Account(
                AccountStuff { storage: AccountStorage { balance, ..stuff.storage }, ..stuff },
            ),
            Account::AccountNone => Account::AccountNone,
        }
    }

    pub fn set_balance(&mut self, balance: CurrencyCollection)
        ensures
            *final(self) == old(self).with_balance(balance),
    {
        match self {
            Account::Account(stuff) => {
                stuff.storage.balance = balance;
            },
            Account::AccountNone => {},
        }
    }

    /// The extra currencies of the balance, where there is an account.
    pub open spec fn spec_extra(&self) -> Option<ExtraCurrencyCollection> {
        match *self {
            Account::Account(stuff) => Some(stuff.storage.balance.other),
            Account::AccountNone => None,
        }
    }

    /// Adds funds to the balance of an account that exists; nothing happens where there
    /// is none. The native amounts are added, and the amounts of the extra currencies
    /// one by one, each sum held at the largest amount. It fails and changes nothing
    /// where a node that both dictionaries of extra currencies have at the same place
    /// cannot be read. Where the funds hold no extra currencies, it succeeds, and the
    /// extra currencies of the balance stay as they are.
    pub fn add_funds(&mut self, funds_to_add: &CurrencyCollection) -> (r: Result<(), BlockError>)
        ensures
            funds_to_add.other.root is None ==> r is Ok && final(self).spec_extra() == old(
                self,
            ).spec_extra(),
            match *old(self) {
                Account::AccountNone => r is Ok && *final(self) == *old(self),
                Account::Account(stuff) => match add_error(
                    stuff.storage.balance.other.root,
                    funds_to_add.other.root,
                    0,
                    32,
                ) {
                    Some(e) => r == Err::<(), BlockError>(e) && *final(self) == *old(self),
                    None => {
                        &&& r is Ok
                        &&& *final(self) matches Account::Account(after)
                        &&& *final(self) == old(self).with_balance(after.storage.balance)
                        &&& after.storage.balance.grams@ == Grams::spec_add(
                            stuff.storage.balance.grams@,
                            funds_to_add.grams@,
                        )
                        &&& after.storage.balance.grams.wf()
                        &&& is_sum(
                            after.storage.balance.other.root,
                            stuff.storage.balance.other.root,
                            funds_to_add.other.root,
                            0,
                            32,
                        )
                    },
                },
            },
    {
        match self {
            Account::Account(stuff) => {
                let mut balance = stuff.storage.balance.clone();
                balance.add(funds_to_add)?;
                stuff.storage.balance = balance;
                Ok(())
            },
            Account::AccountNone => Ok(()),
        }
    }

    /// Takes funds from the balance where it is enough for them, and says whether it
    /// did: the native amount is at least the one asked for, and so is the amount of
    /// every extra currency that is asked for. Where the balance is not enough, or there
    /// is no account, nothing changes and the answer is `false`. It fails and changes
    /// nothing where a dictionary of extra currencies cannot be read. Where the funds
    /// hold no extra currencies, it succeeds, and the extra currencies of the balance
    /// stay as they are.
    pub fn sub_funds(&mut self, funds_to_sub: &CurrencyCollection) -> (r: Result<bool, BlockError>)
        ensures
            funds_to_sub.other.root is None ==> r is Ok && final(self).spec_extra() == old(
                self,
            ).spec_extra(),
            match *old(self) {
                Account::AccountNone => r == Ok::<bool, BlockError>(false) && *final(self) == *old(self),
                Account::Account(stuff) => match stuff.storage.balance.covers(funds_to_sub) {
                    Err(e) => r == Err::<bool, BlockError>(e) && *final(self) == *old(self),
                    Ok(false) => r == Ok::<bool, BlockError>(false) && *final(self) == *old(self),
                    Ok(true) => {
                        &&& r == Ok::<bool, BlockError>(true)
                        &&& *final(self) matches Account::Account(after)
                        &&& *final(self) == old(self).with_balance(after.storage.balance)
                        &&& after.storage.balance.grams@ == stuff.storage.balance.grams@
                            - funds_to_sub.grams@
                        &&& after.storage.balance.grams.wf()
                        &&& is_difference(
                            after.storage.balance.other.root,
                            stuff.storage.balance.other.root,
                            funds_to_sub.other.root,
                            0,
                            32,
                        )
                    },
                },
            },
    {
        match self {
            Account::Account(stuff) => {
                let mut balance = stuff.storage.balance.clone();
                let done = balance.sub(funds_to_sub)?;
                stuff.storage.balance = balance;
                Ok(done)
            },
            Account::AccountNone => Ok(false),
        }
    }

    pub fn split_depth(&self) -> (r: Option<Number5>)
        ensures
            r == match self.spec_state_init() {
                Some(s) => s.split_depth,
                None => None,
            },
    {
        match self.state_init() {
            Some(s) => s.split_depth,
            None => None,
        }
    }

    /// The time of the last transaction of an account that exists.
    pub fn last_tr_time(&self) -> (r: Option<u64>)
        ensures
            r == match *self {
                Account::Account(stuff) => Some(stuff.storage.last_trans_lt),
                Account::AccountNone => None,
            },
    {
        match self {
            Account::Account(stuff) => Some(stuff.storage.last_trans_lt),
            Account::AccountNone => None,
        }
    }

    pub fn set_last_tr_time(&mut self, tr_lt: u64)
        ensures
            *final(self) == match *old(self) {
                Account::Account(stuff) => Account::Account(
                    AccountStuff {
                        storage: AccountStorage { last_trans_lt: tr_lt, ..stuff.storage },
                        ..stuff
                    },
                ),
                Account::AccountNone => Account::AccountNone,
            },
    {
        match self {
            Account::Account(stuff) => {
                stuff.storage.last_trans_lt = tr_lt;
            },
            Account::AccountNone => {},
        }
    }

    pub fn set_addr(&mut self, addr: MsgAddressInt)
        ensures
            *final(self) == match *old(self) {
                Account::Account(stuff) => Account::Account(AccountStuff { addr, ..stuff }),
                Account::AccountNone => Account::AccountNone,
            },
    {
        match self {
            Account::Account(stuff) => {
                stuff.addr = addr;
            },
            Account::AccountNone => {},
        }
    }

    pub fn set_init_code_hash(&mut self, init_code_hash: UInt256)
        ensures
            *final(self) == match *old(self) {
                Account::Account(stuff) => Account::Account(
                    AccountStuff {
                        storage: AccountStorage {
                            init_code_hash: Some(init_code_hash),
                            ..stuff.storage
                        },
                        ..stuff
                    },
                ),
                Account::AccountNone => Account::AccountNone,
            },
    {
        match self {
            Account::Account(stuff) => {
                stuff.storage.init_code_hash = Some(init_code_hash);
            },
            Account::AccountNone => {},
        }
    }

    /// The initial state of an active account, to be changed in place.
    pub fn state_init_mut(&mut self) -> (r: Option<&mut StateInit>)
        ensures
            match r {
                Some(state_init) => old(self).spec_state_init() == Some(*state_init) && *final(self)
                    == old(self).with_state_init(*final(state_init)),
                None => old(self).spec_state_init() is None && *final(self) == *old(self),
            },
    {
        match self {
            Account::Account(stuff) => stuff.state_init_mut(),
            Account::AccountNone => None,
        }
    }

    /// Whether `self` is `before` with the libraries of its active state replaced by
    /// libraries that are those of `before` with what is under `hash` replaced by
    /// `library`.
    pub open spec fn has_library_update(
        &self,
        before: Account,
        hash: UInt256,
        library: Option<SimpleLib>,
    ) -> bool {
        &&& before.spec_state_init() matches Some(s)
        &&& self.spec_state_init() matches Some(after)
        &&& *self == before.with_state_init(StateInit { library: after.library, ..s })
        &&& after.library.is_update_of(s.library, hash, library)
    }

    /// Puts a library with the code `code` under the hash of the code, and says whether
    /// it did. It does not, and changes nothing, where the account is not active and
    /// where looking up that hash in the libraries fails.
    pub fn set_library(&mut self, code: Cell, public: bool) -> (done: bool)
        ensures
            done == (old(self).spec_state_init() matches Some(s) && find(
                s.library.root,
                code.hash().bits(),
                0,
            ) is Ok),
            done ==> final(self).has_library_update(
                *old(self),
                code.hash(),
                Some(SimpleLib { public, root: code }),
            ),
            !done ==> *final(self) == *old(self),
    {
        let mut libraries = match self.state_init() {
            Some(s) => s.libraries(),
            None => {
                return false;
            },
        };
        let hash = code.repr_hash();
        match libraries.set(&hash, &SimpleLib::new(code, public)) {
            Ok(()) => self.set_libraries(libraries),
            Err(_) => false,
        }
    }

    /// What `set_library_flag` finds under `hash`: the library whose flag is to be set,
    /// where the account is active and has one there.
    pub open spec fn library_to_flag(&self, hash: UInt256) -> Option<SimpleLib> {
        match self.spec_state_init() {
            Some(s) => match s.library.spec_get(hash) {
                Ok(Some(lib)) => Some(lib),
                _ => None,
            },
            None => None,
        }
    }

    /// Makes the library under `hash` public or not, and says whether the library is
    /// there. Nothing changes where it is not, and where it is as asked already.
    pub fn set_library_flag(&mut self, hash: &UInt256, public: bool) -> (done: bool)
        ensures
            done == (old(self).library_to_flag(*hash) is Some),
            match old(self).library_to_flag(*hash) {
                None => *final(self) == *old(self),
                Some(lib) => if lib.public == public {
                    *final(self) == *old(self)
                } else {
                    final(self).has_library_update(
                        *old(self),
                        *hash,
                        Some(SimpleLib { public, root: lib.root }),
                    )
                },
            },
    {
        let mut libraries = match self.state_init() {
            Some(s) => s.libraries(),
            None => {
                return false;
            },
        };
        match libraries.get(hash) {
            Ok(Some(lib)) => {
                if lib.is_public_library() == public {
                    true
                } else {
                    let changed = SimpleLib::new(lib.root, public);
                    match libraries.set(hash, &changed) {
                        Ok(()) => self.set_libraries(libraries),
                        Err(_) => false,
                    }
                }
            },
            _ => false,
        }
    }

    /// Takes away the library under `hash`, and says whether the libraries could be
    /// changed. They cannot, and nothing changes, where the account is not active and
    /// where looking up `hash` in the libraries fails.
    pub fn delete_library(&mut self, hash: &UInt256) -> (done: bool)
        ensures
            done == (old(self).spec_state_init() matches Some(s) && find(
                s.library.root,
                hash.bits(),
                0,
            ) is Ok),
            done ==> final(self).has_library_update(*old(self), *hash, None),
            !done ==> *final(self) == *old(self),
    {
        let mut libraries = match self.state_init() {
            Some(s) => s.libraries(),
            None => {
                return false;
            },
        };
        match libraries.remove(hash) {
            Ok(()) => self.set_libraries(libraries),
            Err(_) => false,
        }
    }

    /// Whether `self` is `before` with its footprint counted anew.
    pub open spec fn is_counted(&self, before: Account) -> bool {
        match before {
            Account::AccountNone => *self == before,
            Account::Account(stuff) => *self matches Account::Account(after) && after.is_recounted(
                stuff,
                Walk::of_layout(stuff.storage.payload()).cells,
                Walk::of_layout(stuff.storage.payload()).bits,
            ),
        }
    }

    /// Whether `self` is `before` with the footprint that the root node of its storage
    /// carries.
    pub open spec fn is_counted_fast(&self, before: Account) -> bool {
        match before {
            Account::AccountNone => *self == before,
            Account::Account(stuff) => *self matches Account::Account(after) && after.is_recounted(
                stuff,
                tree_cells_of(stuff.storage.payload().refs),
                tree_bits_of(stuff.storage.payload().bits.len(), stuff.storage.payload().refs),
            ),
        }
    }

    /// Whether the storage of the account, where there is one, is no longer than one
    /// node.
    pub open spec fn storage_fits(&self) -> bool {
        self matches Account::Account(stuff) ==> stuff.storage.payload().fits()
    }

    /// Why the footprint of the storage cannot be counted, where it cannot: the storage
    /// is longer than one node, or a count would pass the bound of a count.
    pub open spec fn counting_error(&self) -> Option<BlockError> {
        match *self {
            Account::AccountNone => None,
            Account::Account(stuff) => match footprint_of(stuff.storage.payload()) {
                Ok(_) => None,
                Err(e) => Some(e),
            },
        }
    }

    /// Counts the footprint of the storage anew: every distinct node below the node that
    /// holds the storage counts once, with its own bits. It fails and changes nothing
    /// where the storage is longer than one node, with `CellOverflow`, and where a count
    /// would pass the bound of a count, with `IntegerOverflow`. Nothing happens where
    /// there is no account. It does not fail where the counts that the root node of the
    /// storage carries are within the bound of a count.
    pub fn update_storage_stat(&mut self) -> (r: Result<(), BlockError>)
        ensures
            match old(self).counting_error() {
                None => r is Ok && final(self).is_counted(*old(self)),
                Some(e) => r == Err::<(), BlockError>(e) && *final(self) == *old(self),
            },
            old(self).storage_fits() && (*old(self) matches Account::Account(stuff)
                ==> fast_counts_fit(stuff.storage.payload())) ==> r is Ok,
    {
        match self {
            Account::Account(stuff) => stuff.update_storage_stat(),
            Account::AccountNone => Ok(()),
        }
    }

    /// Takes the footprint of the storage from the counts that its root node carries, in
    /// which a node counts as often as it is referred to. This is faster than counting
    /// anew and gives more where nodes are shared. It fails and changes nothing where
    /// the storage is longer than one node, or a count needs more than seven bytes.
    pub fn update_storage_stat_fast(&mut self) -> (r: Result<(), BlockError>)
        ensures
            !old(self).storage_fits() ==> r == Err::<(), BlockError>(BlockError::CellOverflow)
                && *final(self) == *old(self),
            old(self).storage_fits() && (*old(self) matches Account::Account(stuff)
                && !fast_counts_fit(stuff.storage.payload())) ==> r == Err::<(), BlockError>(
                BlockError::IntegerOverflow,
            ) && *final(self) == *old(self),
            old(self).storage_fits() && (*old(self) matches Account::Account(stuff)
                ==> fast_counts_fit(stuff.storage.payload())) ==> r is Ok
                && final(self).is_counted_fast(*old(self)),
    {
        match self {
            Account::Account(stuff) => stuff.update_storage_stat_fast(),
            Account::AccountNone => Ok(()),
        }
    }

    /// An active account with its footprint counted. Where `init_code_hash` is set, the
    /// hash of the code is pinned. It fails where the storage is longer than one node,
    /// and where a count would pass the bound of a count.
    pub fn active_by_init_code_hash(
        addr: MsgAddressInt,
        balance: CurrencyCollection,
        last_paid: u32,
        state_init: StateInit,
        init_code_hash: bool,
    ) -> (r: Result<Account, BlockError>)
        ensures
            ({
                let storage = AccountStorage {
                    last_trans_lt: 0,
                    balance,
                    state: AccountState::AccountActive { state_init },
                    init_code_hash: pinned_code_hash(state_init, init_code_hash),
                };
                let before = Account::Account(
                    AccountStuff {
                        addr,
                        storage_stat: StorageInfo {
                            used: StorageUsed {
                                cells: VarUInteger7::of(0),
                                bits: VarUInteger7::of(0),
                                extra: StorageExtra::Empty,
                            },
                            last_paid,
                            due_payment: None,
                        },
                        storage,
                    },
                );
                match footprint_of(storage.payload()) {
                    Ok(_) => r is Ok && r->Ok_0.is_counted(before),
                    Err(e) => r == Err::<Account, BlockError>(e),
                }
            }),
    {
        let mut stuff = AccountStuff {
            addr,
            storage_stat: StorageInfo::with_values(last_paid, None),
            storage: AccountStorage::active_by_init_code_hash(
                0,
                balance,
                state_init,
                init_code_hash,
            ),
        };
        stuff.update_storage_stat()?;
        Ok(Account::Account(stuff))
    }

    /// The account that a message creates at its destination, with its footprint
    /// counted: see `message_storage`. There is none where the message creates none,
    /// and none where the footprint cannot be counted: the storage is longer than one
    /// node, or a count would pass the bound of a count.
    pub fn from_message_by_init_code_hash(msg: &Message, init_code_hash: bool) -> (r: Option<
        Account,
    >)
        ensures
            match message_storage(*msg, init_code_hash) {
                None => r is None,
                Some(storage) => match footprint_of(storage.payload()) {
                    Ok(walk) => {
                        &&& r matches Some(Account::Account(stuff))
                        &&& msg.header matches crate::messages::CommonMsgInfo::IntMsgInfo(hdr)
                        &&& stuff.addr == hdr.dst
                        &&& stuff.storage == storage
                        &&& stuff.storage_stat.last_paid == 0
                        &&& stuff.storage_stat.due_payment is None
                        &&& stuff.storage_stat.used.is_footprint(walk)
                    },
                    Err(_) => r is None,
                },
            },
    {
        let hdr = match msg.int_header() {
            Some(hdr) => hdr,
            None => {
                return None;
            },
        };
        if hdr.value().grams.is_zero() {
            return None;
        }
        let mut storage = AccountStorage::default();
        storage.balance = hdr.value().clone();
        match msg.state_init() {
            Some(init) => {
                let code_hash = match init.code() {
                    Some(code) => code.repr_hash(),
                    None => {
                        return None;
                    },
                };
                storage.init_code_hash = if init_code_hash {
                    Some(code_hash)
                } else {
                    None
                };
                storage.state = AccountState::AccountActive { state_init: init.clone() };
            },
            None => {
                if hdr.bounce {
                    return None;
                }
            },
        }
        let mut stuff = AccountStuff {
            addr: hdr.dst,
            storage_stat: StorageInfo::default(),
            storage,
        };
        match stuff.update_storage_stat() {
            Ok(()) => Some(Account::Account(stuff)),
            Err(_) => None,
        }
    }

    /// The storage of a frozen account.
    pub open spec fn frozen_storage(
        last_trans_lt: u64,
        state_hash: UInt256,
        balance: CurrencyCollection,
    ) -> AccountStorage {
        AccountStorage {
            last_trans_lt,
            balance,
            state: AccountState::AccountFrozen { state_init_hash: state_hash },
            init_code_hash: None,
        }
    }

    /// A frozen account with its footprint counted. The footprint of the balance has to
    /// be within the bound of a count: `frozen_checked` asks for less.
    pub fn frozen(
        addr: MsgAddressInt,
        last_trans_lt: u64,
        last_paid: u32,
        state_hash: UInt256,
        due_payment: Option<Grams>,
        balance: CurrencyCollection,
    ) -> (r: Account)
        requires
            footprint_of(Account::frozen_storage(last_trans_lt, state_hash, balance).payload()) is Ok,
        ensures
            ({
                let storage = AccountStorage {
                    last_trans_lt,
                    balance,
                    state: AccountState::AccountFrozen { state_init_hash: state_hash },
                    init_code_hash: None,
                };
                &&& r matches Account::Account(stuff)
                &&& stuff.addr == addr
                &&& stuff.storage == storage
                &&& stuff.storage_stat.last_paid == last_paid
                &&& stuff.storage_stat.due_payment == due_payment
                &&& stuff.storage_stat.used.is_footprint(Walk::of_layout(storage.payload()))
            }),
    {
        let storage = AccountStorage::frozen(last_trans_lt, balance, state_hash);
        let used = match StorageUsed::calculate_for_struct(&storage) {
            Ok(used) => used,
            Err(_) => vstd::pervasive::unreached(),
        };
        Account::Account(
            AccountStuff { addr, storage_stat: StorageInfo { used, last_paid, due_payment }, storage },
        )
    }

    /// A frozen account with its footprint counted, where the footprint can be counted;
    /// otherwise why it cannot: a count would pass the bound of a count.
    pub fn frozen_checked(
        addr: MsgAddressInt,
        last_trans_lt: u64,
        last_paid: u32,
        state_hash: UInt256,
        due_payment: Option<Grams>,
        balance: CurrencyCollection,
    ) -> (r: Result<Account, BlockError>)
        ensures
            ({
                let storage = Account::frozen_storage(last_trans_lt, state_hash, balance);
                match footprint_of(storage.payload()) {
                    Ok(walk) => {
                        &&& r matches Ok(Account::Account(stuff))
                        &&& stuff.addr == addr
                        &&& stuff.storage == storage
                        &&& stuff.storage_stat.last_paid == last_paid
                        &&& stuff.storage_stat.due_payment == due_payment
                        &&& stuff.storage_stat.used.is_footprint(walk)
                    },
                    Err(e) => r == Err::<Account, BlockError>(e),
                }
            }),
    {
        let storage = AccountStorage::frozen(last_trans_lt, balance.clone(), state_hash);
        match StorageUsed::calculate_for_struct(&storage) {
            Ok(_) => Ok(
                Account::frozen(addr, last_trans_lt, last_paid, state_hash, due_payment, balance),
            ),
            Err(e) => Err(e),
        }
    }

    /// An uninitialised account whose footprint is one node with the bits of its
    /// storage.
    pub fn uninit(addr: MsgAddressInt, last_trans_lt: u64, last_paid: u32, balance: CurrencyCollection)
        -> (r: Account)
        ensures
            ({
                let storage = AccountStorage {
                    last_trans_lt,
                    balance,
                    state: AccountState::AccountUninit,
                    init_code_hash: None,
                };
                &&& r matches Account::Account(stuff)
                &&& stuff.addr == addr
                &&& stuff.storage == storage
                &&& stuff.storage_stat.last_paid == last_paid
                &&& stuff.storage_stat.due_payment is None
                &&& stuff.storage_stat.used.wf()
                &&& stuff.storage_stat.used.cells@ == 1
                &&& stuff.storage_stat.used.bits@ == storage.payload().bits.len()
                &&& stuff.storage_stat.used.extra == StorageExtra::Empty
            }),
    {
        let storage = AccountStorage {
            last_trans_lt,
            balance,
            state: AccountState::AccountUninit,
            init_code_hash: None,
        };
        let g = storage.balance.grams.as_u128();
        proof {
            storage.lemma_payload_len();
        }
        let mut f = Fragment::new();
        storage.encode(&mut f);
        proof {
            lemma_concat_empty(storage.payload());
        }
        let bits = f.bits.len();
        let used = match StorageUsed::with_values_checked(1, bits as u64, StorageExtra::default()) {
            Ok(used) => used,
            Err(_) => StorageUsed::default(),
        };
        Account::Account(
            AccountStuff {
                addr,
                storage_stat: StorageInfo { used, last_paid, due_payment: None },
                storage,
            },
        )
    }

    /// Whether the account is in `shard`: in its workchain and under its prefix. It
    /// fails where there is no account.
    pub fn belongs_to_shard(&self, shard: &ShardIdent) -> (r: Result<bool, BlockError>)
        ensures
            match *self {
                Account::AccountNone => r == Err::<bool, BlockError>(BlockError::AccountIsNone),
                Account::Account(stuff) => r == Ok::<bool, BlockError>(
                    stuff.addr.workchain_id == shard.spec_workchain_id() && shard.spec_contains(
                        stuff.addr.address,
                    ),
                ),
            },
    {
        match self {
            Account::Account(stuff) => Ok(
                stuff.addr.get_workchain_id() == shard.workchain_id() && shard.contains_account(
                    &stuff.addr.address,
                ),
            ),
            Account::AccountNone => Err(BlockError::AccountIsNone),
        }
    }

    /// What `update_config_smc` does with the data `data` of the account and the root
    /// `config`: the first child of the data is replaced by the root. It fails where the
    /// account has no data, where the data is a placeholder, where the data has no first
    /// child, and where the configuration has no root.
    pub open spec fn config_update(data: Option<Cell>, config: Option<Cell>) -> Result<
        Payload,
        BlockError,
    > {
        match data {
            None => Err(BlockError::InvalidArg),
            Some(d) => if d.is_pruned() {
                Err(BlockError::PrunedCellAccess)
            } else if d.refs().len() == 0 {
                Err(BlockError::InvalidArg)
            } else {
                match config {
                    None => Err(BlockError::InvalidArg),
                    Some(root) => Ok(Payload { bits: d.bits(), refs: seq![root] + d.refs().skip(1) }),
                }
            },
        }
    }

    /// Puts the root of the configuration in place of the first child of the data of the
    /// contract that keeps the configuration; see `config_update`. It changes nothing
    /// where it fails.
    pub fn update_config_smc(&mut self, config: &ConfigParams) -> (r: Result<(), BlockError>)
        ensures
            match Self::config_update(
                match old(self).spec_state_init() {
                    Some(s) => s.data,
                    None => None,
                },
                config.config_params,
            ) {
                Err(e) => r == Err::<(), BlockError>(e) && *final(self) == *old(self),
                Ok(layout) => {
                    &&& r is Ok
                    &&& old(self).spec_state_init() matches Some(s)
                    &&& final(self).spec_state_init() matches Some(after)
                    &&& after.data matches Some(d)
                    &&& *final(self) == old(self).with_state_init(StateInit { data: Some(d), ..s })
                    &&& d.holds(layout)
                },
            },
    {
        let data = match self.get_data() {
            Some(d) => d,
            None => {
                return Err(BlockError::InvalidArg);
            },
        };
        let mut slice = SliceData::load_cell(data)?;
        let before = slice.remaining_references();
        match slice.checked_drain_reference() {
            Ok(_) => {},
            Err(_) => {
                return Err(BlockError::InvalidArg);
            },
        }
        let mut builder = BuilderData::from_slice(&slice);
        let root = match &config.config_params {
            Some(root) => root.clone(),
            None => {
                return Err(BlockError::InvalidArg);
            },
        };
        let rest = builder.references_used();
        match builder.checked_prepend_reference(root) {
            Ok(()) => {},
            Err(e) => {
                return Err(e);
            },
        }
        let done = self.set_data(builder.into_cell());
        Ok(())
    }

    /// The status tells the position of an account in its lifecycle, and each position
    /// has a status of its own.
    pub proof fn lemma_status_agrees(self)
        ensures
            self.spec_status() == AccountStatus::AccStateNonexist <==> self is AccountNone,
            self.spec_status() == AccountStatus::AccStateUninit <==> (self matches Account::Account(
                stuff,
            ) && stuff.storage.state is AccountUninit),
            self.spec_status() == AccountStatus::AccStateFrozen <==> (self matches Account::Account(
                stuff,
            ) && stuff.storage.state is AccountFrozen),
            self.spec_status() == AccountStatus::AccStateActive <==> (self matches Account::Account(
                stuff,
            ) && stuff.storage.state is AccountActive),
    {
    }

    /// An uninitialised account is activated by a state exactly where the hash of the
    /// state is the account's address. Where it is, the account becomes active with that
    /// state; where it is not, activation fails.
    pub proof fn lemma_activation_gate(self, state_init: StateInit, pin: bool)
        requires
            self matches Account::Account(stuff) && stuff.storage.state is AccountUninit,
        ensures
            self.activated(state_init, pin) is Ok <==> state_init.spec_hash() == self->0.addr.address,
            self.activated(state_init, pin) matches Ok(after) ==> after.spec_state_init() == Some(
                state_init,
            ) && after.spec_status() == AccountStatus::AccStateActive,
            self.activated(state_init, pin) matches Err(e) ==> e == BlockError::HashMismatch,
    {
    }

    /// Freezing an active account leaves a frozen account that keeps the hash of the
    /// state. Activating that one with the same state succeeds and gives back the
    /// account as it was, with the hash of the code pinned or not as is asked then.
    /// Activating it with a state of another hash fails.
    pub proof fn lemma_freeze_reactivate(self, other: StateInit, pin: bool)
        requires
            self.spec_state_init() is Some,
        ensures
            self.frozen_form().spec_status() == AccountStatus::AccStateFrozen,
            self.frozen_form() == self.with_state(
                AccountState::AccountFrozen {
                    state_init_hash: self.spec_state_init()->Some_0.spec_hash(),
                },
            ),
            self.frozen_form().activated(self.spec_state_init()->Some_0, pin) matches Ok(after)
                && after.spec_state_init() == self.spec_state_init() && after == Account::Account(
                AccountStuff {
                    storage: AccountStorage {
                        init_code_hash: pinned_code_hash(self.spec_state_init()->Some_0, pin),
                        ..self->0.storage
                    },
                    ..self->0
                },
            ),
            other.spec_hash() != self.spec_state_init()->Some_0.spec_hash()
                ==> self.frozen_form().activated(other, pin) == Err::<Account, BlockError>(
                BlockError::HashMismatch,
            ),
    {
    }

    /// Reading back the layout of an account gives the account, in the original layout
    /// and in the extended one.
    pub proof fn lemma_round_trip(self)
        requires
            self.wf(),
        ensures
            Self::parse(self.payload()) == Ok::<(Account, Payload), BlockError>(
                (self, Payload::empty()),
            ),
    {
        lemma_concat_empty(self.payload());
        self.lemma_parse_payload(Payload::empty());
    }

    /// A proof that the account is part of the state with the root `state_root`: the
    /// node of a proof, whose child is the state cut down to the nodes that are opened
    /// to read the account. The child has the hash of `state_root`, and every node that
    /// was not opened is a placeholder in it. It fails where there is no account, where
    /// the state does not hold the account, and where the state, the entry or the
    /// account under the root cannot be read.
    pub fn prepare_proof(&self, state_root: &Cell) -> (r: Result<Cell, BlockError>)
        ensures
            match *self {
                Account::AccountNone => r == Err::<Cell, BlockError>(BlockError::AccountIsNone),
                Account::Account(stuff) => match proof_visits(*state_root, stuff.addr.address) {
                    Err(e) => r == Err::<Cell, BlockError>(e),
                    Ok(visited) => {
                        &&& r matches Ok(c)
                        &&& !c.is_pruned()
                        &&& c.refs().len() == 1
                        &&& is_pruning_of(c.refs()[0], *state_root, visited)
                        &&& c.refs()[0].hash() == state_root.hash()
                        &&& c.payload() == (MerkleProof {
                            hash: state_root.hash(),
                            proof: c.refs()[0],
                        }).payload()
                    },
                },
            },
    {
        let id = match self.get_id() {
            Some(id) => id,
            None => {
                return Err(BlockError::AccountIsNone);
            },
        };
        let mut usage = UsageTree::with_root(state_root.clone());
        let root = usage.root_cell();
        let mut slice = usage.load(&root)?;
        let state = ShardStateUnsplit::construct_from(&mut slice)?;
        let entry = match state.read_accounts().get_tracked(&id, &mut usage)? {
            Some(entry) => entry,
            None => {
                return Err(BlockError::NotFound);
            },
        };
        let account = entry.read_account_tracked(&mut usage)?;
        proof {
            assert(usage.visited() =~= proof_visits(*state_root, id)->Ok_0);
        }
        let proof = MerkleProof::create_by_usage_tree(state_root, &usage)?;
        let c = proof.serialize();
        proof {
            assert(c.refs() =~= seq![proof.proof]);
        }
        Ok(c)
    }

    /// What the index of a shard keeps beside the account: the split depth of an active
    /// account, and the balance of an account that exists; no depth and no funds
    /// otherwise.
    pub fn aug(&self) -> (r: DepthBalanceInfo)
        ensures
            r.split_depth == match self.spec_state_init() {
                Some(s) => s.split_depth,
                None => None,
            },
            match *self {
                Account::Account(stuff) => r.balance == stuff.storage.balance,
                Account::AccountNone => r.balance.grams@ == 0 && r.balance.other.root is None,
            },
    {
        DepthBalanceInfo { split_depth: self.split_depth(), balance: self.balance_checked() }
    }

    /// The bits before an account that exists: `1` for the original layout, `0001` for
    /// the extended one, which is written where a hash is pinned.
    pub open spec fn tag_payload(stuff: AccountStuff) -> Payload {
        if stuff.storage.init_code_hash is Some {
            Payload::of_bits(uint_bits(1, 4))
        } else {
            Payload::of_bits(seq![true])
        }
    }

    /// The layout of an account that exists starts with the bit `1` where no hash is
    /// pinned, and with the bits `0001` where one is.
    pub proof fn lemma_leading_bits(self)
        requires
            self is Account,
        ensures
            self->Account_0.storage.init_code_hash is None ==> self.payload().bits.len() >= 1
                && self.payload().bits[0],
            self->Account_0.storage.init_code_hash is Some ==> self.payload().bits.len() >= 4
                && self.payload().bits.take(4) == seq![false, false, false, true],
    {
        reveal_with_fuel(uint_bits, 5);
        if self->Account_0.storage.init_code_hash is Some {
            assert(uint_bits(1, 4) =~= seq![false, false, false, true]);
            assert(self.payload().bits.take(4) =~= uint_bits(1, 4));
        }
    }

    /// The layout: one zero bit where there is no account; the tag and the account
    /// otherwise.
    pub open spec fn payload(&self) -> Payload {
        match *self {
            Account::AccountNone => Payload::of_bits(seq![false]),
            Account::Account(stuff) => Self::tag_payload(stuff).concat(stuff.payload()),
        }
    }

    /// The original layout, which leaves a pinned hash out.
    pub open spec fn original_payload(&self) -> Payload {
        match *self {
            Account::AccountNone => Payload::of_bits(seq![false]),
            Account::Account(stuff) => Payload::of_bits(seq![true]).concat(
                (AccountStuff {
                    storage: AccountStorage { init_code_hash: None, ..stuff.storage },
                    ..stuff
                }).payload(),
            ),
        }
    }

    /// Reads an account. A one bit starts the original layout. A zero bit with nothing
    /// behind it is no account. A zero bit and the tag `000` is no account, the tag `001`
    /// starts the extended layout, and any other tag is refused.
    #[verifier::opaque]
    pub open spec fn parse(p: Payload) -> Result<(Account, Payload), BlockError> {
        match p.take_bit() {
            Err(e) => Err(e),
            Ok((true, rest)) => match AccountStuff::parse(rest, false) {
                Err(e) => Err(e),
                Ok((stuff, rest2)) => Ok((Account::Account(stuff), rest2)),
            },
            Ok((false, rest)) => if rest.bits.len() == 0 {
                Ok((Account::AccountNone, rest))
            } else {
                match rest.take_uint(3) {
                    Err(e) => Err(e),
                    Ok((tag, rest2)) => if tag == 0 {
                        Ok((Account::AccountNone, rest2))
                    } else if tag == 1 {
                        match AccountStuff::parse(rest2, true) {
                            Err(e) => Err(e),
                            Ok((stuff, rest3)) => Ok((Account::Account(stuff), rest3)),
                        }
                    } else {
                        Err(BlockError::InvalidConstructorTag { tag: tag as u32 })
                    },
                }
            },
        }
    }

    /// An account is read back as it was written. The mark that there is no account is
    /// one bit, and is read back where no bit follows it.
    pub proof fn lemma_parse_payload(self, rest: Payload)
        requires
            self.wf(),
            self is AccountNone ==> rest.bits.len() == 0,
        ensures
            Self::parse(self.payload().concat(rest)) == Ok::<(Account, Payload), BlockError>(
                (self, rest),
            ),
    {
        reveal(Account::parse);
        match self {
            Account::AccountNone => {
                lemma_take_bit(false, rest);
            },
            Account::Account(stuff) => {
                lemma_concat_assoc(Self::tag_payload(stuff), stuff.payload(), rest);
                let body = stuff.payload().concat(rest);
                if stuff.storage.init_code_hash is Some {
                    let p = Payload::of_bits(uint_bits(1, 4)).concat(body);
                    let zero = Payload::of_bits(seq![false]);
                    let tag = Payload::of_bits(uint_bits(1, 3));
                    assert(uint_bits(1, 4) =~= seq![false] + uint_bits(1, 3)) by {
                        reveal_with_fuel(uint_bits, 5);
                    }
                    assert(p =~= zero.concat(tag.concat(body)));
                    lemma_take_bit(false, tag.concat(body));
                    lemma_uint_bits_len(1, 3);
                    lemma2_to64();
                    lemma_take_uint(1, 3, body);
                    stuff.lemma_parse_payload(rest);
                } else {
                    lemma_take_bit(true, body);
                    stuff.lemma_parse_payload(rest);
                }
            },
        }
    }

    /// What is read is within the bounds of its numbers.
    pub proof fn lemma_parse_wf(p: Payload)
        requires
            Self::parse(p) is Ok,
        ensures
            Self::parse(p)->Ok_0.0.wf(),
    {
        reveal(Account::parse);
        let (bit, rest) = p.take_bit()->Ok_0;
        if bit {
            AccountStuff::lemma_parse_wf(rest, false);
        } else if rest.bits.len() != 0 {
            let (tag, rest2) = rest.take_uint(3)->Ok_0;
            if tag == 1 {
                AccountStuff::lemma_parse_wf(rest2, true);
            }
        }
    }

    /// A layout that starts with a zero bit and a tag other than `000` and `001` is
    /// refused with that tag.
    pub proof fn lemma_unknown_tag_rejected(p: Payload)
        requires
            p.bits.len() >= 4,
            !p.bits[0],
            bits_uint(p.bits.subrange(1, 4)) > 1,
        ensures
            Self::parse(p) == Err::<(Account, Payload), BlockError>(
                BlockError::InvalidConstructorTag { tag: bits_uint(p.bits.subrange(1, 4)) as u32 },
            ),
    {
        reveal(Account::parse);
        let rest = p.take_bit()->Ok_0.1;
        assert(rest.bits.take(3) =~= p.bits.subrange(1, 4));
    }

    pub fn encode(&self, out: &mut Fragment)
        ensures
            final(out)@ == old(out)@.concat(self.payload()),
    {
        match self {
            Account::AccountNone => {
                out.push_bit(false);
            },
            Account::Account(stuff) => {
                if stuff.storage.init_code_hash.is_some() {
                    out.push_uint(1, 4);
                } else {
                    out.push_bit(true);
                }
                stuff.encode(out);
                proof {
                    lemma_concat_assoc(old(out)@, Self::tag_payload(*stuff), stuff.payload());
                }
            },
        }
    }

    /// Appends the account to `builder`, or fails and changes nothing where it does not
    /// fit.
    pub fn write_to(&self, builder: &mut BuilderData) -> (r: Result<(), BlockError>)
        ensures
            old(builder)@.concat(self.payload()).fits() ==> r is Ok && final(builder)@
                == old(builder)@.concat(self.payload()),
            !old(builder)@.concat(self.payload()).fits() ==> r == Err::<(), BlockError>(
                BlockError::CellOverflow,
            ) && final(builder)@ == old(builder)@,
    {
        write_to(self, builder)
    }

    /// Appends the account in the original layout to `builder`, or fails and changes
    /// nothing where it does not fit. A pinned hash is left out.
    pub fn write_original_format(&self, builder: &mut BuilderData) -> (r: Result<(), BlockError>)
        ensures
            old(builder)@.concat(self.original_payload()).fits() ==> r is Ok && final(builder)@
                == old(builder)@.concat(self.original_payload()),
            !old(builder)@.concat(self.original_payload()).fits() ==> r == Err::<(), BlockError>(
                BlockError::CellOverflow,
            ) && final(builder)@ == old(builder)@,
    {
        let mut f = Fragment::new();
        match self {
            Account::AccountNone => {
                f.push_bit(false);
            },
            Account::Account(stuff) => {
                f.push_bit(true);
                let plain = AccountStuff {
                    addr: stuff.addr,
                    storage_stat: stuff.storage_stat,
                    storage: AccountStorage {
                        last_trans_lt: stuff.storage.last_trans_lt,
                        balance: stuff.storage.balance.clone(),
                        state: stuff.storage.state.clone(),
                        init_code_hash: None,
                    },
                };
                plain.encode(&mut f);
                proof {
                    lemma_concat_assoc(
                        Payload::empty(),
                        Payload::of_bits(seq![true]),
                        plain.payload(),
                    );
                }
            },
        }
        proof {
            lemma_concat_empty(self.original_payload());
        }
        builder.append_fragment(&f)
    }

    /// The node that holds the account. It fails where the account is longer than one
    /// node.
    pub fn serialize(&self) -> (r: Result<Cell, BlockError>)
        ensures
            self.payload().fits() ==> r is Ok && r->Ok_0.holds(self.payload()),
            !self.payload().fits() ==> r == Err::<Cell, BlockError>(BlockError::CellOverflow),
    {
        serialize(self)
    }

    pub fn construct_from(slice: &mut SliceData) -> (r: Result<Account, BlockError>)
        ensures
            match Self::parse(old(slice)@) {
                Ok((v, rest)) => r == Ok::<Account, BlockError>(v) && final(slice)@ == rest,
                Err(e) => r == Err::<Account, BlockError>(e),
            },
    {
        proof {
            reveal(Account::parse);
        }
        if slice.get_next_bit()? {
            let stuff = AccountStuff::construct_from(slice, false)?;
            Ok(Account::Account(stuff))
        } else if slice.remaining_bits() == 0 {
            Ok(Account::AccountNone)
        } else {
            let ghost rest = slice@;
            let tag = slice.get_next_uint(3)?;
            proof {
                lemma_bits_uint_bound(rest.bits.take(3));
                lemma2_to64();
            }
            if tag == 0 {
                Ok(Account::AccountNone)
            } else if tag == 1 {
                let stuff = AccountStuff::construct_from(slice, true)?;
                Ok(Account::Account(stuff))
            } else {
                Err(BlockError::InvalidConstructorTag { tag: tag as u32 })
            }
        }
    }

    /// Reads the account that `cell` holds. A placeholder holds none to read.
    pub fn construct_from_cell(cell: Cell) -> (r: Result<Account, BlockError>)
        ensures
            cell.is_pruned() ==> r == Err::<Account, BlockError>(BlockError::PrunedCellAccess),
            !cell.is_pruned() ==> match Self::parse(cell.payload()) {
                Ok((v, rest)) => r == Ok::<Account, BlockError>(v),
                Err(e) => r == Err::<Account, BlockError>(e),
            },
    {
        let mut slice = SliceData::load_cell(cell)?;
        Self::construct_from(&mut slice)
    }

    /// Whether both are no account, or both are accounts with the same address, rent
    /// bookkeeping and storage, nodes being the same where their hashes are.
    pub open spec fn same_as(&self, other: &Account) -> bool {
        match (*self, *other) {
            (Account::Account(a), Account::Account(b)) => a.same_as(&b),
            (Account::AccountNone, Account::AccountNone) => true,
            _ => false,
        }
    }

    /// The text of an account: its account identifier, its rent bookkeeping and its
    /// storage; or that there is none.
    pub open spec fn text(&self) -> Seq<char> {
        match *self {
            Account::AccountNone => "Account[AccountNone]"@,
            Account::Account(stuff) => "Account[Account("@ + hash_text(stuff.addr.address) + ", "@
                + stuff.storage_stat.text() + ", "@ + stuff.storage.text() + ")]"@,
        }
    }

    pub fn to_string(&self) -> (s: String)
        ensures
            s@ == self.text(),
    {
        let mut s = String::new();
        match self {
            Account::AccountNone => {
                s.append("Account[AccountNone]");
            },
            Account::Account(stuff) => {
                s.append("Account[Account(");
                push_hash(&mut s, &stuff.addr.address);
                s.append(", ");
                let stat = stuff.storage_stat.to_string();
                s.append(stat.as_str());
                s.append(", ");
                let storage = stuff.storage.to_string();
                s.append(storage.as_str());
                s.append(")]");
            },
        }
        assert(s@ =~= self.text());
        s
    }
}

impl Default for Account {
    fn default() -> (r: Account)
        ensures
            r == Account::AccountNone,
    {
        Account::default()
    }
}

impl Serializable for Account {
    open spec fn layout(&self) -> Payload {
        self.payload()
    }

    fn write_into(&self, out: &mut Fragment) {
        self.encode(out);
    }
}

/// An account as a shard keeps it: the root of the account's node, which is read only
/// when the account is asked for, and the hash and time of its last transaction.
#[derive(Debug)]
pub struct ShardAccount {
    account: Cell,
    last_trans_hash: UInt256,
    last_trans_lt: u64,
}

/// Two entries are equal where the hashes of their account nodes, the transaction
/// hashes and the times are equal. No account is read to tell.
impl PartialEq for ShardAccount {
    fn eq(&self, other: &ShardAccount) -> (r: bool) {
        self.account.repr_hash() == other.account.repr_hash() && self.last_trans_hash
            == other.last_trans_hash && self.last_trans_lt == other.last_trans_lt
    }
}

impl Eq for ShardAccount {

}

impl PartialEqSpecImpl for ShardAccount {
    open spec fn obeys_eq_spec() -> bool {
        true
    }

    open spec fn eq_spec(&self, other: &ShardAccount) -> bool {
        self.spec_account_cell().hash() == other.spec_account_cell().hash()
            && self.spec_last_trans_hash() == other.spec_last_trans_hash()
            && self.spec_last_trans_lt() == other.spec_last_trans_lt()
    }
}

impl Clone for ShardAccount {
    fn clone(&self) -> (r: ShardAccount)
        ensures
            r == *self,
    {
        ShardAccount {
            account: self.account.clone(),
            last_trans_hash: self.last_trans_hash,
            last_trans_lt: self.last_trans_lt,
        }
    }
}

impl ShardAccount {
    /// The root of the account's node.
    pub closed spec fn spec_account_cell(&self) -> Cell {
        self.account
    }

    pub closed spec fn spec_last_trans_hash(&self) -> UInt256 {
        self.last_trans_hash
    }

    pub closed spec fn spec_last_trans_lt(&self) -> u64 {
        self.last_trans_lt
    }

    /// The entry with the given parts.
    pub closed spec fn of(account: Cell, last_trans_hash: UInt256, last_trans_lt: u64)
        -> ShardAccount {
        ShardAccount { account, last_trans_hash, last_trans_lt }
    }

    pub proof fn lemma_of(account: Cell, last_trans_hash: UInt256, last_trans_lt: u64)
        ensures
            Self::of(account, last_trans_hash, last_trans_lt).spec_account_cell() == account,
            Self::of(account, last_trans_hash, last_trans_lt).spec_last_trans_hash()
                == last_trans_hash,
            Self::of(account, last_trans_hash, last_trans_lt).spec_last_trans_lt() == last_trans_lt,
    {
    }

    pub proof fn lemma_of_parts(self)
        ensures
            Self::of(self.spec_account_cell(), self.spec_last_trans_hash(), self.spec_last_trans_lt())
                == self,
    {
    }

    /// The entry for no account.
    pub fn default() -> (r: ShardAccount)
        ensures
            r.spec_account_cell().payload() == Account::AccountNone.payload(),
            !r.spec_account_cell().is_pruned(),
            r.spec_last_trans_hash() == (UInt256 { hi: 0, lo: 0 }),
            r.spec_last_trans_lt() == 0,
    {
        let mut b = BuilderData::new();
        let none = Account::AccountNone;
        proof {
            lemma_concat_empty(none.payload());
        }
        let r = none.write_to(&mut b);
        ShardAccount { account: b.into_cell(), last_trans_hash: UInt256::new(0, 0), last_trans_lt: 0 }
    }

    pub fn with_account_root(account_root: Cell, last_trans_hash: UInt256, last_trans_lt: u64) -> (r:
        ShardAccount)
        ensures
            r == Self::of(account_root, last_trans_hash, last_trans_lt),
    {
        ShardAccount { account: account_root, last_trans_hash, last_trans_lt }
    }

    /// The entry for `account`, which is written into a node. It fails where the
    /// account is longer than one node.
    pub fn with_params(account: &Account, last_trans_hash: UInt256, last_trans_lt: u64) -> (r:
        Result<ShardAccount, BlockError>)
        ensures
            account.payload().fits() ==> r is Ok && r->Ok_0.spec_account_cell().holds(
                account.payload(),
            ) && r->Ok_0.spec_last_trans_hash() == last_trans_hash && r->Ok_0.spec_last_trans_lt()
                == last_trans_lt,
            !account.payload().fits() ==> r == Err::<ShardAccount, BlockError>(
                BlockError::CellOverflow,
            ),
    {
        Ok(ShardAccount { account: account.serialize()?, last_trans_hash, last_trans_lt })
    }

    /// Reads the account from its node.
    pub fn read_account(&self) -> (r: Result<Account, BlockError>)
        ensures
            self.spec_account_cell().is_pruned() ==> r == Err::<Account, BlockError>(
                BlockError::PrunedCellAccess,
            ),
            !self.spec_account_cell().is_pruned() ==> match Account::parse(
                self.spec_account_cell().payload(),
            ) {
                Ok((v, rest)) => r == Ok::<Account, BlockError>(v),
                Err(e) => r == Err::<Account, BlockError>(e),
            },
    {
        Account::construct_from_cell(self.account.clone())
    }

    /// Writes `value` into a node and keeps that node in place of the one kept before.
    /// It fails and changes nothing where the account is longer than one node.
    pub fn write_account(&mut self, value: &Account) -> (r: Result<(), BlockError>)
        ensures
            final(self).spec_last_trans_hash() == old(self).spec_last_trans_hash(),
            final(self).spec_last_trans_lt() == old(self).spec_last_trans_lt(),
            value.payload().fits() ==> r is Ok && final(self).spec_account_cell().holds(
                value.payload(),
            ),
            !value.payload().fits() ==> r == Err::<(), BlockError>(BlockError::CellOverflow)
                && *final(self) == *old(self),
    {
        let cell = value.serialize()?;
        self.account = cell;
        Ok(())
    }

    pub fn last_trans_hash(&self) -> (h: &UInt256)
        ensures
            *h == self.spec_last_trans_hash(),
    {
        &self.last_trans_hash
    }

    pub fn set_last_trans_hash(&mut self, hash: UInt256)
        ensures
            *final(self) == Self::of(
                old(self).spec_account_cell(),
                hash,
                old(self).spec_last_trans_lt(),
            ),
    {
        self.last_trans_hash = hash;
    }

    pub fn last_trans_lt(&self) -> (lt: u64)
        ensures
            lt == self.spec_last_trans_lt(),
    {
        self.last_trans_lt
    }

    pub fn set_last_trans_lt(&mut self, lt: u64)
        ensures
            *final(self) == Self::of(
                old(self).spec_account_cell(),
                old(self).spec_last_trans_hash(),
                lt,
            ),
    {
        self.last_trans_lt = lt;
    }

    pub fn last_trans_hash_mut(&mut self) -> (h: &mut UInt256)
        ensures
            *h == old(self).spec_last_trans_hash(),
            *final(self) == Self::of(
                old(self).spec_account_cell(),
                *final(h),
                old(self).spec_last_trans_lt(),
            ),
    {
        &mut self.last_trans_hash
    }

    pub fn last_trans_lt_mut(&mut self) -> (lt: &mut u64)
        ensures
            *lt == old(self).spec_last_trans_lt(),
            *final(self) == Self::of(
                old(self).spec_account_cell(),
                old(self).spec_last_trans_hash(),
                *final(lt),
            ),
    {
        &mut self.last_trans_lt
    }

    /// The root of the account's node.
    pub fn account_cell(&self) -> (c: Cell)
        ensures
            c == self.spec_account_cell(),
    {
        self.account.clone()
    }

    pub fn set_account_cell(&mut self, cell: Cell)
        ensures
            *final(self) == Self::of(
                cell,
                old(self).spec_last_trans_hash(),
                old(self).spec_last_trans_lt(),
            ),
    {
        self.account = cell;
    }

    /// The layout: the account's node as a child, the hash of the last transaction on
    /// 256 bits, its time on 64 bits.
    pub open spec fn payload(&self) -> Payload {
        Payload::of_ref(self.spec_account_cell()).concat(
            Payload::of_bits(self.spec_last_trans_hash().bits()),
        ).concat(Payload::of_bits(uint_bits(self.spec_last_trans_lt() as nat, 64)))
    }

    #[verifier::opaque]
    pub open spec fn parse(p: Payload) -> Result<(ShardAccount, Payload), BlockError> {
        match p.take_ref() {
            Err(e) => Err(e),
            Ok((account, r1)) => match r1.take_hash() {
                Err(e) => Err(e),
                Ok((hash, r2)) => match r2.take_uint(64) {
                    Err(e) => Err(e),
                    Ok((lt, r3)) => Ok((Self::of(account, hash, lt as u64), r3)),
                },
            },
        }
    }

    pub proof fn lemma_parse_payload(self, rest: Payload)
        ensures
            Self::parse(self.payload().concat(rest)) == Ok::<(ShardAccount, Payload), BlockError>(
                (self, rest),
            ),
    {
        reveal(ShardAccount::parse);
        let a = Payload::of_ref(self.spec_account_cell());
        let b = Payload::of_bits(self.spec_last_trans_hash().bits());
        let c = Payload::of_bits(uint_bits(self.spec_last_trans_lt() as nat, 64));
        lemma_concat_assoc(a.concat(b), c, rest);
        lemma_concat_assoc(a, b, c.concat(rest));
        crate::codec::lemma_take_ref(self.spec_account_cell(), b.concat(c.concat(rest)));
        lemma_take_hash(self.spec_last_trans_hash(), c.concat(rest));
        crate::bits::lemma_pow2_128();
        lemma_take_uint(self.spec_last_trans_lt() as nat, 64, rest);
    }

    pub fn encode(&self, out: &mut Fragment)
        ensures
            final(out)@ == old(out)@.concat(self.payload()),
    {
        out.push_reference(self.account.clone());
        out.push_hash(&self.last_trans_hash);
        out.push_uint(self.last_trans_lt as u128, 64);
        proof {
            let a = Payload::of_ref(self.spec_account_cell());
            let b = Payload::of_bits(self.spec_last_trans_hash().bits());
            let c = Payload::of_bits(uint_bits(self.spec_last_trans_lt() as nat, 64));
            lemma_concat_assoc(old(out)@, a, b);
            lemma_concat_assoc(old(out)@, a.concat(b), c);
        }
    }

    pub fn construct_from(slice: &mut SliceData) -> (r: Result<ShardAccount, BlockError>)
        ensures
            match Self::parse(old(slice)@) {
                Ok((v, rest)) => r == Ok::<ShardAccount, BlockError>(v) && final(slice)@ == rest,
                Err(e) => r == Err::<ShardAccount, BlockError>(e),
            },
    {
        proof {
            reveal(ShardAccount::parse);
        }
        let account = slice.checked_drain_reference()?;
        let last_trans_hash = slice.get_next_hash()?;
        let last_trans_lt = slice.get_next_u64()?;
        Ok(ShardAccount { account, last_trans_hash, last_trans_lt })
    }

    /// An account that was written into an entry is the account that is read from it.
    pub proof fn lemma_read_what_was_written(self, account: Account)
        requires
            account.wf(),
            self.spec_account_cell().payload() == account.payload(),
        ensures
            Account::parse(self.spec_account_cell().payload()) == Ok::<
                (Account, Payload),
                BlockError,
            >((account, Payload::empty())),
    {
        account.lemma_round_trip();
    }

    /// Reads the account from its node, while `usage` notes that the node is opened.
    pub fn read_account_tracked(&self, usage: &mut UsageTree) -> (r: Result<Account, BlockError>)
        ensures
            final(usage).spec_root() == old(usage).spec_root(),
            self.spec_account_cell().is_pruned() ==> r == Err::<Account, BlockError>(
                BlockError::PrunedCellAccess,
            ) && final(usage).visited() == old(usage).visited(),
            !self.spec_account_cell().is_pruned() ==> {
                &&& final(usage).visited() == old(usage).visited().insert(
                    self.spec_account_cell().hash(),
                )
                &&& match Account::parse(self.spec_account_cell().payload()) {
                    Ok((v, rest)) => r == Ok::<Account, BlockError>(v),
                    Err(e) => r == Err::<Account, BlockError>(e),
                }
            },
    {
        let mut slice = usage.load(&self.account)?;
        Account::construct_from(&mut slice)
    }

    /// Appends the layout to `builder`, or fails and changes nothing where it does not
    /// fit.
    pub fn write_to(&self, builder: &mut BuilderData) -> (r: Result<(), BlockError>)
        ensures
            old(builder)@.concat(self.payload()).fits() ==> r is Ok && final(builder)@
                == old(builder)@.concat(self.payload()),
            !old(builder)@.concat(self.payload()).fits() ==> r == Err::<(), BlockError>(
                BlockError::CellOverflow,
            ) && final(builder)@ == old(builder)@,
    {
        let mut f = Fragment::new();
        self.encode(&mut f);
        proof {
            crate::codec::lemma_concat_empty(self.payload());
        }
        builder.append_fragment(&f)
    }

    /// Reads a value in place of this one. Nothing changes where reading fails.
    pub fn read_from(&mut self, slice: &mut SliceData) -> (r: Result<(), BlockError>)
        ensures
            match Self::parse(old(slice)@) {
                Ok((v, rest)) => r is Ok && *final(self) == v && final(slice)@ == rest,
                Err(e) => r == Err::<(), BlockError>(e) && *final(self) == *old(self),
            },
    {
        let v = Self::construct_from(slice)?;
        *self = v;
        Ok(())
    }
}

impl Default for ShardAccount {
    fn default() -> (r: ShardAccount)
        ensures
            r.spec_account_cell().payload() == Account::AccountNone.payload(),
            !r.spec_account_cell().is_pruned(),
            r.spec_last_trans_hash() == (UInt256 { hi: 0, lo: 0 }),
            r.spec_last_trans_lt() == 0,
    {
        ShardAccount::default()
    }
}

impl Serializable for ShardAccount {
    open spec fn layout(&self) -> Payload {
        self.payload()
    }

    fn write_into(&self, out: &mut Fragment) {
        self.encode(out);
    }
}

/// The amount of the extra currency `id` in the balance of the account for trials.
pub open spec fn test_amount(id: u32) -> Option<nat> {
    if 1 <= id <= 6 {
        Some((id * 100) as nat)
    } else if id == 7 {
        Some(10000100)
    } else {
        None
    }
}

/// Whether a node holds the 61 bits that denote `value`, and children as many as
/// `children`.
pub open spec fn is_test_node(node: Option<Cell>, value: nat, children: nat) -> bool {
    node matches Some(c) && c.bits() == uint_bits(value, 61) && c.refs().len() == children
        && !c.is_pruned()
}

fn bits_cell(value: u64, bits: usize, child: Option<Cell>) -> (c: Cell)
    requires
        bits <= 64,
    ensures
        c.bits() == uint_bits(value as nat, bits as nat),
        c.refs() == match child {
            Some(r) => seq![r],
            None => Seq::<Cell>::empty(),
        },
        !c.is_pruned(),
        c.tree_cells() <= 1 + cells_below(child),
        c.tree_bits() <= bits + bits_below(child),
{
    let mut f = Fragment::new();
    f.push_uint(value as u128, bits);
    match child {
        Some(r) => {
            f.push_reference(r);
        },
        None => {},
    }
    proof {
        lemma_uint_bits_len(value as nat, bits as nat);
        lemma_concat_empty(f@);
    }
    let mut b = BuilderData::new();
    let ok = b.append_fragment(&f);
    let c = b.into_cell();
    assert(c.bits() =~= uint_bits(value as nat, bits as nat));
    assert(c.refs() =~= match child {
        Some(r) => seq![r],
        None => Seq::<Cell>::empty(),
    });
    proof {
        lemma_sat_sum_short(c.refs(), |c: Cell| c.tree_cells());
        lemma_sat_sum_short(c.refs(), |c: Cell| c.tree_bits());
    }
    c
}

/// An active account for trials: an anycast address, code of five nodes in a row, data,
/// one public library, a balance with seven extra currencies, and its footprint
/// counted. Where `init_code_hash` is set, the hash of the code is pinned.
pub fn generate_test_account_by_init_code_hash(init_code_hash: bool) -> (r: Account)
    ensures
        r.wf(),
        r matches Account::Account(stuff) && r.spec_state_init() matches Some(state) && {
            &&& stuff.addr.workchain_id == 0
            &&& stuff.addr.address == (UInt256 {
                hi: 0x0001_0203_0405_0607_0809_0a0b_0c0d_0e0f,
                lo: 0x1011_1213_1415_1617_1819_1a1b_1c1d_1e1f,
            })
            &&& stuff.addr.anycast matches Some(anycast) && anycast.spec_depth() == 24
                && anycast.spec_prefix() == 0x983217
            &&& stuff.storage_stat.last_paid == 123456789
            &&& stuff.storage_stat.due_payment matches Some(due) && due@ == 111
            &&& stuff.storage.last_trans_lt == 0
            &&& stuff.storage.balance.grams@ == 100000000000
            &&& forall|id: u32| #[trigger]
                stuff.storage.balance.other.spec_get(id) == (match test_amount(id) {
                    Some(amount) => Ok::<Option<Grams>, BlockError>(Some(Grams::of(amount))),
                    None => Ok::<Option<Grams>, BlockError>(None),
                })
            &&& state.split_depth matches Some(depth) && depth@ == 23
            &&& state.special == Some(TickTock { tick: false, tock: true })
            &&& is_test_node(state.code, 0x07ff_ffff_ffff_fffe, 1)
            &&& is_test_node(state.data, 0x07ff_e3ff_ffff_fffe, 0)
            &&& exists|library: Cell|
                is_test_node(Some(library), 0x07ff_ffff_ffff_fffe, 0)
                    && #[trigger] state.library.spec_get(library.hash()) == Ok::<
                    Option<SimpleLib>,
                    BlockError,
                >(Some(SimpleLib { public: true, root: library }))
            &&& stuff.storage.init_code_hash == pinned_code_hash(state, init_code_hash)
            &&& footprint_of(stuff.storage.payload()) matches Ok(walk)
                && stuff.storage_stat.used.is_footprint(walk)
        },
{
    proof {
        lemma2_to64();
    }
    let anycast = match crate::messages::AnycastInfo::new(24, 0x983217) {
        Ok(a) => Some(a),
        Err(_) => None,
    };
    let address = UInt256::new(
        0x0001_0203_0405_0607_0809_0a0b_0c0d_0e0f,
        0x1011_1213_1415_1617_1819_1a1b_1c1d_1e1f,
    );
    let storage_stat = StorageInfo::with_values(123456789, Some(Grams::from_u64(111)));
    let mut state_init = StateInit::default();
    match Number5::new(23) {
        Ok(depth) => {
            state_init.set_split_depth(depth);
        },
        Err(_) => {},
    }
    state_init.set_special(TickTock::with_values(false, true));
    let subcode4 = bits_cell(0x07ff_e7ff_ffff_fffe, 61, None);
    let subcode3 = bits_cell(0x01ff_ffff_ffff_fffe, 61, Some(subcode4));
    let subcode2 = bits_cell(0x07e7_ffff_ffff_fffe, 61, Some(subcode3));
    let subcode1 = bits_cell(0x07ff_ffff_ffff_fffe, 61, Some(subcode2));
    let code = bits_cell(0x07ff_ffff_ffff_fffe, 61, Some(subcode1));
    state_init.set_code(code);
    state_init.set_data(bits_cell(0x07ff_e3ff_ffff_fffe, 61, None));
    let library = bits_cell(0x07ff_ffff_ffff_fffe, 61, None);
    let ghost library_node = library;
    let ok = state_init.set_library_code(library, true);
    let mut balance = CurrencyCollection::with_grams(100000000000);
    let mut id: u32 = 1;
    while id <= 6
        invariant
            1 <= id <= 7,
            balance.grams@ == 100000000000,
            balance.grams.wf(),
            cells_below(balance.other.root) <= 33 * (id - 1),
            bits_below(balance.other.root) <= 188 * (id - 1),
            forall|other: u32|
                #[trigger] balance.other.spec_get(other) == (if other < id {
                    match test_amount(other) {
                        Some(amount) => Ok::<Option<Grams>, BlockError>(Some(Grams::of(amount))),
                        None => Ok::<Option<Grams>, BlockError>(None),
                    }
                } else {
                    Ok::<Option<Grams>, BlockError>(None)
                }),
        decreases 7 - id,
    {
        let ghost before = balance;
        proof {
            assert(balance.other.spec_get(id) == Ok::<Option<Grams>, BlockError>(None));
        }
        let ok = balance.set_other(id, (id as u128) * 100);
        proof {
            let set = balance.other.spec_get(id)->Ok_0->Some_0;
            Grams::lemma_of((id * 100) as nat);
            set.lemma_view_injective(Grams::of((id * 100) as nat));
            assert forall|other: u32|
                #[trigger] balance.other.spec_get(other) == (if other < id + 1 {
                    match test_amount(other) {
                        Some(amount) => Ok::<Option<Grams>, BlockError>(Some(Grams::of(amount))),
                        None => Ok::<Option<Grams>, BlockError>(None),
                    }
                } else {
                    Ok::<Option<Grams>, BlockError>(None)
                }) by {
                if other != id {
                    assert(balance.other.spec_get(other) == before.other.spec_get(other));
                }
            }
        }
        id = id + 1;
    }
    let ghost before = balance;
    proof {
        assert(balance.other.spec_get(7) == Ok::<Option<Grams>, BlockError>(None));
    }
    let ok = balance.set_other(7, 10000100);
    proof {
        let set = balance.other.spec_get(7)->Ok_0->Some_0;
        Grams::lemma_of(10000100);
        set.lemma_view_injective(Grams::of(10000100));
        assert forall|other: u32|
            #[trigger] balance.other.spec_get(other) == (match test_amount(other) {
                Some(amount) => Ok::<Option<Grams>, BlockError>(Some(Grams::of(amount))),
                None => Ok::<Option<Grams>, BlockError>(None),
            }) by {
            if other != 7 {
                assert(balance.other.spec_get(other) == before.other.spec_get(other));
            }
        }
    }
    let ghost state = state_init;
    let storage = AccountStorage::active_by_init_code_hash(0, balance, state_init, init_code_hash);
    let addr = MsgAddressInt::with_standart(anycast, 0, address);
    let mut account = Account::with_storage(&addr, &storage_stat, &storage);
    proof {
        storage.lemma_payload_len();
        storage.lemma_payload_children();
        lemma_sat_sum_bounded(storage.payload().refs, |c: Cell| c.tree_cells(), 300);
        lemma_sat_sum_bounded(storage.payload().refs, |c: Cell| c.tree_bits(), 2000);
        assert(fast_counts_fit(storage.payload()));
        assert(is_test_node(Some(library_node), 0x07ff_ffff_ffff_fffe, 0));
        assert(state.library.spec_get(library_node.hash()) == Ok::<Option<SimpleLib>, BlockError>(
            Some(SimpleLib { public: true, root: library_node }),
        ));
    }
    let ghost made = account;
    match account.update_storage_stat() {
        Ok(()) => {},
        Err(_) => vstd::pervasive::unreached(),
    }
    assert(account.is_counted(made));
    account
}

} // verus!
