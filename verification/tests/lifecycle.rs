use ton_accounts::accounts::{
    generate_test_account_by_init_code_hash, Account, AccountState, AccountStatus,
};
use ton_accounts::builder::BuilderData;
use ton_accounts::cell::{Cell, UInt256};
use ton_accounts::currency::CurrencyCollection;
use ton_accounts::error::{BlockError, ErrorKind};
use ton_accounts::messages::{
    CommonMsgInfo, InternalMessageHeader, Message, MsgAddressInt, StateInit, TickTock,
};
use ton_accounts::shard::{ConfigParams, ShardIdent};
use ton_accounts::types::{Grams, Number5};

fn leaf(value: u128, bits: usize) -> Cell {
    let mut b = BuilderData::new();
    b.append_bits(value, bits).unwrap();
    b.into_cell()
}

fn state_with(code: u128) -> StateInit {
    let mut s = StateInit::default();
    s.set_code(leaf(code, 32));
    s.set_data(leaf(0, 1));
    s
}

fn uninit_for(state: &StateInit) -> Account {
    let addr = MsgAddressInt::with_standart(None, 0, state.hash());
    Account::with_address_and_ballance(&addr, &CurrencyCollection::with_grams(1000))
}

#[test]
fn activation_succeeds_where_the_hash_is_the_address() {
    let state = state_with(1);
    let mut account = uninit_for(&state);
    assert_eq!(account.status(), AccountStatus::AccStateUninit);
    assert_eq!(account.try_activate_by_init_code_hash(&state, false), Ok(()));
    assert_eq!(account.status(), AccountStatus::AccStateActive);
    assert_eq!(account.state_init(), Some(&state));
    assert_eq!(account.init_code_hash(), None);
    assert_eq!(account.get_code(), Some(leaf(1, 32)));
    assert_eq!(account.get_code_hash(), Some(leaf(1, 32).repr_hash()));
    assert_eq!(account.get_data_hash(), Some(leaf(0, 1).repr_hash()));
}

#[test]
fn activation_pins_the_code_hash_where_asked() {
    let state = state_with(1);
    let mut account = uninit_for(&state);
    assert_eq!(account.try_activate_by_init_code_hash(&state, true), Ok(()));
    assert_eq!(account.init_code_hash(), Some(&leaf(1, 32).repr_hash()));
    account.set_code(leaf(2, 32));
    assert_eq!(account.init_code_hash(), Some(&leaf(1, 32).repr_hash()));
    assert_eq!(account.get_code_hash(), Some(leaf(2, 32).repr_hash()));
}

#[test]
fn activation_without_code_pins_nothing() {
    let state = StateInit::default();
    let mut account = uninit_for(&state);
    assert_eq!(account.try_activate_by_init_code_hash(&state, true), Ok(()));
    assert_eq!(account.init_code_hash(), None);
    assert_eq!(account.status(), AccountStatus::AccStateActive);
}

#[test]
fn activation_fails_where_the_hash_is_not_the_address() {
    let state = state_with(1);
    let mut account = uninit_for(&state);
    let before = account.clone();
    let r = account.try_activate_by_init_code_hash(&state_with(2), true);
    assert_eq!(r, Err(BlockError::HashMismatch));
    assert_eq!(r.unwrap_err().kind(), ErrorKind::PolicyViolation);
    assert_eq!(account, before);
    assert_eq!(account.status(), AccountStatus::AccStateUninit);
}

#[test]
fn activation_of_no_account_does_nothing() {
    let mut none = Account::default();
    assert_eq!(none.try_activate_by_init_code_hash(&state_with(1), false), Ok(()));
    assert_eq!(none, Account::AccountNone);
    assert_eq!(none.status(), AccountStatus::AccStateNonexist);
}

#[test]
fn activation_of_an_active_account_changes_nothing() {
    let state = state_with(1);
    let mut account = uninit_for(&state);
    account.try_activate_by_init_code_hash(&state, true).unwrap();
    let before = account.clone();
    assert_eq!(account.try_activate_by_init_code_hash(&state_with(2), false), Ok(()));
    assert_eq!(account, before);
    assert_eq!(account.try_activate_by_init_code_hash(&state, false), Ok(()));
    assert_eq!(account, before);
}

#[test]
fn freeze_keeps_the_hash_and_reactivation_restores_the_state() {
    let state = state_with(1);
    let mut account = uninit_for(&state);
    account.try_activate_by_init_code_hash(&state, false).unwrap();
    let active = account.clone();

    assert_eq!(account.try_freeze(), Ok(()));
    assert_eq!(account.status(), AccountStatus::AccStateFrozen);
    assert_eq!(account.frozen_hash(), Some(&state.hash()));
    assert_eq!(account.state_init(), None);
    assert_eq!(account.get_code(), None);
    assert_eq!(account.balance(), active.balance());

    let frozen = account.clone();
    assert_eq!(
        account.try_activate_by_init_code_hash(&state_with(2), false),
        Err(BlockError::HashMismatch)
    );
    assert_eq!(account, frozen);

    assert_eq!(account.try_activate_by_init_code_hash(&state, false), Ok(()));
    assert_eq!(account.status(), AccountStatus::AccStateActive);
    assert_eq!(account.state_init(), Some(&state));
    assert_eq!(account, active);
}

#[test]
fn reactivation_pins_the_code_hash_where_asked() {
    let state = state_with(1);
    let mut account = uninit_for(&state);
    account.try_activate_by_init_code_hash(&state, true).unwrap();
    assert!(account.init_code_hash().is_some());
    account.freeze_account();
    assert!(account.init_code_hash().is_some());
    account.try_activate_by_init_code_hash(&state, false).unwrap();
    assert_eq!(account.init_code_hash(), None);
    account.freeze_account();
    account.try_activate_by_init_code_hash(&state, true).unwrap();
    assert_eq!(account.init_code_hash(), Some(&leaf(1, 32).repr_hash()));
}

#[test]
fn freeze_changes_only_an_active_account() {
    let state = state_with(1);
    let mut uninit = uninit_for(&state);
    let before = uninit.clone();
    assert_eq!(uninit.try_freeze(), Ok(()));
    assert_eq!(uninit, before);
    let mut none = Account::default();
    none.freeze_account();
    assert_eq!(none, Account::AccountNone);
    let mut frozen = generate_test_account_by_init_code_hash(false);
    frozen.freeze_account();
    let once = frozen.clone();
    frozen.freeze_account();
    assert_eq!(frozen, once);
}

#[test]
fn uninit_account_discards_the_state_for_good() {
    let state = state_with(1);
    let mut account = uninit_for(&state);
    account.try_activate_by_init_code_hash(&state, false).unwrap();
    account.uninit_account();
    assert_eq!(account.status(), AccountStatus::AccStateUninit);
    assert_eq!(account.state(), Some(&AccountState::AccountUninit));
    assert_eq!(account.frozen_hash(), None);
    let mut frozen = generate_test_account_by_init_code_hash(false);
    frozen.freeze_account();
    let before = frozen.clone();
    frozen.uninit_account();
    assert_eq!(frozen, before);
}

#[test]
fn status_names_each_position() {
    let state = state_with(1);
    let none = Account::default();
    let uninit = uninit_for(&state);
    let mut active = uninit.clone();
    active.try_activate_by_init_code_hash(&state, false).unwrap();
    let mut frozen = active.clone();
    frozen.freeze_account();
    assert_eq!(none.status(), AccountStatus::AccStateNonexist);
    assert_eq!(uninit.status(), AccountStatus::AccStateUninit);
    assert_eq!(active.status(), AccountStatus::AccStateActive);
    assert_eq!(frozen.status(), AccountStatus::AccStateFrozen);
    assert!(none.is_none() && none.state().is_none());
    assert!(matches!(uninit.state(), Some(AccountState::AccountUninit)));
    assert!(matches!(active.state(), Some(AccountState::AccountActive { .. })));
    assert!(matches!(frozen.state(), Some(AccountState::AccountFrozen { .. })));
}

#[test]
fn setters_do_nothing_where_there_is_no_account() {
    let mut none = Account::default();
    none.set_last_paid(5);
    none.set_due_payment(Some(Grams::from_u64(1)));
    none.set_balance(CurrencyCollection::with_grams(9));
    none.set_last_tr_time(7);
    none.set_addr(MsgAddressInt::with_standart(None, 0, UInt256::new(0, 0)));
    none.set_init_code_hash(UInt256::new(1, 1));
    assert!(!none.set_data(leaf(1, 1)));
    assert!(!none.set_code(leaf(1, 1)));
    assert_eq!(none, Account::AccountNone);
    assert_eq!(none.last_paid(), 0);
    assert_eq!(none.last_tr_time(), None);
    assert_eq!(none.get_id(), None);
    assert_eq!(none.update_storage_stat(), Ok(()));
    assert_eq!(none.update_storage_stat_fast(), Ok(()));
}

#[test]
fn setters_change_the_named_field() {
    let mut account = generate_test_account_by_init_code_hash(false);
    account.set_last_paid(5);
    account.set_due_payment(None);
    account.set_last_tr_time(7);
    account.set_balance(CurrencyCollection::with_grams(9));
    account.set_init_code_hash(UInt256::new(1, 1));
    assert_eq!(account.last_paid(), 5);
    assert_eq!(account.due_payment(), None);
    assert_eq!(account.last_tr_time(), Some(7));
    assert_eq!(account.get_balance(), Some(&CurrencyCollection::with_grams(9)));
    assert_eq!(account.init_code_hash(), Some(&UInt256::new(1, 1)));
    assert!(account.set_data(leaf(3, 3)));
    assert_eq!(account.get_data(), Some(leaf(3, 3)));
    assert_eq!(account.split_depth(), Some(Number5::new(23).unwrap()));
    assert_eq!(account.get_tick_tock(), Some(&TickTock::with_values(false, true)));
    account.state_init_mut().unwrap().set_special(TickTock::with_values(true, true));
    assert_eq!(account.get_tick_tock(), Some(&TickTock::with_values(true, true)));
    let aug = account.aug();
    assert_eq!(aug.split_depth, Some(Number5::new(23).unwrap()));
    assert_eq!(aug.balance, CurrencyCollection::with_grams(9));
}

fn message(value: u64, bounce: bool, init: Option<StateInit>) -> Message {
    Message {
        header: CommonMsgInfo::IntMsgInfo(InternalMessageHeader {
            bounce,
            dst: MsgAddressInt::with_standart(None, 0, UInt256::new(4, 4)),
            value: CurrencyCollection::with_grams(value),
        }),
        init,
    }
}

#[test]
fn a_message_with_funds_and_code_creates_an_active_account() {
    let state = state_with(1);
    let account = Account::from_message_by_init_code_hash(&message(50, true, Some(state.clone())), true).unwrap();
    assert_eq!(account.status(), AccountStatus::AccStateActive);
    assert_eq!(account.state_init(), Some(&state));
    assert_eq!(account.init_code_hash(), Some(&leaf(1, 32).repr_hash()));
    assert_eq!(account.balance(), Some(&CurrencyCollection::with_grams(50)));
    assert_eq!(account.get_id(), Some(UInt256::new(4, 4)));
    let used = account.storage_info().unwrap().used;
    assert_eq!((used.cells(), used.bits()), (3, 64 + 12 + 1 + 6 + 257 + 32 + 1));
    let plain = Account::from_message_by_init_code_hash(&message(50, true, Some(state)), false).unwrap();
    assert_eq!(plain.init_code_hash(), None);
}

#[test]
fn a_message_without_state_creates_an_uninit_account_unless_it_bounces() {
    let account = Account::from_message_by_init_code_hash(&message(50, false, None), true).unwrap();
    assert_eq!(account.status(), AccountStatus::AccStateUninit);
    assert_eq!(account.init_code_hash(), None);
    assert_eq!(Account::from_message_by_init_code_hash(&message(50, true, None), true), None);
}

#[test]
fn a_message_creates_no_account_without_funds_or_code() {
    assert_eq!(Account::from_message_by_init_code_hash(&message(0, false, None), false), None);
    assert_eq!(
        Account::from_message_by_init_code_hash(&message(0, false, Some(state_with(1))), false),
        None
    );
    assert_eq!(
        Account::from_message_by_init_code_hash(&message(5, false, Some(StateInit::default())), false),
        None
    );
    let external = Message { header: CommonMsgInfo::ExtInMsgInfo, init: Some(state_with(1)) };
    assert_eq!(Account::from_message_by_init_code_hash(&external, false), None);
    assert_eq!(external.int_header(), None);
}

#[test]
fn shard_holds_the_accounts_under_its_prefix() {
    let addr = MsgAddressInt::with_standart(None, 0, UInt256::new(0xa000 << 112, 0));
    let account = Account::with_address(addr);
    assert_eq!(account.belongs_to_shard(&ShardIdent::full(0)), Ok(true));
    assert_eq!(account.belongs_to_shard(&ShardIdent::full(-1)), Ok(false));
    assert_eq!(account.belongs_to_shard(&ShardIdent::with_prefix(0, 4, 0xa).unwrap()), Ok(true));
    assert_eq!(account.belongs_to_shard(&ShardIdent::with_prefix(0, 4, 0xb).unwrap()), Ok(false));
    assert_eq!(account.belongs_to_shard(&ShardIdent::with_prefix(0, 1, 1).unwrap()), Ok(true));
    assert_eq!(account.belongs_to_shard(&ShardIdent::with_prefix(0, 3, 0b101).unwrap()), Ok(true));
    assert_eq!(
        Account::default().belongs_to_shard(&ShardIdent::full(0)),
        Err(BlockError::AccountIsNone)
    );
    assert_eq!(ShardIdent::with_prefix(0, 61, 0), Err(BlockError::InvalidArg));
}

#[test]
fn config_root_replaces_the_first_child_of_the_data() {
    let mut account = generate_test_account_by_init_code_hash(false);
    let old_config = leaf(1, 8);
    let other = leaf(2, 8);
    let mut b = BuilderData::new();
    b.append_bits(0xcafe, 16).unwrap();
    b.checked_append_reference(old_config).unwrap();
    b.checked_append_reference(other.clone()).unwrap();
    account.set_data(b.into_cell());
    let new_config = leaf(3, 8);
    let config = ConfigParams::with_root(UInt256::new(5, 5), new_config.clone());
    assert_eq!(account.update_config_smc(&config), Ok(()));
    let data = account.get_data().unwrap();
    assert_eq!(data.bit_length(), 16);
    assert_eq!(data.reference(0), Some(new_config));
    assert_eq!(data.reference(1), Some(other));
    assert_eq!(data.reference(2), None);
}

#[test]
fn config_update_fails_without_data_child_or_root() {
    let config = ConfigParams::with_root(UInt256::new(5, 5), leaf(3, 8));
    let mut account = generate_test_account_by_init_code_hash(false);
    let before = account.clone();
    assert_eq!(account.update_config_smc(&config), Err(BlockError::InvalidArg));
    assert_eq!(account, before);
    assert_eq!(Account::default().update_config_smc(&config), Err(BlockError::InvalidArg));
    let mut b = BuilderData::new();
    b.checked_append_reference(leaf(1, 1)).unwrap();
    account.set_data(b.into_cell());
    let empty = ConfigParams { config_addr: UInt256::new(5, 5), config_params: None };
    assert_eq!(account.update_config_smc(&empty), Err(BlockError::InvalidArg));
    account.set_data(Cell::pruned_branch(UInt256::new(1, 1), 0));
    assert_eq!(account.update_config_smc(&config), Err(BlockError::PrunedCellAccess));
}
