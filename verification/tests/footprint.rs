use ton_accounts::accounts::{generate_test_account_by_init_code_hash, Account, AccountStorage};
use ton_accounts::builder::BuilderData;
use ton_accounts::cell::{Cell, UInt256};
use ton_accounts::currency::CurrencyCollection;
use ton_accounts::error::BlockError;
use ton_accounts::messages::{MsgAddressInt, StateInit};
use ton_accounts::storage::{StorageExtra, StorageUsed, StorageUsedShort};

fn node(value: u128, bits: usize, children: &[Cell]) -> Cell {
    let mut b = BuilderData::new();
    b.append_bits(value, bits).unwrap();
    for c in children {
        b.checked_append_reference(c.clone()).unwrap();
    }
    b.into_cell()
}

#[test]
fn a_single_node_counts_once_with_its_bits() {
    let used = StorageUsed::calculate_for_cell(&node(5, 10, &[])).unwrap();
    assert_eq!((used.cells(), used.bits()), (1, 10));
    assert_eq!(used.extra(), None);
}

#[test]
fn a_chain_counts_every_node() {
    let a = node(1, 8, &[]);
    let b = node(2, 16, &[a]);
    let c = node(3, 24, &[b]);
    let used = StorageUsed::calculate_for_cell(&c).unwrap();
    assert_eq!((used.cells(), used.bits()), (3, 48));
}

#[test]
fn a_diamond_counts_the_shared_node_once() {
    let shared = node(0xff, 8, &[]);
    let left = node(1, 4, &[shared.clone()]);
    let right = node(2, 4, &[shared.clone()]);
    let root = node(0, 2, &[left, right]);
    let used = StorageUsed::calculate_for_cell(&root).unwrap();
    assert_eq!((used.cells(), used.bits()), (4, 2 + 4 + 4 + 8));
    assert_eq!(root.tree_cell_count(), 5);
    assert_eq!(root.tree_bits_count(), 2 + 4 + 4 + 8 + 8);
}

#[test]
fn equal_children_count_once() {
    let root = node(0, 1, &[node(7, 3, &[]), node(7, 3, &[]), node(7, 3, &[]), node(7, 3, &[])]);
    let used = StorageUsed::calculate_for_cell(&root).unwrap();
    assert_eq!((used.cells(), used.bits()), (2, 4));
}

#[test]
fn append_counts_a_node_that_two_roots_share_once() {
    let shared = node(0xabcd, 16, &[node(9, 4, &[])]);
    let first = node(1, 8, &[shared.clone()]);
    let second = node(2, 8, &[shared.clone(), node(3, 3, &[])]);

    let mut both = StorageUsedShort::new();
    assert_eq!(both.append(&first), Ok(()));
    assert_eq!((both.cells(), both.bits()), (3, 8 + 16 + 4));
    assert_eq!(both.append(&second), Ok(()));
    assert_eq!((both.cells(), both.bits()), (5, 8 + 16 + 4 + 8 + 3));

    let mut one = StorageUsedShort::new();
    assert_eq!(one.append(&first), Ok(()));
    let mut two = StorageUsedShort::new();
    assert_eq!(two.append(&second), Ok(()));
    assert_eq!((two.cells(), two.bits()), (4, 8 + 16 + 4 + 3));
    assert!(one.cells() + two.cells() > both.cells());
    assert_eq!(one.cells() + two.cells(), both.cells() + 2);
    assert!(one.bits() + two.bits() > both.bits());
}

#[test]
fn append_of_roots_that_share_nothing_adds_up() {
    let first = node(1, 8, &[node(10, 4, &[])]);
    let second = node(2, 8, &[node(11, 4, &[])]);
    let mut both = StorageUsedShort::new();
    assert_eq!(both.append(&first), Ok(()));
    assert_eq!(both.append(&second), Ok(()));
    let mut one = StorageUsedShort::new();
    assert_eq!(one.append(&first), Ok(()));
    let mut two = StorageUsedShort::new();
    assert_eq!(two.append(&second), Ok(()));
    assert_eq!(one.cells() + two.cells(), both.cells());
    assert_eq!(one.bits() + two.bits(), both.bits());
}

#[test]
fn appending_the_same_root_again_adds_nothing() {
    let root = node(1, 8, &[node(10, 4, &[])]);
    let mut used = StorageUsedShort::new();
    assert_eq!(used.append(&root), Ok(()));
    assert_eq!(used.append(&root), Ok(()));
    assert_eq!((used.cells(), used.bits()), (2, 12));
    let copy = used.clone();
    assert_eq!(copy, used);
    let mut copy = copy;
    assert_eq!(copy.append(&root), Ok(()));
    assert_eq!((copy.cells(), copy.bits()), (2, 12));
}

#[test]
fn append_fails_where_the_count_of_nodes_would_pass_the_bound() {
    let most = 0xff_ffff_ffff_ffff;
    let mut used = StorageUsedShort::with_values_checked(most, 0).unwrap();
    let before = used.clone();
    assert_eq!(used.append(&node(1, 8, &[])), Err(BlockError::IntegerOverflow));
    assert_eq!(used, before);
    assert_eq!((used.cells(), used.bits()), (most, 0));
}

#[test]
fn append_fails_where_the_count_of_bits_would_pass_the_bound() {
    let most = 0xff_ffff_ffff_ffff;
    let mut used = StorageUsedShort::with_values_checked(0, most - 5).unwrap();
    let before = used.clone();
    assert_eq!(used.append(&node(1, 8, &[node(2, 3, &[])])), Err(BlockError::IntegerOverflow));
    assert_eq!(used, before);
    assert_eq!((used.cells(), used.bits()), (0, most - 5));
}

#[test]
fn append_that_fails_below_the_root_changes_nothing() {
    let most = 0xff_ffff_ffff_ffff;
    let mut used = StorageUsedShort::with_values_checked(most - 1, most - 10).unwrap();
    let before = used.clone();
    let root = node(1, 8, &[node(2, 3, &[])]);
    assert_eq!(used.append(&root), Err(BlockError::IntegerOverflow));
    assert_eq!(used, before);
    assert_eq!(used.append(&node(2, 3, &[])), Ok(()));
    assert_eq!((used.cells(), used.bits()), (most, most - 7));
    assert_eq!(used.append(&node(2, 3, &[])), Ok(()));
    assert_eq!((used.cells(), used.bits()), (most, most - 7));
}

#[test]
fn append_reaches_the_bound_and_no_more() {
    let most = 0xff_ffff_ffff_ffff;
    let mut used = StorageUsedShort::with_values_checked(most - 2, most - 11).unwrap();
    assert_eq!(used.append(&node(1, 8, &[node(2, 3, &[])])), Ok(()));
    assert_eq!((used.cells(), used.bits()), (most, most));
    assert_eq!(used.append(&node(3, 2, &[])), Err(BlockError::IntegerOverflow));
    assert_eq!((used.cells(), used.bits()), (most, most));
}

#[test]
fn footprint_of_a_value_counts_its_own_node() {
    let storage = AccountStorage::unint(CurrencyCollection::with_grams(100));
    let used = StorageUsed::calculate_for_struct(&storage).unwrap();
    assert_eq!((used.cells(), used.bits()), (1, 64 + 12 + 1 + 2));
    let short = StorageUsedShort::calculate_for_struct(&storage).unwrap();
    assert_eq!((short.cells(), short.bits()), (1, 79));
}

#[test]
fn uninit_account_has_the_footprint_of_one_node() {
    let addr = MsgAddressInt::with_standart(None, 0, UInt256::new(1, 2));
    let account = Account::uninit(addr, 3, 4, CurrencyCollection::with_grams(100));
    let used = account.storage_info().unwrap().used();
    assert_eq!((used.cells(), used.bits()), (1, 79));
    assert_eq!(account.storage_info().unwrap().used, StorageUsed::with_values_checked(1, 79, StorageExtra::Empty).unwrap());
}

#[test]
fn exact_and_fast_footprint_differ_where_nodes_are_shared() {
    let shared = node(0x55, 8, &[]);
    let mut state = StateInit::default();
    state.set_code(shared.clone());
    state.set_data(shared);
    let addr = MsgAddressInt::with_standart(None, 0, UInt256::new(1, 2));
    let mut account = Account::active_by_init_code_hash(
        addr,
        CurrencyCollection::with_grams(100),
        0,
        state,
        false,
    )
    .unwrap();
    let exact = account.storage_info().unwrap().used;
    assert_eq!((exact.cells(), exact.bits()), (2, 64 + 12 + 1 + 6 + 8));
    account.update_storage_stat_fast().unwrap();
    let fast = account.storage_info().unwrap().used;
    assert_eq!((fast.cells(), fast.bits()), (3, 64 + 12 + 1 + 6 + 16));
    account.update_storage_stat().unwrap();
    assert_eq!(account.storage_info().unwrap().used, exact);
}

#[test]
fn test_account_has_a_counted_footprint() {
    let account = generate_test_account_by_init_code_hash(false);
    let used = account.storage_info().unwrap().used;
    let root = ton_accounts::builder::serialize(account.stuff().unwrap().storage()).unwrap();
    assert_eq!(Ok(used), StorageUsed::calculate_for_cell(&root));
    assert!(used.cells() > 5);
    let mut again = account.clone();
    again.update_storage_stat().unwrap();
    assert_eq!(again, account);
}

#[test]
fn test_account_footprint_is_within_what_its_root_carries() {
    let account = generate_test_account_by_init_code_hash(true);
    let used = account.storage_info().unwrap().used;
    let root = ton_accounts::builder::serialize(account.stuff().unwrap().storage()).unwrap();
    assert!(used.cells() <= root.tree_cell_count());
    assert!(used.bits() <= root.tree_bits_count());
    assert!(root.tree_cell_count() <= 1 + 4 * 300);
    assert!(used.cells() > 0 && used.bits() > 0);
}
