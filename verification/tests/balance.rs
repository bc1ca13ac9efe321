use ton_accounts::accounts::{generate_test_account_by_init_code_hash, Account};
use ton_accounts::builder::BuilderData;
use ton_accounts::cell::UInt256;
use ton_accounts::currency::{CurrencyCollection, ExtraCurrencyCollection};
use ton_accounts::error::BlockError;
use ton_accounts::messages::MsgAddressInt;
use ton_accounts::types::Grams;

fn account_with(balance: &CurrencyCollection) -> Account {
    let addr = MsgAddressInt::with_standart(None, 0, UInt256::new(0, 7));
    Account::with_address_and_ballance(&addr, balance)
}

fn grams_of(account: &Account) -> u128 {
    account.balance().unwrap().grams.as_u128()
}

fn other_of(balance: &CurrencyCollection, id: u32) -> Option<u128> {
    balance.get_other(id).unwrap().map(|g| g.as_u128())
}

#[test]
fn sub_funds_refuses_more_than_the_balance() {
    let mut account = account_with(&CurrencyCollection::with_grams(100));
    assert_eq!(account.sub_funds(&CurrencyCollection::with_grams(150)), Ok(false));
    assert_eq!(grams_of(&account), 100);
    assert_eq!(account.sub_funds(&CurrencyCollection::with_grams(60)), Ok(true));
    assert_eq!(grams_of(&account), 40);
    assert_eq!(account.sub_funds(&CurrencyCollection::with_grams(40)), Ok(true));
    assert_eq!(grams_of(&account), 0);
    assert_eq!(account.sub_funds(&CurrencyCollection::with_grams(1)), Ok(false));
    assert_eq!(account.sub_funds(&CurrencyCollection::with_grams(0)), Ok(true));
}

#[test]
fn add_funds_adds_and_holds_at_the_largest_amount() {
    let mut account = account_with(&CurrencyCollection::with_grams(100));
    assert_eq!(account.add_funds(&CurrencyCollection::with_grams(23)), Ok(()));
    assert_eq!(grams_of(&account), 123);
    let most = CurrencyCollection::from_grams(Grams::new((1 << 120) - 1).unwrap());
    assert_eq!(account.add_funds(&most), Ok(()));
    assert_eq!(grams_of(&account), (1 << 120) - 1);
    assert_eq!(account.add_funds(&most), Ok(()));
    assert_eq!(grams_of(&account), (1 << 120) - 1);
}

#[test]
fn funds_do_nothing_where_there_is_no_account() {
    let mut none = Account::default();
    assert_eq!(none.add_funds(&CurrencyCollection::with_grams(5)), Ok(()));
    assert_eq!(none.sub_funds(&CurrencyCollection::with_grams(0)), Ok(false));
    assert_eq!(none, Account::AccountNone);
    assert_eq!(none.balance(), None);
    assert_eq!(none.balance_checked(), CurrencyCollection::default());
}

#[test]
fn extra_currencies_are_set_and_found() {
    let mut balance = CurrencyCollection::with_grams(1);
    assert_eq!(other_of(&balance, 1), None);
    balance.set_other(1, 100).unwrap();
    balance.set_other(0xffff_ffff, 7).unwrap();
    balance.set_other(2, 200).unwrap();
    balance.set_other(1, 150).unwrap();
    assert_eq!(other_of(&balance, 1), Some(150));
    assert_eq!(other_of(&balance, 2), Some(200));
    assert_eq!(other_of(&balance, 0xffff_ffff), Some(7));
    assert_eq!(other_of(&balance, 3), None);
    assert_eq!(balance.set_other(3, 1 << 120), Err(BlockError::IntegerOverflow));
    assert_eq!(other_of(&balance, 3), None);
}

#[test]
fn add_merges_extra_currencies() {
    let mut a = CurrencyCollection::with_grams(10);
    a.set_other(1, 100).unwrap();
    a.set_other(2, 200).unwrap();
    let mut b = CurrencyCollection::with_grams(5);
    b.set_other(2, 22).unwrap();
    b.set_other(3, 33).unwrap();
    b.set_other(4, (1 << 120) - 1).unwrap();
    a.add(&b).unwrap();
    assert_eq!(a.grams.as_u128(), 15);
    assert_eq!(other_of(&a, 1), Some(100));
    assert_eq!(other_of(&a, 2), Some(222));
    assert_eq!(other_of(&a, 3), Some(33));
    assert_eq!(other_of(&a, 4), Some((1 << 120) - 1));
    a.add(&b).unwrap();
    assert_eq!(other_of(&a, 4), Some((1 << 120) - 1));
    assert_eq!(other_of(&a, 3), Some(66));
    assert_eq!(other_of(&a, 5), None);
}

#[test]
fn sub_takes_extra_currencies_only_where_all_are_there() {
    let mut a = CurrencyCollection::with_grams(10);
    a.set_other(1, 100).unwrap();
    a.set_other(2, 200).unwrap();
    let mut b = CurrencyCollection::with_grams(5);
    b.set_other(2, 50).unwrap();
    assert_eq!(a.sub(&b), Ok(true));
    assert_eq!(a.grams.as_u128(), 5);
    assert_eq!(other_of(&a, 1), Some(100));
    assert_eq!(other_of(&a, 2), Some(150));

    let mut too_much = CurrencyCollection::with_grams(1);
    too_much.set_other(1, 101).unwrap();
    let before = a.clone();
    assert_eq!(a.sub(&too_much), Ok(false));
    assert_eq!(a, before);

    let mut missing = CurrencyCollection::with_grams(1);
    missing.set_other(9, 0).unwrap();
    assert_eq!(a.sub(&missing), Ok(false));
    assert_eq!(a, before);

    let mut all = CurrencyCollection::with_grams(5);
    all.set_other(1, 100).unwrap();
    all.set_other(2, 150).unwrap();
    assert_eq!(a.sub(&all), Ok(true));
    assert_eq!(a.grams.as_u128(), 0);
    assert_eq!(other_of(&a, 1), Some(0));
    assert_eq!(other_of(&a, 2), Some(0));
}

#[test]
fn sub_leaves_native_amount_where_an_extra_currency_is_short() {
    let mut balance = CurrencyCollection::with_grams(100);
    balance.set_other(1, 5).unwrap();
    let mut account = account_with(&balance);
    let mut ask = CurrencyCollection::with_grams(60);
    ask.set_other(1, 6).unwrap();
    assert_eq!(account.sub_funds(&ask), Ok(false));
    assert_eq!(grams_of(&account), 100);
    assert_eq!(other_of(account.balance().unwrap(), 1), Some(5));
}

#[test]
fn a_dictionary_that_cannot_be_read_is_an_error() {
    let mut bad = BuilderData::new();
    bad.append_bit_one().unwrap();
    let broken = ExtraCurrencyCollection::with_root(bad.into_cell());
    let mut a = CurrencyCollection::with_grams(10);
    a.set_other(1, 100).unwrap();
    let before = a.clone();
    let ask = CurrencyCollection { grams: Grams::from_u64(1), other: broken };
    assert_eq!(a.add(&ask), Err(BlockError::CellUnderflow));
    assert_eq!(a, before);
    assert_eq!(a.sub(&ask), Err(BlockError::CellUnderflow));
    assert_eq!(a, before);
    assert_eq!(ask.get_other(1), Err(BlockError::CellUnderflow));
}

#[test]
fn test_account_holds_its_seven_extra_currencies() {
    let account = generate_test_account_by_init_code_hash(false);
    let balance = account.balance().unwrap();
    assert_eq!(balance.grams.as_u128(), 100_000_000_000);
    for id in 1..=6u32 {
        assert_eq!(other_of(balance, id), Some(id as u128 * 100));
    }
    assert_eq!(other_of(balance, 7), Some(10_000_100));
    assert_eq!(other_of(balance, 8), None);
    assert_eq!(other_of(balance, 0), None);
}

#[test]
fn taking_sixty_from_a_hundred_leaves_a_balance_of_forty() {
    let mut account = account_with(&CurrencyCollection::with_grams(100));
    assert_eq!(account.sub_funds(&CurrencyCollection::with_grams(60)), Ok(true));
    assert_eq!(account.balance(), Some(&CurrencyCollection::with_grams(40)));
    let mut balance = CurrencyCollection::with_grams(100);
    assert_eq!(balance.sub(&CurrencyCollection::with_grams(60)), Ok(true));
    assert_eq!(balance, CurrencyCollection::with_grams(40));
}

#[test]
fn funds_without_extra_currencies_leave_those_of_the_balance() {
    let mut balance = CurrencyCollection::with_grams(100);
    balance.set_other(3, 30).unwrap();
    balance.set_other(9, 90).unwrap();
    let extra = balance.other.clone();
    let mut account = account_with(&balance);
    assert_eq!(account.add_funds(&CurrencyCollection::with_grams(5)), Ok(()));
    assert_eq!(account.balance().unwrap().other, extra);
    assert_eq!(account.sub_funds(&CurrencyCollection::with_grams(50)), Ok(true));
    assert_eq!(account.balance().unwrap().other, extra);
    assert_eq!(grams_of(&account), 55);
    assert_eq!(account.sub_funds(&CurrencyCollection::with_grams(56)), Ok(false));
    assert_eq!(account.balance().unwrap().other, extra);
    let mut plain = CurrencyCollection::with_grams(1);
    assert_eq!(plain.add(&balance), Ok(()));
    assert_eq!(plain.other, extra);
    assert_eq!(plain.grams.as_u128(), 101);
}

#[test]
fn a_first_extra_currency_is_a_path_of_thirty_three_nodes() {
    let mut balance = CurrencyCollection::with_grams(1);
    balance.set_other(3, 30).unwrap();
    let root = balance.other.root.clone().unwrap();
    assert_eq!(root.tree_cell_count(), 33);
    assert_eq!(root.tree_bits_count(), 32 * 2 + 4 + 8);
    balance.set_other(3, 31).unwrap();
    let root = balance.other.root.clone().unwrap();
    assert_eq!(root.tree_cell_count(), 33);
    balance.set_other(2, 1 << 119).unwrap();
    let root = balance.other.root.clone().unwrap();
    assert!(root.tree_cell_count() <= 66);
    assert_eq!(root.tree_cell_count(), 32 + 2);
    assert!(root.tree_bits_count() <= 2 * 188);
}
