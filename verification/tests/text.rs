use ton_accounts::accounts::{Account, AccountState, AccountStorage};
use ton_accounts::cell::UInt256;
use ton_accounts::currency::CurrencyCollection;
use ton_accounts::messages::{MsgAddressInt, StateInit};
use ton_accounts::storage::{StorageExtra, StorageInfo, StorageUsed, StorageUsedShort};
use ton_accounts::types::Grams;

const HASH: &str = "000000000000000000000000000000ab00000000000000000000000000000cde";

fn hash() -> UInt256 {
    UInt256::new(0xab, 0xcde)
}

#[test]
fn storage_extra_as_text() {
    assert_eq!(StorageExtra::Empty.to_string(), "StorageExtra[empty]");
    assert_eq!(
        StorageExtra::Dict { dict_hash: hash() }.to_string(),
        format!("StorageExtra[ dict_hash = {} ]", HASH)
    );
}

#[test]
fn storage_used_as_text() {
    let used = StorageUsed::with_values_checked(0, 1234567890123, StorageExtra::Empty).unwrap();
    assert_eq!(
        used.to_string(),
        "StorageUsed[cells = 0, bits = 1234567890123, extra = StorageExtra[empty]]"
    );
    let short = StorageUsedShort::with_values_checked(10, 909).unwrap();
    assert_eq!(short.to_string(), "StorageUsed[cells = 10, bits = 909]");
}

#[test]
fn storage_info_as_text() {
    let info = StorageInfo::with_values(123456789, Some(Grams::from_u64(111)));
    assert_eq!(
        info.to_string(),
        "StorageInfo[\r\nlast_paid = 123456789, \r\ndue_payment = Some(111)]"
    );
    assert_eq!(
        StorageInfo::default().to_string(),
        "StorageInfo[\r\nlast_paid = 0, \r\ndue_payment = None]"
    );
}

#[test]
fn balance_as_text() {
    assert_eq!(CurrencyCollection::with_grams(100).to_string(), "100");
    let mut balance = CurrencyCollection::with_grams(7);
    balance.set_other(1, 2).unwrap();
    let root = balance.other.root.clone().unwrap().repr_hash();
    assert_eq!(balance.to_string(), format!("7, other: {:032x}{:032x}", root.hi, root.lo));
}

#[test]
fn account_state_as_text() {
    assert_eq!(AccountState::AccountUninit.to_string(), "AccountStorage[AccountUninit]");
    assert_eq!(
        AccountState::AccountFrozen { state_init_hash: hash() }.to_string(),
        format!("AccountStorage[AccountFrozen {{ state_init_hash: {} }}]", HASH)
    );
    let state = StateInit::default();
    let h = state.hash();
    assert_eq!(
        AccountState::AccountActive { state_init: state }.to_string(),
        format!("AccountStorage[AccountActive {{ state_init: {:032x}{:032x} }}]", h.hi, h.lo)
    );
}

#[test]
fn account_as_text() {
    assert_eq!(Account::default().to_string(), "Account[AccountNone]");
    let storage = AccountStorage::unint(CurrencyCollection::with_grams(5));
    assert_eq!(
        storage.to_string(),
        "AccountStorage[last_trans_lt 0, balance 5, account state AccountUninit]"
    );
    let account = Account::with_address_and_ballance(
        &MsgAddressInt::with_standart(None, 0, hash()),
        &CurrencyCollection::with_grams(5),
    );
    assert_eq!(
        account.to_string(),
        format!(
            "Account[Account({}, StorageInfo[\r\nlast_paid = 0, \r\ndue_payment = None], \
             AccountStorage[last_trans_lt 0, balance 5, account state AccountUninit])]",
            HASH
        )
    );
}
