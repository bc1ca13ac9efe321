use ton_accounts::accounts::{generate_test_account_by_init_code_hash, Account};
use ton_accounts::builder::BuilderData;
use ton_accounts::cell::{Cell, UInt256};
use ton_accounts::messages::{SimpleLib, StateInitLib};

fn leaf(value: u128, bits: usize) -> Cell {
    let mut b = BuilderData::new();
    b.append_bits(value, bits).unwrap();
    b.into_cell()
}

#[test]
fn test_account_has_its_public_library() {
    let account = generate_test_account_by_init_code_hash(false);
    let code = leaf(0x07ff_ffff_ffff_fffe, 61);
    let libraries = account.libraries();
    assert_eq!(libraries.get(&code.repr_hash()), Ok(Some(SimpleLib::new(code, true))));
    assert_eq!(libraries.get(&UInt256::new(0, 0)), Ok(None));
}

#[test]
fn set_library_puts_the_code_under_its_hash() {
    let mut account = generate_test_account_by_init_code_hash(false);
    let code = leaf(0xbeef, 16);
    assert!(account.set_library(code.clone(), false));
    let libraries = account.libraries();
    assert_eq!(libraries.get(&code.repr_hash()), Ok(Some(SimpleLib::new(code.clone(), false))));
    let first = leaf(0x07ff_ffff_ffff_fffe, 61);
    assert_eq!(libraries.get(&first.repr_hash()), Ok(Some(SimpleLib::new(first, true))));
    assert!(!Account::default().set_library(code, true));
}

#[test]
fn set_library_flag_changes_the_flag_of_a_library_that_is_there() {
    let mut account = generate_test_account_by_init_code_hash(false);
    let code = leaf(0x07ff_ffff_ffff_fffe, 61);
    let before = account.clone();
    assert!(account.set_library_flag(&code.repr_hash(), true));
    assert_eq!(account, before);
    assert!(account.set_library_flag(&code.repr_hash(), false));
    assert_eq!(account.libraries().get(&code.repr_hash()), Ok(Some(SimpleLib::new(code, false))));
    let after = account.clone();
    assert!(!account.set_library_flag(&UInt256::new(1, 1), true));
    assert_eq!(account, after);
    assert!(!Account::default().set_library_flag(&UInt256::new(1, 1), true));
}

#[test]
fn delete_library_takes_the_library_away() {
    let mut account = generate_test_account_by_init_code_hash(false);
    let code = leaf(0x07ff_ffff_ffff_fffe, 61);
    assert!(account.delete_library(&UInt256::new(1, 1)));
    assert!(account.libraries().get(&code.repr_hash()).unwrap().is_some());
    assert!(account.delete_library(&code.repr_hash()));
    assert_eq!(account.libraries(), StateInitLib::default());
    assert!(account.libraries().is_empty());
    let mut frozen = generate_test_account_by_init_code_hash(false);
    frozen.freeze_account();
    assert!(!frozen.delete_library(&code.repr_hash()));
    assert_eq!(frozen.libraries(), StateInitLib::default());
}
