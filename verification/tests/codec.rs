use ton_accounts::accounts::{
    generate_test_account_by_init_code_hash, Account, AccountState, AccountStatus, ShardAccount,
};
use ton_accounts::builder::{BuilderData, Fragment};
use ton_accounts::cell::{Cell, UInt256};
use ton_accounts::currency::CurrencyCollection;
use ton_accounts::error::{BlockError, ErrorKind};
use ton_accounts::messages::{AnycastInfo, MsgAddressInt, StateInit, TickTock};
use ton_accounts::slice::SliceData;
use ton_accounts::storage::{StorageExtra, StorageInfo, StorageUsed, StorageUsedShort};
use ton_accounts::types::{Grams, Number5, VarUInteger7};

fn cell_of_bits(bits: &[bool]) -> Cell {
    let mut b = BuilderData::new();
    for bit in bits {
        b.append_bit_bool(*bit).unwrap();
    }
    b.into_cell()
}

fn bits_of(f: &Fragment) -> String {
    f.bits.iter().map(|b| if *b { '1' } else { '0' }).collect()
}

fn leaf(value: u128, bits: usize) -> Cell {
    let mut b = BuilderData::new();
    b.append_bits(value, bits).unwrap();
    b.into_cell()
}

fn address() -> MsgAddressInt {
    MsgAddressInt::with_standart(None, -1, UInt256::new(0x11, 0x22))
}

fn read_back(account: &Account) -> Account {
    Account::construct_from_cell(account.serialize().unwrap()).unwrap()
}

#[test]
fn var_uint7_is_written_behind_its_byte_count() {
    let mut f = Fragment::new();
    VarUInteger7::new(0).unwrap().encode(&mut f);
    assert_eq!(bits_of(&f), "000");
    let mut f = Fragment::new();
    VarUInteger7::new(1).unwrap().encode(&mut f);
    assert_eq!(bits_of(&f), "00100000001");
    let mut f = Fragment::new();
    VarUInteger7::new(0x1ff).unwrap().encode(&mut f);
    assert_eq!(bits_of(&f), "0100000000111111111");
    let mut f = Fragment::new();
    VarUInteger7::new(0xff_ffff_ffff_ffff).unwrap().encode(&mut f);
    assert_eq!(f.bits.len(), 3 + 56);
    assert!(f.bits.iter().all(|b| *b));
}

#[test]
fn var_uint7_refuses_eight_bytes() {
    assert_eq!(VarUInteger7::new(0x100_0000_0000_0000), Err(BlockError::IntegerOverflow));
    assert_eq!(VarUInteger7::new(0xff_ffff_ffff_ffff).unwrap().as_u64(), 0xff_ffff_ffff_ffff);
}

#[test]
fn var_uint7_add_checked_stops_at_the_bound() {
    let mut v = VarUInteger7::new(0xff_ffff_ffff_fffe).unwrap();
    assert!(v.add_checked(1));
    assert_eq!(v.as_u64(), 0xff_ffff_ffff_ffff);
    assert!(!v.add_checked(1));
    assert_eq!(v.as_u64(), 0xff_ffff_ffff_ffff);
    assert!(!v.add_checked(u64::MAX));
    assert!(v.add_checked(0));
}

#[test]
fn grams_are_written_behind_a_four_bit_count() {
    let mut f = Fragment::new();
    Grams::from_u64(100).encode(&mut f);
    assert_eq!(bits_of(&f), "000101100100");
    assert_eq!(Grams::new(1 << 120), Err(BlockError::IntegerOverflow));
    assert_eq!(Grams::new((1 << 120) - 1).unwrap().as_u128(), (1 << 120) - 1);
}

#[test]
fn grams_read_back() {
    for value in [0u128, 1, 255, 256, 100_000_000_000, (1 << 120) - 1] {
        let g = Grams::new(value).unwrap();
        let mut f = Fragment::new();
        g.encode(&mut f);
        let mut b = BuilderData::new();
        b.append_fragment(&f).unwrap();
        let mut s = SliceData::load_cell(b.into_cell()).unwrap();
        assert_eq!(Grams::construct_from(&mut s), Ok(g));
        assert_eq!(s.remaining_bits(), 0);
    }
}

#[test]
fn account_status_has_two_bits() {
    for (status, bits) in [
        (AccountStatus::AccStateUninit, "00"),
        (AccountStatus::AccStateFrozen, "01"),
        (AccountStatus::AccStateActive, "10"),
        (AccountStatus::AccStateNonexist, "11"),
    ] {
        let mut f = Fragment::new();
        status.encode(&mut f);
        assert_eq!(bits_of(&f), bits);
        let mut b = BuilderData::new();
        status.write_to(&mut b).unwrap();
        let mut s = SliceData::load_cell(b.into_cell()).unwrap();
        assert_eq!(AccountStatus::construct_from(&mut s), Ok(status));
    }
}

#[test]
fn account_state_is_a_prefix_code() {
    let mut f = Fragment::new();
    AccountState::AccountUninit.encode(&mut f);
    assert_eq!(bits_of(&f), "00");
    let mut f = Fragment::new();
    AccountState::AccountFrozen { state_init_hash: UInt256::new(0, 1) }.encode(&mut f);
    assert_eq!(f.bits.len(), 2 + 256);
    assert_eq!(&bits_of(&f)[..2], "01");
    assert!(f.bits[257]);
    let mut f = Fragment::new();
    AccountState::AccountActive { state_init: StateInit::default() }.encode(&mut f);
    assert_eq!(bits_of(&f), "100000");
}

#[test]
fn storage_used_ends_with_a_three_bit_tag() {
    let used = StorageUsed::with_values_checked(1, 2, StorageExtra::Empty).unwrap();
    let mut f = Fragment::new();
    used.encode(&mut f);
    assert_eq!(bits_of(&f), "0010000000100100000010000");
    let h = UInt256::new(5, 6);
    let used = StorageUsed::with_values_checked(1, 2, StorageExtra::Dict { dict_hash: h }).unwrap();
    let mut f = Fragment::new();
    used.encode(&mut f);
    assert_eq!(f.bits.len(), 22 + 3 + 256);
    assert_eq!(&bits_of(&f)[22..25], "001");
    let mut b = BuilderData::new();
    used.write_to(&mut b).unwrap();
    let mut s = SliceData::load_cell(b.into_cell()).unwrap();
    assert_eq!(StorageUsed::construct_from(&mut s), Ok(used));
    assert_eq!(used.extra(), Some(&h));
}

#[test]
fn storage_used_with_extra_tag_111_is_refused() {
    let mut b = BuilderData::new();
    b.append_bits(0, 3).unwrap();
    b.append_bits(0, 3).unwrap();
    b.append_bits(0b111, 3).unwrap();
    let mut s = SliceData::load_cell(b.into_cell()).unwrap();
    let r = StorageUsed::construct_from(&mut s);
    assert_eq!(r, Err(BlockError::InvalidConstructorTag { tag: 7 }));
    assert_eq!(r.unwrap_err().kind(), ErrorKind::MalformedInput);
    for tag in 2..8u128 {
        let mut b = BuilderData::new();
        b.append_bits(tag, 3).unwrap();
        let mut s = SliceData::load_cell(b.into_cell()).unwrap();
        assert_eq!(
            StorageExtra::construct_from(&mut s),
            Err(BlockError::InvalidConstructorTag { tag: tag as u32 })
        );
    }
}

#[test]
fn account_with_top_level_tag_010_is_refused() {
    let c = cell_of_bits(&[false, false, true, false, true, true, true, true]);
    let r = Account::construct_from_cell(c);
    assert_eq!(r, Err(BlockError::InvalidConstructorTag { tag: 2 }));
    for tag in 2..8u128 {
        let mut b = BuilderData::new();
        b.append_bit_zero().unwrap();
        b.append_bits(tag, 3).unwrap();
        assert_eq!(
            Account::construct_from_cell(b.into_cell()),
            Err(BlockError::InvalidConstructorTag { tag: tag as u32 })
        );
    }
}

#[test]
fn no_account_is_one_zero_bit_or_tag_000() {
    let none = Account::default();
    let c = none.serialize().unwrap();
    assert_eq!(c.bit_length(), 1);
    assert_eq!(Account::construct_from_cell(c), Ok(Account::AccountNone));
    assert_eq!(
        Account::construct_from_cell(cell_of_bits(&[false, false, false, false])),
        Ok(Account::AccountNone)
    );
    assert_eq!(
        Account::construct_from_cell(cell_of_bits(&[false, false])),
        Err(BlockError::CellUnderflow)
    );
    assert_eq!(Account::construct_from_cell(cell_of_bits(&[])), Err(BlockError::CellUnderflow));
}

#[test]
fn uninit_account_reads_back_in_the_original_layout() {
    let account = Account::uninit(address(), 5, 6, CurrencyCollection::with_grams(100));
    let c = account.serialize().unwrap();
    assert_eq!(c.data()[0], true);
    assert_eq!(read_back(&account), account);
}

#[test]
fn frozen_account_reads_back() {
    let account = Account::frozen(
        address(),
        77,
        88,
        UInt256::new(0xaaaa, 0xbbbb),
        Some(Grams::from_u64(9)),
        CurrencyCollection::with_grams(12345),
    );
    assert_eq!(read_back(&account), account);
    assert_eq!(account.frozen_hash(), Some(&UInt256::new(0xaaaa, 0xbbbb)));
    assert_eq!(account.status(), AccountStatus::AccStateFrozen);
}

#[test]
fn active_account_reads_back_in_both_layouts() {
    let plain = generate_test_account_by_init_code_hash(false);
    let c = plain.serialize().unwrap();
    assert_eq!(c.data()[0], true);
    assert_eq!(plain.init_code_hash(), None);
    assert_eq!(read_back(&plain), plain);

    let pinned = generate_test_account_by_init_code_hash(true);
    let c = pinned.serialize().unwrap();
    assert_eq!(&c.data()[..4], &[false, false, false, true]);
    assert_eq!(pinned.init_code_hash(), Some(&pinned.get_code_hash().unwrap()));
    assert_eq!(read_back(&pinned), pinned);
    assert_ne!(plain, pinned);
}

#[test]
fn original_format_leaves_the_pinned_hash_out() {
    let pinned = generate_test_account_by_init_code_hash(true);
    let mut b = BuilderData::new();
    pinned.write_original_format(&mut b).unwrap();
    let read = Account::construct_from_cell(b.into_cell()).unwrap();
    assert_eq!(read.init_code_hash(), None);
    let mut expected = generate_test_account_by_init_code_hash(false);
    assert_eq!(read.state_init(), expected.state_init());
    expected.update_storage_stat().unwrap();
    assert_eq!(read.balance(), expected.balance());
}

#[test]
fn extended_layout_may_hold_no_pinned_hash() {
    let account = Account::uninit(address(), 5, 6, CurrencyCollection::with_grams(100));
    let mut b = BuilderData::new();
    b.append_bits(1, 4).unwrap();
    account.stuff().unwrap().write_to(&mut b).unwrap();
    b.append_bit_zero().unwrap();
    assert_eq!(Account::construct_from_cell(b.into_cell()), Ok(account));
}

#[test]
fn truncated_account_is_refused() {
    let account = Account::uninit(address(), 5, 6, CurrencyCollection::with_grams(100));
    let c = account.serialize().unwrap();
    let bits: Vec<bool> = c.data().iter().cloned().take(c.bit_length() - 1).collect();
    assert_eq!(Account::construct_from_cell(cell_of_bits(&bits)), Err(BlockError::CellUnderflow));
}

#[test]
fn address_reads_back_with_and_without_anycast() {
    let anycast = AnycastInfo::new(24, 0x983217).unwrap();
    for addr in [
        MsgAddressInt::with_standart(None, 0, UInt256::new(1, 2)),
        MsgAddressInt::with_standart(None, -128, UInt256::new(u128::MAX, 0)),
        MsgAddressInt::with_standart(Some(anycast), 127, UInt256::new(3, 4)),
    ] {
        let mut b = BuilderData::new();
        addr.write_to(&mut b).unwrap();
        let c = b.into_cell();
        assert_eq!(&c.data()[..2], &[true, false]);
        let mut s = SliceData::load_cell(c).unwrap();
        assert_eq!(MsgAddressInt::construct_from(&mut s), Ok(addr));
    }
}

#[test]
fn address_with_another_tag_is_refused() {
    for tag in [0u128, 1, 3] {
        let mut b = BuilderData::new();
        b.append_bits(tag, 2).unwrap();
        b.append_bits(0, 128).unwrap();
        let mut s = SliceData::load_cell(b.into_cell()).unwrap();
        assert_eq!(
            MsgAddressInt::construct_from(&mut s),
            Err(BlockError::InvalidConstructorTag { tag: tag as u32 })
        );
    }
}

#[test]
fn anycast_prefix_is_between_1_and_30_bits() {
    assert_eq!(AnycastInfo::new(0, 0), Err(BlockError::InvalidData));
    assert_eq!(AnycastInfo::new(31, 0), Err(BlockError::InvalidData));
    assert_eq!(AnycastInfo::new(3, 8), Err(BlockError::InvalidData));
    let a = AnycastInfo::new(3, 7).unwrap();
    assert_eq!((a.depth(), a.rewrite_pfx()), (3, 7));
    let mut b = BuilderData::new();
    b.append_bits(0b10, 2).unwrap();
    b.append_bit_one().unwrap();
    b.append_bits(0, 5).unwrap();
    b.append_bits(0, 128).unwrap();
    let mut s = SliceData::load_cell(b.into_cell()).unwrap();
    assert_eq!(MsgAddressInt::construct_from(&mut s), Err(BlockError::InvalidData));
}

#[test]
fn state_init_reads_back() {
    let mut s = StateInit::default();
    s.set_split_depth(Number5::new(23).unwrap());
    s.set_special(TickTock::with_values(false, true));
    s.set_code(leaf(1, 8));
    s.set_data(leaf(2, 8));
    let mut f = Fragment::new();
    s.encode(&mut f);
    assert_eq!(bits_of(&f), "110111101110");
    assert_eq!(f.refs.len(), 2);
    let mut slice = SliceData::load_cell(s.serialize()).unwrap();
    assert_eq!(StateInit::construct_from(&mut slice), Ok(s));
    assert_eq!(Number5::new(32), Err(BlockError::IntegerOverflow));
}

#[test]
fn storage_info_reads_back() {
    let mut info = StorageInfo::with_values(123456789, Some(Grams::from_u64(111)));
    info.used = StorageUsed::with_values_checked(7, 9000, StorageExtra::Empty).unwrap();
    let mut b = BuilderData::new();
    info.write_to(&mut b).unwrap();
    let mut s = SliceData::load_cell(b.into_cell()).unwrap();
    let mut read = StorageInfo::default();
    read.read_from(&mut s).unwrap();
    assert_eq!(read, info);
    assert_eq!(read.last_paid(), 123456789);
    assert_eq!(read.due_payment(), Some(&Grams::from_u64(111)));
    assert_eq!(read.used().cells(), 7);
    assert_eq!(read.used().bits(), 9000);
}

#[test]
fn storage_used_short_has_two_counts() {
    let used = StorageUsedShort::with_values_checked(3, 500).unwrap();
    let mut b = BuilderData::new();
    used.write_to(&mut b).unwrap();
    let c = b.into_cell();
    assert_eq!(c.bit_length(), 3 + 8 + 3 + 16);
    let mut s = SliceData::load_cell(c).unwrap();
    let read = StorageUsedShort::construct_from(&mut s).unwrap();
    assert_eq!(read, used);
    assert_eq!((read.cells(), read.bits()), (3, 500));
    assert!(matches!(
        StorageUsedShort::with_values_checked(1 << 56, 0),
        Err(BlockError::IntegerOverflow)
    ));
}

#[test]
fn shard_account_keeps_the_account_as_a_child() {
    let account = generate_test_account_by_init_code_hash(true);
    let h = UInt256::new(0x1234, 0x5678);
    let entry = ShardAccount::with_params(&account, h, 42).unwrap();
    let mut b = BuilderData::new();
    entry.write_to(&mut b).unwrap();
    let c = b.into_cell();
    assert_eq!(c.bit_length(), 256 + 64);
    assert_eq!(c.references_count(), 1);
    assert_eq!(c.reference(0), Some(account.serialize().unwrap()));
    let mut s = SliceData::load_cell(c).unwrap();
    let read = ShardAccount::construct_from(&mut s).unwrap();
    assert_eq!(read, entry);
    assert_eq!(read.read_account(), Ok(account));
    assert_eq!(read.last_trans_hash(), &h);
    assert_eq!(read.last_trans_lt(), 42);
}

#[test]
fn error_kinds_tell_malformed_from_refused_from_absent() {
    assert_eq!(BlockError::CellUnderflow.kind(), ErrorKind::MalformedInput);
    assert_eq!(BlockError::CellOverflow.kind(), ErrorKind::MalformedInput);
    assert_eq!(BlockError::InvalidConstructorTag { tag: 2 }.kind(), ErrorKind::MalformedInput);
    assert_eq!(BlockError::IntegerOverflow.kind(), ErrorKind::MalformedInput);
    assert_eq!(BlockError::InvalidData.kind(), ErrorKind::MalformedInput);
    assert_eq!(BlockError::PrunedCellAccess.kind(), ErrorKind::MalformedInput);
    assert_eq!(BlockError::HashMismatch.kind(), ErrorKind::PolicyViolation);
    assert_eq!(BlockError::NotFound.kind(), ErrorKind::NotFound);
    assert_eq!(BlockError::AccountIsNone.kind(), ErrorKind::PreconditionViolation);
    assert_eq!(BlockError::InvalidArg.kind(), ErrorKind::PreconditionViolation);
}

#[test]
fn an_account_longer_than_one_node_is_not_written() {
    let most = (1u128 << 120) - 1;
    let mut account = Account::frozen(
        MsgAddressInt::with_standart(Some(AnycastInfo::new(30, 1).unwrap()), 0, UInt256::new(1, 2)),
        u64::MAX,
        u32::MAX,
        UInt256::new(3, 4),
        Some(Grams::new(most).unwrap()),
        CurrencyCollection::from_grams(Grams::new(most).unwrap()),
    );
    account.set_init_code_hash(UInt256::new(5, 6));
    assert_eq!(account.serialize(), Err(BlockError::CellOverflow));
    let mut b = BuilderData::new();
    assert_eq!(account.write_to(&mut b), Err(BlockError::CellOverflow));
    assert_eq!(b.length_in_bits(), 0);
    assert!(matches!(
        ShardAccount::with_params(&account, UInt256::new(0, 0), 0),
        Err(BlockError::CellOverflow)
    ));
    assert_eq!(account.update_storage_stat(), Ok(()));
    let used = account.storage_info().unwrap().used;
    assert_eq!((used.cells(), used.bits()), (1, 64 + 124 + 1 + 258 + 257));
    let mut short = BuilderData::new();
    short.append_bits(0, 128).unwrap();
    let mut plain = Account::uninit(address(), 1, 2, CurrencyCollection::with_grams(3));
    plain.set_last_paid(9);
    for _ in 0..6 {
        short.append_bits(0, 100).unwrap();
    }
    assert_eq!(plain.write_to(&mut short), Err(BlockError::CellOverflow));
    assert_eq!(short.length_in_bits(), 728);
}

#[test]
fn frozen_checked_gives_the_frozen_account() {
    let checked = Account::frozen_checked(
        address(),
        77,
        88,
        UInt256::new(0xaaaa, 0xbbbb),
        Some(Grams::from_u64(9)),
        CurrencyCollection::with_grams(12345),
    );
    let plain = Account::frozen(
        address(),
        77,
        88,
        UInt256::new(0xaaaa, 0xbbbb),
        Some(Grams::from_u64(9)),
        CurrencyCollection::with_grams(12345),
    );
    assert_eq!(checked, Ok(plain.clone()));
    let used = plain.storage_info().unwrap().used;
    assert_eq!(used.cells(), 1);
    assert_eq!(read_back(&plain), plain);
}
