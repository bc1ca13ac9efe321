use ton_accounts::accounts::{generate_test_account_by_init_code_hash, Account, ShardAccount};
use ton_accounts::builder::BuilderData;
use ton_accounts::cell::{Cell, UInt256};
use ton_accounts::currency::CurrencyCollection;
use ton_accounts::dict;
use ton_accounts::error::{BlockError, ErrorKind};
use ton_accounts::merkle::{prune, MerkleProof, UsageTree};
use ton_accounts::messages::{MsgAddressInt, StateInit};
use ton_accounts::shard::{ShardAccounts, ShardIdent, ShardStateUnsplit};
use ton_accounts::slice::SliceData;

fn leaf(value: u128, bits: usize) -> Cell {
    let mut b = BuilderData::new();
    b.append_bits(value, bits).unwrap();
    b.into_cell()
}

fn account(id: UInt256, grams: u64, code: u128) -> Account {
    let mut state = StateInit::default();
    state.set_code(leaf(code, 64));
    state.set_data(leaf(code + 1, 64));
    Account::active_by_init_code_hash(
        MsgAddressInt::with_standart(None, 0, id),
        CurrencyCollection::with_grams(grams),
        0,
        state,
        false,
    )
    .unwrap()
}

fn id_a() -> UInt256 {
    UInt256::new(0x1111 << 112, 1)
}

fn id_b() -> UInt256 {
    UInt256::new(0x9999 << 112, 2)
}

fn state_with(accounts: &[&Account]) -> Cell {
    let mut state = ShardStateUnsplit::with_ident(ShardIdent::full(0));
    for (i, a) in accounts.iter().enumerate() {
        let entry = ShardAccount::with_params(a, UInt256::new(7, i as u128), 100 + i as u64).unwrap();
        state.accounts.insert(&a.get_id().unwrap(), &entry).unwrap();
    }
    state.serialize()
}

#[test]
fn dictionary_finds_what_was_set() {
    let k1 = dict::hash_key_bits(&UInt256::new(1, 1));
    let k2 = dict::hash_key_bits(&UInt256::new(1, 2));
    let k3 = dict::hash_key_bits(&UInt256::new(u128::MAX, 0));
    let root = dict::set(&None, &k1, leaf(1, 8)).unwrap();
    let root = dict::set(&root, &k2, leaf(2, 8)).unwrap();
    assert_eq!(dict::get(&root, &k1), Ok(Some(leaf(1, 8))));
    assert_eq!(dict::get(&root, &k2), Ok(Some(leaf(2, 8))));
    assert_eq!(dict::get(&root, &k3), Ok(None));
    let root = dict::set(&root, &k1, leaf(3, 8)).unwrap();
    assert_eq!(dict::get(&root, &k1), Ok(Some(leaf(3, 8))));
    assert_eq!(dict::get(&root, &k2), Ok(Some(leaf(2, 8))));
    let root = dict::remove(&root, &k1).unwrap();
    assert_eq!(dict::get(&root, &k1), Ok(None));
    assert_eq!(dict::get(&root, &k2), Ok(Some(leaf(2, 8))));
    let root = dict::remove(&root, &k3).unwrap();
    let root = dict::remove(&root, &k2).unwrap();
    assert_eq!(root, None);
    assert_eq!(dict::get(&None, &k1), Ok(None));
}

#[test]
fn dictionary_with_a_broken_node_is_an_error() {
    let key = dict::hash_key_bits(&UInt256::new(0, 0));
    let broken = Some(leaf(1, 1));
    assert_eq!(dict::get(&broken, &key), Err(BlockError::CellUnderflow));
    assert_eq!(dict::set(&broken, &key, leaf(1, 1)), Err(BlockError::CellUnderflow));
    assert_eq!(dict::remove(&broken, &key), Err(BlockError::CellUnderflow));
    let lacks_child = Some(leaf(0b10, 2));
    assert_eq!(dict::get(&lacks_child, &key), Err(BlockError::CellUnderflow));
    let placeholder = Some(Cell::pruned_branch(UInt256::new(3, 3), 1));
    assert_eq!(dict::get(&placeholder, &key), Err(BlockError::PrunedCellAccess));
}

#[test]
fn shard_accounts_find_each_account() {
    let a = account(id_a(), 500, 1);
    let b = account(id_b(), 700, 2);
    let mut accounts = ShardAccounts::default();
    let ea = ShardAccount::with_params(&a, UInt256::new(1, 1), 10).unwrap();
    let eb = ShardAccount::with_params(&b, UInt256::new(2, 2), 20).unwrap();
    accounts.insert(&id_a(), &ea).unwrap();
    accounts.insert(&id_b(), &eb).unwrap();
    assert_eq!(accounts.get(&id_a()), Ok(Some(ea)));
    assert_eq!(accounts.get(&id_b()).unwrap().unwrap().read_account(), Ok(b));
    assert_eq!(accounts.get(&UInt256::new(5, 5)), Ok(None));
}

#[test]
fn shard_state_reads_back() {
    let a = account(id_a(), 500, 1);
    let mut state = ShardStateUnsplit::with_ident(ShardIdent::with_prefix(-1, 3, 0b101).unwrap());
    state.accounts.insert(&id_a(), &ShardAccount::with_params(&a, UInt256::new(1, 1), 10).unwrap()).unwrap();
    let c = state.serialize();
    assert_eq!(c.bit_length(), 32 + 32 + 6 + 64 + 1);
    let mut s = SliceData::load_cell(c).unwrap();
    assert_eq!(ShardStateUnsplit::construct_from(&mut s), Ok(state));
    let mut s = SliceData::load_cell(leaf(0x12345678, 32)).unwrap();
    assert_eq!(
        ShardStateUnsplit::construct_from(&mut s),
        Err(BlockError::InvalidConstructorTag { tag: 0x12345678 })
    );
}

#[test]
fn proof_has_the_hash_of_the_state_and_hides_the_other_account() {
    let a = account(id_a(), 500, 1);
    let b = account(id_b(), 700, 2);
    let root = state_with(&[&a, &b]);

    let proof_cell = a.prepare_proof(&root).unwrap();
    let proof = MerkleProof::construct_from_cell(proof_cell.clone()).unwrap();
    assert_eq!(proof.hash, root.repr_hash());
    assert_eq!(proof.proof.repr_hash(), root.repr_hash());
    assert_eq!(proof.proof.recomputed_hash(), root.repr_hash());
    assert_eq!(proof.proof.repr_depth(), root.repr_depth());
    assert_eq!(proof_cell.reference(0), Some(proof.proof.clone()));

    let mut slice = SliceData::load_cell(proof.proof.clone()).unwrap();
    let pruned_state = ShardStateUnsplit::construct_from(&mut slice).unwrap();
    let found = pruned_state.accounts.get(&id_a()).unwrap().unwrap();
    assert_eq!(found.read_account(), Ok(a.clone()));
    assert_eq!(pruned_state.accounts.get(&id_b()), Err(BlockError::PrunedCellAccess));

    let code = found.read_account().unwrap().get_code().unwrap();
    assert!(code.is_pruned_branch());
    assert_eq!(code.repr_hash(), a.get_code().unwrap().repr_hash());
    assert_eq!(code.bit_length(), 0);

    assert!(proof.proof.tree_cell_count() < root.tree_cell_count());
    assert!(proof.proof.tree_bits_count() < root.tree_bits_count());
}

#[test]
fn every_node_on_the_other_side_is_a_placeholder() {
    let a = account(id_a(), 500, 1);
    let b = account(id_b(), 700, 2);
    let root = state_with(&[&a, &b]);
    let proof = MerkleProof::construct_from_cell(a.prepare_proof(&root).unwrap()).unwrap();
    let index = proof.proof.reference(0).unwrap();
    assert!(!index.is_pruned_branch());
    let (left, right) = dict::children_of(&index).unwrap();
    let uncut = root.reference(0).unwrap();
    let (uncut_left, uncut_right) = dict::children_of(&uncut).unwrap();
    assert!(!left.clone().unwrap().is_pruned_branch());
    let right = right.unwrap();
    assert!(right.is_pruned_branch());
    assert_eq!(right.references_count(), 0);
    assert_eq!(right.bit_length(), 0);
    assert_eq!(right.repr_hash(), uncut_right.unwrap().repr_hash());
    assert_eq!(left.unwrap().repr_hash(), uncut_left.unwrap().repr_hash());
}

#[test]
fn proof_for_an_account_that_the_state_lacks_fails() {
    let a = account(id_a(), 500, 1);
    let b = account(id_b(), 700, 2);
    let root = state_with(&[&b]);
    let r = a.prepare_proof(&root);
    assert_eq!(r, Err(BlockError::NotFound));
    assert_eq!(r.unwrap_err().kind(), ErrorKind::NotFound);
    let empty = state_with(&[]);
    assert_eq!(a.prepare_proof(&empty), Err(BlockError::NotFound));
    assert!(b.prepare_proof(&root).is_ok());
}

#[test]
fn proof_for_no_account_fails() {
    let b = account(id_b(), 700, 2);
    let root = state_with(&[&b]);
    let r = Account::default().prepare_proof(&root);
    assert_eq!(r, Err(BlockError::AccountIsNone));
    assert_eq!(r.unwrap_err().kind(), ErrorKind::PreconditionViolation);
}

#[test]
fn proof_under_a_root_that_is_no_state_fails() {
    let a = account(id_a(), 500, 1);
    assert_eq!(a.prepare_proof(&leaf(1, 8)), Err(BlockError::CellUnderflow));
    assert_eq!(
        a.prepare_proof(&leaf(0xffff_ffff, 32)),
        Err(BlockError::InvalidConstructorTag { tag: 0xffff_ffff })
    );
    assert_eq!(
        a.prepare_proof(&Cell::pruned_branch(UInt256::new(1, 1), 3)),
        Err(BlockError::PrunedCellAccess)
    );
}

#[test]
fn proof_of_the_test_account_reads_back() {
    let a = generate_test_account_by_init_code_hash(true);
    let b = account(id_b(), 700, 2);
    let root = state_with(&[&a, &b]);
    let proof = MerkleProof::construct_from_cell(a.prepare_proof(&root).unwrap()).unwrap();
    assert_eq!(proof.proof.repr_hash(), root.repr_hash());
    let mut slice = SliceData::load_cell(proof.proof).unwrap();
    let state = ShardStateUnsplit::construct_from(&mut slice).unwrap();
    let read = state.accounts.get(&a.get_id().unwrap()).unwrap().unwrap().read_account().unwrap();
    assert_eq!(read, a);
}

#[test]
fn usage_tree_notes_what_is_opened() {
    let child = leaf(1, 8);
    let mut b = BuilderData::new();
    b.append_bits(2, 8).unwrap();
    b.checked_append_reference(child.clone()).unwrap();
    b.checked_append_reference(leaf(3, 8)).unwrap();
    let root = b.into_cell();
    let mut usage = UsageTree::with_root(root.clone());
    assert_eq!(usage.root_cell(), root);
    assert!(!usage.contains(&root.repr_hash()));
    assert!(matches!(
        MerkleProof::create_by_usage_tree(&root, &usage),
        Err(BlockError::InvalidArg)
    ));
    usage.load(&root).unwrap();
    usage.load(&child).unwrap();
    assert!(usage.contains(&root.repr_hash()));
    assert!(usage.contains(&child.repr_hash()));
    assert!(!usage.contains(&leaf(3, 8).repr_hash()));
    let copy = usage.clone();
    assert!(copy.contains(&child.repr_hash()));
    let pruned = prune(&root, &usage);
    assert_eq!(pruned.repr_hash(), root.repr_hash());
    assert_eq!(pruned.reference(0), Some(child));
    assert!(!pruned.reference(0).unwrap().is_pruned_branch());
    assert!(pruned.reference(1).unwrap().is_pruned_branch());
    let proof = MerkleProof::create_by_usage_tree(&root, &usage).unwrap();
    assert_eq!(proof.hash, root.repr_hash());
    let c = proof.serialize();
    assert_eq!(c.bit_length(), 8 + 256);
    assert_eq!(MerkleProof::construct_from_cell(c).unwrap().proof.repr_hash(), root.repr_hash());
}

#[test]
fn a_proof_whose_hash_is_not_that_of_its_graph_is_refused() {
    let mut b = BuilderData::new();
    b.append_bits(3, 8).unwrap();
    b.append_bits(1, 128).unwrap();
    b.append_bits(1, 128).unwrap();
    b.checked_append_reference(leaf(1, 8)).unwrap();
    assert!(matches!(
        MerkleProof::construct_from_cell(b.into_cell()),
        Err(BlockError::HashMismatch)
    ));
    let mut b = BuilderData::new();
    b.append_bits(4, 8).unwrap();
    assert!(matches!(
        MerkleProof::construct_from_cell(b.into_cell()),
        Err(BlockError::InvalidConstructorTag { tag: 4 })
    ));
}

#[test]
fn shard_accounts_are_equal_by_hash_of_the_account_node() {
    let a = account(id_a(), 500, 1);
    let e1 = ShardAccount::with_params(&a, UInt256::new(1, 1), 10).unwrap();
    let e2 = ShardAccount::with_account_root(a.serialize().unwrap(), UInt256::new(1, 1), 10);
    assert_eq!(e1, e2);
    let e3 = ShardAccount::with_account_root(
        Cell::pruned_branch(a.serialize().unwrap().repr_hash(), 0),
        UInt256::new(1, 1),
        10,
    );
    assert_eq!(e1, e3);
    assert_eq!(e3.read_account(), Err(BlockError::PrunedCellAccess));
    let mut e4 = e1.clone();
    e4.set_last_trans_lt(11);
    assert_ne!(e1, e4);
    *e4.last_trans_lt_mut() = 10;
    assert_eq!(e1, e4);
    *e4.last_trans_hash_mut() = UInt256::new(9, 9);
    assert_ne!(e1, e4);
    e4.set_last_trans_hash(UInt256::new(1, 1));
    e4.write_account(&account(id_b(), 1, 1)).unwrap();
    assert_ne!(e1, e4);
    e4.set_account_cell(e1.account_cell());
    assert_eq!(e1, e4);
    assert_eq!(ShardAccount::default().read_account(), Ok(Account::AccountNone));
}
