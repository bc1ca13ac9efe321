use ton_accounts::builder::BuilderData;
use ton_accounts::cell::{Cell, UInt256};
use ton_accounts::error::BlockError;
use ton_accounts::slice::SliceData;

fn leaf(value: u128, bits: usize) -> Cell {
    let mut b = BuilderData::new();
    b.append_bits(value, bits).unwrap();
    b.into_cell()
}

#[test]
fn empty_node_has_the_known_hash() {
    let c = BuilderData::new().into_cell();
    assert_eq!(
        c.repr_hash(),
        UInt256::new(0x96a296d224f285c67bee93c30f8a3091, 0x57f0daa35dc5b87e410b78630a09cfc7)
    );
    assert_eq!(c.bit_length(), 0);
    assert_eq!(c.references_count(), 0);
    assert_eq!(c.repr_depth(), 0);
}

#[test]
fn hash_covers_bits_completed_to_bytes() {
    let c = leaf(0b101, 3);
    assert_eq!(
        c.repr_hash(),
        UInt256::new(0xc8235418b5cd55bc46073ea5cf9f3aac, 0x5a594ed782bee88dcd0acfd8ede4c756)
    );
}

#[test]
fn hash_covers_depth_and_hash_of_children() {
    let mut b = BuilderData::new();
    b.append_bits(0xab, 8).unwrap();
    b.checked_append_reference(BuilderData::new().into_cell()).unwrap();
    let c = b.into_cell();
    assert_eq!(c.repr_depth(), 1);
    assert_eq!(c.references_count(), 1);
    assert_eq!(
        c.repr_hash(),
        UInt256::new(0xce045fb3dbdb99b6a57929ffe26235b7, 0xa7945046dc4dc596db945922f27b7aae)
    );
    assert_eq!(c.recomputed_hash(), c.repr_hash());
}

#[test]
fn nodes_with_different_bits_have_different_hashes() {
    assert_ne!(leaf(1, 8).repr_hash(), leaf(2, 8).repr_hash());
    assert_ne!(leaf(1, 8).repr_hash(), leaf(1, 9).repr_hash());
    assert_eq!(leaf(1, 8).repr_hash(), leaf(1, 8).repr_hash());
    assert_eq!(leaf(1, 8), leaf(1, 8));
}

#[test]
fn builder_refuses_more_than_1023_bits() {
    let mut b = BuilderData::new();
    for _ in 0..7 {
        b.append_bits(0, 128).unwrap();
    }
    b.append_bits(0, 127).unwrap();
    assert_eq!(b.length_in_bits(), 1023);
    assert_eq!(b.append_bit_one(), Err(BlockError::CellOverflow));
    assert_eq!(b.append_bits(0, 1), Err(BlockError::CellOverflow));
    assert_eq!(b.length_in_bits(), 1023);
    assert_eq!(b.append_bits(0, 0), Ok(()));
}

#[test]
fn builder_refuses_a_fifth_child() {
    let mut b = BuilderData::new();
    for i in 0..4 {
        b.checked_append_reference(leaf(i, 8)).unwrap();
    }
    assert_eq!(b.checked_append_reference(leaf(9, 8)), Err(BlockError::CellOverflow));
    assert_eq!(b.checked_prepend_reference(leaf(9, 8)), Err(BlockError::CellOverflow));
    assert_eq!(b.references_used(), 4);
}

#[test]
fn prepend_puts_the_child_first() {
    let mut b = BuilderData::new();
    b.checked_append_reference(leaf(1, 8)).unwrap();
    b.checked_prepend_reference(leaf(2, 8)).unwrap();
    let c = b.into_cell();
    assert_eq!(c.reference(0), Some(leaf(2, 8)));
    assert_eq!(c.reference(1), Some(leaf(1, 8)));
    assert_eq!(c.reference(2), None);
}

#[test]
fn reader_gives_back_what_was_written() {
    let mut b = BuilderData::new();
    b.append_bit_one().unwrap();
    b.append_bit_zero().unwrap();
    b.append_u32(0xdead_beef).unwrap();
    b.append_u64(0x0123_4567_89ab_cdef).unwrap();
    b.append_bits(5, 3).unwrap();
    b.checked_append_reference(leaf(7, 3)).unwrap();
    let mut s = SliceData::load_cell(b.into_cell()).unwrap();
    assert_eq!(s.remaining_bits(), 1 + 1 + 32 + 64 + 3);
    assert_eq!(s.get_next_bit(), Ok(true));
    assert_eq!(s.get_next_bit(), Ok(false));
    assert_eq!(s.get_next_u32(), Ok(0xdead_beef));
    assert_eq!(s.get_next_u64(), Ok(0x0123_4567_89ab_cdef));
    assert_eq!(s.get_next_int(3), Ok(5));
    assert_eq!(s.remaining_bits(), 0);
    assert_eq!(s.get_next_bit(), Err(BlockError::CellUnderflow));
    assert_eq!(s.remaining_references(), 1);
    assert_eq!(s.checked_drain_reference(), Ok(leaf(7, 3)));
    assert_eq!(s.checked_drain_reference(), Err(BlockError::CellUnderflow));
}

#[test]
fn reader_reads_a_hash() {
    let h = UInt256::new(0x0011_2233_4455_6677_8899_aabb_ccdd_eeff, 0x0f0e_0d0c_0b0a_0908_0706_0504_0302_0100);
    let mut b = BuilderData::new();
    b.append_bits(h.hi, 128).unwrap();
    b.append_bits(h.lo, 128).unwrap();
    let mut s = SliceData::load_cell(b.into_cell()).unwrap();
    assert_eq!(s.get_next_hash(), Ok(h));
    assert_eq!(s.get_next_hash(), Err(BlockError::CellUnderflow));
}

#[test]
fn placeholder_holds_only_hash_and_depth() {
    let h = UInt256::new(1, 2);
    let p = Cell::pruned_branch(h, 7);
    assert!(p.is_pruned_branch());
    assert_eq!(p.repr_hash(), h);
    assert_eq!(p.repr_depth(), 7);
    assert_eq!(p.bit_length(), 0);
    assert_eq!(p.references_count(), 0);
    assert_eq!(p.recomputed_hash(), h);
    assert!(matches!(SliceData::load_cell(p), Err(BlockError::PrunedCellAccess)));
}

#[test]
fn tree_counts_count_a_shared_node_twice() {
    let shared = leaf(0xff, 8);
    let mut b = BuilderData::new();
    b.append_bits(1, 4).unwrap();
    b.checked_append_reference(shared.clone()).unwrap();
    b.checked_append_reference(shared).unwrap();
    let root = b.into_cell();
    assert_eq!(root.tree_cell_count(), 3);
    assert_eq!(root.tree_bits_count(), 4 + 8 + 8);
}

#[test]
fn builder_from_slice_takes_what_is_left() {
    let mut b = BuilderData::new();
    b.append_bits(0b1011, 4).unwrap();
    b.checked_append_reference(leaf(1, 1)).unwrap();
    b.checked_append_reference(leaf(2, 2)).unwrap();
    let mut s = SliceData::load_cell(b.into_cell()).unwrap();
    s.get_next_bit().unwrap();
    s.checked_drain_reference().unwrap();
    let rest = BuilderData::from_slice(&s).into_cell();
    assert_eq!(rest.bit_length(), 3);
    assert_eq!(rest.references_count(), 1);
    assert_eq!(rest.reference(0), Some(leaf(2, 2)));
    let mut r = SliceData::load_cell(rest).unwrap();
    assert_eq!(r.get_next_int(3), Ok(0b011));
}
