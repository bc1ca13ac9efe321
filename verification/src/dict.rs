//! A dictionary with keys of a fixed number of bits, kept as a binary tree of nodes: the
//! node at depth `d` leads to the keys whose bit `d` is zero on its left and to those
//! whose bit `d` is one on its right, and the node at the depth of the key length is
//! the value.
use crate::builder::{BuilderData, Fragment};
use crate::cell::{
    bits_below, cells_below, lemma_sat_sum_one, lemma_sat_sum_short, lemma_sat_sum_two, sat_sum, Cell, UInt256,
};
use crate::codec::lemma_concat_empty;
use crate::error::BlockError;
use crate::merkle::UsageTree;
use crate::slice::SliceData;
use vstd::prelude::*;

verus! {

/// The children of an inner node: two bits tell whether there is a left and a right
/// child, and the children that there are follow, the left one first.
pub open spec fn node_children(node: Cell) -> Result<(Option<Cell>, Option<Cell>), BlockError> {
    if node.is_pruned() {
        Err(BlockError::PrunedCellAccess)
    } else if node.bits().len() < 2 {
        Err(BlockError::CellUnderflow)
    } else {
        let has_left = node.bits()[0];
        let has_right = node.bits()[1];
        let at_right: int = if has_left {
            1
        } else {
            0
        };
        if has_left && node.refs().len() < 1 {
            Err(BlockError::CellUnderflow)
        } else if has_right && node.refs().len() <= at_right {
            Err(BlockError::CellUnderflow)
        } else {
            Ok(
                (
                    if has_left {
                        Some(node.refs()[0])
                    } else {
                        None
                    },
                    if has_right {
                        Some(node.refs()[at_right])
                    } else {
                        None
                    },
                ),
            )
        }
    }
}

/// The child of a pair on the side that a key bit names.
pub open spec fn side(children: (Option<Cell>, Option<Cell>), bit: bool) -> Option<Cell> {
    if bit {
        children.1
    } else {
        children.0
    }
}

/// The value under `key` in the tree below `node`, which stands at `depth`. It fails
/// where a node on the way is a placeholder or lacks what an inner node has.
pub open spec fn find(node: Option<Cell>, key: Seq<bool>, depth: nat) -> Result<
    Option<Cell>,
    BlockError,
>
    decreases key.len() - depth,
{
    match node {
        None => Ok(None),
        Some(c) => if depth >= key.len() {
            Ok(Some(c))
        } else {
            match node_children(c) {
                Err(e) => Err(e),
                Ok(children) => find(side(children, key[depth as int]), key, depth + 1),
            }
        },
    }
}

/// The hashes of the inner nodes that are opened on the way to `key`.
pub open spec fn find_visits(node: Option<Cell>, key: Seq<bool>, depth: nat) -> Set<UInt256>
    decreases key.len() - depth,
{
    match node {
        None => Set::empty(),
        Some(c) => if depth >= key.len() || c.is_pruned() {
            Set::empty()
        } else {
            match node_children(c) {
                Err(e) => Set::empty().insert(c.hash()),
                Ok(children) => find_visits(side(children, key[depth as int]), key, depth + 1).insert(
                    c.hash(),
                ),
            }
        },
    }
}

/// Whether two keys differ at or behind `depth`.
pub open spec fn differ_from(a: Seq<bool>, b: Seq<bool>, depth: nat) -> bool {
    exists|j: int| depth <= j < a.len() && a[j] != b[j]
}

fn read_children(slice: &mut SliceData) -> (r: Result<(Option<Cell>, Option<Cell>), BlockError>)
    requires
        !old(slice).spec_cell().is_pruned(),
        old(slice)@ == old(slice).spec_cell().payload(),
    ensures
        r == node_children(old(slice).spec_cell()),
{
    let ghost node = slice.spec_cell();
    let has_left = slice.get_next_bit()?;
    let has_right = slice.get_next_bit()?;
    let left = if has_left {
        Some(slice.checked_drain_reference()?)
    } else {
        None
    };
    let right = if has_right {
        Some(slice.checked_drain_reference()?)
    } else {
        None
    };
    Ok((left, right))
}

/// The counts that an inner node carries are at least those of its children and its
/// own, unless they are held at `u64::MAX`.
pub proof fn lemma_children_weigh_less(node: Cell, left: Option<Cell>, right: Option<Cell>)
    requires
        node.node_ok(),
        node_children(node) == Ok::<(Option<Cell>, Option<Cell>), BlockError>((left, right)),
    ensures
        node.tree_cells() == u64::MAX || 1 + cells_below(left) + cells_below(right)
            <= node.tree_cells(),
        node.tree_bits() == u64::MAX || 2 + bits_below(left) + bits_below(right)
            <= node.tree_bits(),
{
    let tree_cells = |c: Cell| c.tree_cells();
    let tree_bits = |c: Cell| c.tree_bits();
    let refs = node.refs();
    assert(sat_sum(refs, tree_cells) <= u64::MAX && sat_sum(refs, tree_bits) <= u64::MAX) by {
        if refs.len() > 0 {
            lemma_sat_sum_one(refs, tree_cells, 0);
            lemma_sat_sum_one(refs, tree_bits, 0);
        }
    }
    if left is Some && right is Some {
        lemma_sat_sum_two(refs, tree_cells, 0, 1);
        lemma_sat_sum_two(refs, tree_bits, 0, 1);
    } else if left is Some || right is Some {
        lemma_sat_sum_one(refs, tree_cells, 0);
        lemma_sat_sum_one(refs, tree_bits, 0);
    }
}

/// The children of an inner node.
pub fn children_of(node: &Cell) -> (r: Result<(Option<Cell>, Option<Cell>), BlockError>)
    ensures
        r == node_children(*node),
        r is Ok ==> node.node_ok(),
{
    let mut slice = SliceData::load_cell(node.clone())?;
    read_children(&mut slice)
}

/// The inner node with the given children, and none where there are no children.
pub fn make_node(left: Option<Cell>, right: Option<Cell>) -> (r: Option<Cell>)
    ensures
        (left is None && right is None) ==> r is None,
        !(left is None && right is None) ==> r is Some && node_children(r->Some_0) == Ok::<
            (Option<Cell>, Option<Cell>),
            BlockError,
        >((left, right)),
        cells_below(r) <= 1 + cells_below(left) + cells_below(right),
        bits_below(r) <= 2 + bits_below(left) + bits_below(right),
{
    if left.is_none() && right.is_none() {
        return None;
    }
    let mut f = Fragment::new();
    f.push_bit(left.is_some());
    f.push_bit(right.is_some());
    match &left {
        Some(c) => {
            f.push_reference(c.clone());
        },
        None => {},
    }
    match &right {
        Some(c) => {
            f.push_reference(c.clone());
        },
        None => {},
    }
    let mut b = BuilderData::new();
    proof {
        lemma_concat_empty(f@);
    }
    let ok = b.append_fragment(&f);
    let c = b.into_cell();
    proof {
        let tree_cells = |c: Cell| c.tree_cells();
        let tree_bits = |c: Cell| c.tree_bits();
        lemma_sat_sum_short(c.refs(), tree_cells);
        lemma_sat_sum_short(c.refs(), tree_bits);
    }
    Some(c)
}

fn pick(children: &(Option<Cell>, Option<Cell>), bit: bool) -> (r: Option<Cell>)
    ensures
        r == side(*children, bit),
{
    let chosen = if bit {
        &children.1
    } else {
        &children.0
    };
    match chosen {
        Some(c) => Some(c.clone()),
        None => None,
    }
}

/// The value under `key`, and none where there is none. It fails where a node on the way
/// is a placeholder or lacks what an inner node has.
pub fn get(root: &Option<Cell>, key: &Vec<bool>) -> (r: Result<Option<Cell>, BlockError>)
    ensures
        r == find(*root, key@, 0),
{
    let mut node: Option<Cell> = match root {
        Some(c) => Some(c.clone()),
        None => None,
    };
    let mut depth: usize = 0;
    while depth < key.len()
        invariant
            depth <= key.len(),
            find(*root, key@, 0) == find(node, key@, depth as nat),
        decreases key.len() - depth,
    {
        let c = match node {
            Some(c) => c,
            None => {
                return Ok(None);
            },
        };
        let children = children_of(&c)?;
        node = pick(&children, key[depth]);
        depth = depth + 1;
    }
    Ok(node)
}

/// The value under `key`, looked up as `get` does, while `usage` notes every inner node
/// that is opened on the way.
pub fn get_tracked(root: &Option<Cell>, key: &Vec<bool>, usage: &mut UsageTree) -> (r: Result<
    Option<Cell>,
    BlockError,
>)
    ensures
        r == find(*root, key@, 0),
        final(usage).spec_root() == old(usage).spec_root(),
        final(usage).visited() == old(usage).visited().union(find_visits(*root, key@, 0)),
{
    let mut node: Option<Cell> = match root {
        Some(c) => Some(c.clone()),
        None => None,
    };
    let mut depth: usize = 0;
    assert(old(usage).visited().union(find_visits(*root, key@, 0)) =~= usage.visited().union(
        find_visits(node, key@, depth as nat),
    ));
    while depth < key.len()
        invariant
            depth <= key.len(),
            find(*root, key@, 0) == find(node, key@, depth as nat),
            usage.spec_root() == old(usage).spec_root(),
            old(usage).visited().union(find_visits(*root, key@, 0)) == usage.visited().union(
                find_visits(node, key@, depth as nat),
            ),
        decreases key.len() - depth,
    {
        let ghost before = usage.visited();
        let c = match node {
            Some(c) => c,
            None => {
                assert(before.union(find_visits(node, key@, depth as nat)) =~= before);
                return Ok(None);
            },
        };
        let mut slice = match usage.load(&c) {
            Ok(slice) => slice,
            Err(e) => {
                assert(before.union(find_visits(node, key@, depth as nat)) =~= before);
                return Err(e);
            },
        };
        let children = match read_children(&mut slice) {
            Ok(children) => children,
            Err(e) => {
                assert(before.union(find_visits(node, key@, depth as nat)) =~= usage.visited());
                return Err(e);
            },
        };
        let ghost here = node;
        node = pick(&children, key[depth]);
        depth = depth + 1;
        assert(before.union(find_visits(here, key@, (depth - 1) as nat)) =~= usage.visited().union(
            find_visits(node, key@, depth as nat),
        ));
    }
    assert(usage.visited().union(find_visits(node, key@, depth as nat)) =~= usage.visited());
    Ok(node)
}

/// Puts `value` under `key` in the tree below `node`, which stands at `depth`, and gives
/// the new tree. It fails where looking up `key` fails.
fn set_at(node: &Option<Cell>, key: &Vec<bool>, depth: usize, value: Cell) -> (r: Result<
    Cell,
    BlockError,
>)
    requires
        depth <= key.len(),
    ensures
        match find(*node, key@, depth as nat) {
            Err(e) => r == Err::<Cell, BlockError>(e),
            Ok(_) => r is Ok && find(Some(r->Ok_0), key@, depth as nat) == Ok::<
                Option<Cell>,
                BlockError,
            >(Some(value)) && forall|k: Seq<bool>|
                k.len() == key@.len() && differ_from(k, key@, depth as nat) ==> #[trigger] find(
                    Some(r->Ok_0),
                    k,
                    depth as nat,
                ) == find(*node, k, depth as nat),
        },
        r is Ok ==> r->Ok_0.tree_cells() <= cells_below(*node) + (key.len() - depth)
            + value.tree_cells(),
        r is Ok ==> r->Ok_0.tree_bits() <= bits_below(*node) + 2 * (key.len() - depth)
            + value.tree_bits(),
    decreases key.len() - depth,
{
    if depth == key.len() {
        assert forall|k: Seq<bool>|
            k.len() == key@.len() && differ_from(k, key@, depth as nat) implies #[trigger] find(
            Some(value),
            k,
            depth as nat,
        ) == find(*node, k, depth as nat) by {}
        return Ok(value);
    }
    let children: (Option<Cell>, Option<Cell>) = match node {
        Some(c) => children_of(c)?,
        None => (None, None),
    };
    let bit = key[depth];
    let child = pick(&children, bit);
    let next = set_at(&child, key, depth + 1, value)?;
    let made = if bit {
        make_node(children.0, Some(next.clone()))
    } else {
        make_node(Some(next.clone()), children.1)
    };
    let result = match made {
        Some(c) => c,
        None => next,
    };
    proof {
        let after = if bit {
            (children.0, Some(next))
        } else {
            (Some(next), children.1)
        };
        result.lemma_counts_held();
        if *node is Some {
            lemma_children_weigh_less(node->Some_0, children.0, children.1);
        }
        assert(node_children(result) == Ok::<(Option<Cell>, Option<Cell>), BlockError>(after));
        assert forall|k: Seq<bool>|
            k.len() == key@.len() && differ_from(k, key@, depth as nat) implies #[trigger] find(
            Some(result),
            k,
            depth as nat,
        ) == find(*node, k, depth as nat) by {
            if k[depth as int] == bit {
                let j = choose|j: int| depth <= j < k.len() && k[j] != key@[j];
                assert(differ_from(k, key@, (depth + 1) as nat));
                assert(find(Some(next), k, (depth + 1) as nat) == find(
                    child,
                    k,
                    (depth + 1) as nat,
                ));
            }
        }
    }
    Ok(result)
}

/// Puts `value` under `key`, and gives the root of the new dictionary: `value` is found
/// under `key`, and under every other key of the same length is found what was found
/// before. It fails where looking up `key` fails. The counts that the new root carries
/// are at most those of the old root, of `value`, and of one inner node for each bit of
/// the key.
pub fn set(root: &Option<Cell>, key: &Vec<bool>, value: Cell) -> (r: Result<
    Option<Cell>,
    BlockError,
>)
    ensures
        match find(*root, key@, 0) {
            Err(e) => r == Err::<Option<Cell>, BlockError>(e),
            Ok(_) => r is Ok && find(r->Ok_0, key@, 0) == Ok::<Option<Cell>, BlockError>(
                Some(value),
            ) && forall|k: Seq<bool>|
                k.len() == key@.len() && k != key@ ==> #[trigger] find(r->Ok_0, k, 0) == find(
                    *root,
                    k,
                    0,
                ),
        },
        r is Ok ==> cells_below(r->Ok_0) <= cells_below(*root) + key.len() + value.tree_cells(),
        r is Ok ==> bits_below(r->Ok_0) <= bits_below(*root) + 2 * key.len() + value.tree_bits(),
{
    let c = set_at(root, key, 0, value)?;
    proof {
        assert forall|k: Seq<bool>| k.len() == key@.len() && k != key@ implies #[trigger] find(
            Some(c),
            k,
            0,
        ) == find(*root, k, 0) by {
            if !differ_from(k, key@, 0) {
                assert(k =~= key@);
            }
        }
    }
    Ok(Some(c))
}

/// Takes away what is under `key` in the tree below `node`, which stands at `depth`, and
/// gives the new tree. It fails where looking up `key` fails.
fn remove_at(node: &Option<Cell>, key: &Vec<bool>, depth: usize) -> (r: Result<
    Option<Cell>,
    BlockError,
>)
    requires
        depth <= key.len(),
    ensures
        match find(*node, key@, depth as nat) {
            Err(e) => r == Err::<Option<Cell>, BlockError>(e),
            Ok(_) => r is Ok && find(r->Ok_0, key@, depth as nat) == Ok::<
                Option<Cell>,
                BlockError,
            >(None) && forall|k: Seq<bool>|
                k.len() == key@.len() && differ_from(k, key@, depth as nat) ==> #[trigger] find(
                    r->Ok_0,
                    k,
                    depth as nat,
                ) == find(*node, k, depth as nat),
        },
    decreases key.len() - depth,
{
    let c = match node {
        Some(c) => c,
        None => {
            return Ok(None);
        },
    };
    if depth == key.len() {
        assert forall|k: Seq<bool>|
            k.len() == key@.len() && differ_from(k, key@, depth as nat) implies #[trigger] find(
            None,
            k,
            depth as nat,
        ) == find(*node, k, depth as nat) by {}
        return Ok(None);
    }
    let children = children_of(c)?;
    let bit = key[depth];
    let child = pick(&children, bit);
    let next = remove_at(&child, key, depth + 1)?;
    let result = if bit {
        make_node(children.0, next)
    } else {
        make_node(next, children.1)
    };
    proof {
        let after = if bit {
            (children.0, next)
        } else {
            (next, children.1)
        };
        assert forall|k: Seq<bool>|
            k.len() == key@.len() && differ_from(k, key@, depth as nat) implies #[trigger] find(
            result,
            k,
            depth as nat,
        ) == find(*node, k, depth as nat) by {
            if k[depth as int] == bit {
                let j = choose|j: int| depth <= j < k.len() && k[j] != key@[j];
                assert(differ_from(k, key@, (depth + 1) as nat));
                assert(find(next, k, (depth + 1) as nat) == find(child, k, (depth + 1) as nat));
            }
        }
    }
    Ok(result)
}

/// Takes away what is under `key`, and gives the root of the new dictionary: nothing is
/// found under `key`, and under every other key of the same length is found what was
/// found before. It fails where looking up `key` fails.
pub fn remove(root: &Option<Cell>, key: &Vec<bool>) -> (r: Result<Option<Cell>, BlockError>)
    ensures
        match find(*root, key@, 0) {
            Err(e) => r == Err::<Option<Cell>, BlockError>(e),
            Ok(_) => r is Ok && find(r->Ok_0, key@, 0) == Ok::<Option<Cell>, BlockError>(None)
                && forall|k: Seq<bool>|
                k.len() == key@.len() && k != key@ ==> #[trigger] find(r->Ok_0, k, 0) == find(
                    *root,
                    k,
                    0,
                ),
        },
{
    let c = remove_at(root, key, 0)?;
    proof {
        assert forall|k: Seq<bool>| k.len() == key@.len() && k != key@ implies #[trigger] find(
            c,
            k,
            0,
        ) == find(*root, k, 0) by {
            if !differ_from(k, key@, 0) {
                assert(k =~= key@);
            }
        }
    }
    Ok(c)
}

/// The 256 bits of a hash, as a key.
pub fn hash_key_bits(hash: &UInt256) -> (key: Vec<bool>)
    ensures
        key@ == hash.bits(),
        key@.len() == 256,
{
    let mut key: Vec<bool> = Vec::new();
    hash.push_bits(&mut key);
    proof {
        crate::bits::lemma_uint_bits_len(hash.hi as nat, 128);
        crate::bits::lemma_uint_bits_len(hash.lo as nat, 128);
        assert(key@ =~= hash.bits());
    }
    key
}

} // verus!
