//! Keeping track of the nodes that a reader opens, and cutting a graph down to them.
use crate::bits::{lemma_uint_bits_len, uint_bits};
use crate::builder::{BuilderData, Fragment};
use crate::cell::{links_of, Cell, Payload, UInt256};
use crate::codec::{lemma_concat_assoc, lemma_concat_empty};
use crate::error::BlockError;
use crate::slice::SliceData;
use crate::storage::{
    hashes_with_keys, visited_clone, visited_contains, visited_insert, visited_new,
};
use rustc_hash::FxHashSet;
use vstd::prelude::*;

verus! {

/// A root, and the hashes of the nodes below it that were opened.
#[derive(Debug)]
pub struct UsageTree {
    root: Cell,
    visited: FxHashSet<(u128, u128)>,
}

impl UsageTree {
    pub closed spec fn spec_root(&self) -> Cell {
        self.root
    }

    /// The hashes of the nodes that were opened.
    pub closed spec fn visited(&self) -> Set<UInt256> {
        hashes_with_keys(self.visited@)
    }

    /// Tracking for `root`, with no node opened yet.
    pub fn with_root(root: Cell) -> (r: UsageTree)
        ensures
            r.spec_root() == root,
            r.visited() == Set::<UInt256>::empty(),
    {
        let r = UsageTree { root, visited: visited_new() };
        assert(r.visited() =~= Set::<UInt256>::empty());
        r
    }

    pub fn root_cell(&self) -> (c: Cell)
        ensures
            c == self.spec_root(),
    {
        self.root.clone()
    }

    /// Opens `cell` for reading and notes its hash. A placeholder cannot be opened, and
    /// is not noted.
    pub fn load(&mut self, cell: &Cell) -> (r: Result<SliceData, BlockError>)
        ensures
            final(self).spec_root() == old(self).spec_root(),
            cell.is_pruned() ==> r is Err && r->Err_0 == BlockError::PrunedCellAccess
                && final(self).visited() == old(self).visited(),
            !cell.is_pruned() ==> r is Ok && r->Ok_0@ == cell.payload() && r->Ok_0.spec_cell()
                == *cell && final(self).visited() == old(self).visited().insert(cell.hash()),
    {
        let slice = SliceData::load_cell(cell.clone())?;
        let h = cell.repr_hash();
        let fresh = visited_insert(&mut self.visited, (h.hi, h.lo));
        assert(self.visited() =~= old(self).visited().insert(cell.hash()));
        Ok(slice)
    }

    /// Whether a node with this hash was opened.
    pub fn contains(&self, hash: &UInt256) -> (b: bool)
        ensures
            b == self.visited().contains(*hash),
    {
        visited_contains(&self.visited, (hash.hi, hash.lo))
    }
}

impl Clone for UsageTree {
    fn clone(&self) -> (r: UsageTree)
        ensures
            r.spec_root() == self.spec_root(),
            r.visited() == self.visited(),
    {
        UsageTree { root: self.root.clone(), visited: visited_clone(&self.visited) }
    }
}

/// Whether `pruned` is `cell` cut down to the nodes whose hashes are in `visited`: a
/// node that is an ordinary node with its hash in `visited` is kept with its bits, and
/// its children are cut down in the same way; any other node is replaced by a
/// placeholder that holds its hash and nothing else. Either way the hash stays.
pub open spec fn is_pruning_of(pruned: Cell, cell: Cell, visited: Set<UInt256>) -> bool
    decreases cell.height(), 0nat,
{
    &&& pruned.hash() == cell.hash()
    &&& pruned.depth() == cell.depth()
    &&& if !cell.is_pruned() && visited.contains(cell.hash()) {
        proof {
            cell.lemma_tallest_refs();
        }
        &&& !pruned.is_pruned()
        &&& pruned.bits() == cell.bits()
        &&& are_prunings_of(pruned.refs(), cell.refs(), visited)
    } else {
        &&& pruned.is_pruned()
        &&& pruned.bits().len() == 0
        &&& pruned.refs().len() == 0
    }
}

/// Whether each of `pruned` is the node of `cells` at its place, cut down.
pub open spec fn are_prunings_of(pruned: Seq<Cell>, cells: Seq<Cell>, visited: Set<UInt256>) -> bool
    decreases Cell::tallest(cells), cells.len(),
{
    &&& pruned.len() == cells.len()
    &&& cells.len() > 0 ==> {
        proof {
            Cell::lemma_tallest_step(cells);
        }
        &&& are_prunings_of(pruned.drop_last(), cells.drop_last(), visited)
        &&& is_pruning_of(pruned.last(), cells.last(), visited)
    }
}

/// The prunings of some nodes have the hashes of the nodes.
pub proof fn lemma_prunings_keep_hashes(pruned: Seq<Cell>, cells: Seq<Cell>, visited: Set<UInt256>)
    requires
        are_prunings_of(pruned, cells, visited),
    ensures
        links_of(pruned) == links_of(cells),
{
    assert forall|i: int| 0 <= i < cells.len() implies links_of(pruned)[i] == links_of(cells)[i] by {
        lemma_prunings_at(pruned, cells, visited, i);
    }
    assert(links_of(pruned) =~= links_of(cells));
}

/// The prunings of some nodes are as deep as the nodes.
pub proof fn lemma_prunings_keep_depth(pruned: Seq<Cell>, cells: Seq<Cell>, visited: Set<UInt256>)
    requires
        are_prunings_of(pruned, cells, visited),
    ensures
        crate::cell::deepest(pruned) == crate::cell::deepest(cells),
        crate::cell::depth_over(pruned) == crate::cell::depth_over(cells),
    decreases cells.len(),
{
    if cells.len() > 0 {
        lemma_prunings_keep_depth(pruned.drop_last(), cells.drop_last(), visited);
        lemma_prunings_at(pruned, cells, visited, cells.len() - 1);
    }
}

/// The child of a pruning at a place is the pruning of the child at that place.
pub proof fn lemma_prunings_at(pruned: Seq<Cell>, cells: Seq<Cell>, visited: Set<UInt256>, i: int)
    requires
        are_prunings_of(pruned, cells, visited),
        0 <= i < cells.len(),
    ensures
        is_pruning_of(pruned[i], cells[i], visited),
        pruned[i].hash() == cells[i].hash(),
        pruned[i].depth() == cells[i].depth(),
    decreases cells.len(),
{
    if i < cells.len() - 1 {
        lemma_prunings_at(pruned.drop_last(), cells.drop_last(), visited, i);
        assert(pruned.drop_last()[i] == pruned[i]);
        assert(cells.drop_last()[i] == cells[i]);
    } else {
        assert(pruned.last() == pruned[i]);
        assert(cells.last() == cells[i]);
    }
}

/// Cuts `cell` down to the nodes that were opened.
pub fn prune(cell: &Cell, usage: &UsageTree) -> (pruned: Cell)
    ensures
        is_pruning_of(pruned, *cell, usage.visited()),
        pruned.hash() == cell.hash(),
        pruned.depth() == cell.depth(),
    decreases cell.height(),
{
    let h = cell.repr_hash();
    if cell.is_pruned_branch() || !usage.contains(&h) {
        return Cell::pruned_branch(h, cell.repr_depth());
    }
    let n = cell.references_count();
    let mut children: Vec<Cell> = Vec::new();
    let mut i: usize = 0;
    while i < n
        invariant
            i <= n,
            n == cell.refs().len(),
            n <= crate::cell::MAX_REFERENCES,
            are_prunings_of(children@, cell.refs().take(i as int), usage.visited()),
        decreases n - i,
    {
        match cell.reference(i) {
            Some(child) => {
                proof {
                    cell.lemma_child_height(i as int);
                }
                let p = prune(&child, usage);
                let ghost before = children@;
                children.push(p);
                proof {
                    let cs = cell.refs().take(i + 1);
                    assert(cs.drop_last() =~= cell.refs().take(i as int));
                    assert(children@.drop_last() =~= before);
                    assert(cs.last() == child);
                }
            },
            None => {},
        }
        i = i + 1;
    }
    assert(cell.refs().take(n as int) =~= cell.refs());
    proof {
        lemma_prunings_keep_hashes(children@, cell.refs(), usage.visited());
        lemma_prunings_keep_depth(children@, cell.refs(), usage.visited());
    }
    let mut bits: Vec<bool> = Vec::new();
    crate::bits::extend_bits(&mut bits, cell.data(), 0);
    assert(bits@ =~= cell.bits());
    Cell::with_content(bits, children)
}

/// The eight bits that start the node of a proof.
pub const MERKLE_PROOF_TAG: u8 = 3;

/// A proof that some nodes are part of the graph with a given root hash: the hash, and
/// the graph cut down to those nodes.
#[derive(Debug)]
pub struct MerkleProof {
    pub hash: UInt256,
    pub proof: Cell,
}

impl MerkleProof {
    /// The proof for the nodes of `root` that were opened. It fails where the root itself
    /// was not opened.
    pub fn create_by_usage_tree(root: &Cell, usage: &UsageTree) -> (r: Result<
        MerkleProof,
        BlockError,
    >)
        ensures
            usage.visited().contains(root.hash()) ==> r is Ok && r->Ok_0.hash == root.hash()
                && r->Ok_0.proof.hash() == root.hash() && is_pruning_of(
                r->Ok_0.proof,
                *root,
                usage.visited(),
            ),
            !usage.visited().contains(root.hash()) ==> r is Err && r->Err_0
                == BlockError::InvalidArg,
    {
        let hash = root.repr_hash();
        if !usage.contains(&hash) {
            return Err(BlockError::InvalidArg);
        }
        Ok(MerkleProof { hash, proof: prune(root, usage) })
    }

    /// The layout: the tag on eight bits, the hash on 256 bits, and the cut-down graph as
    /// a child.
    pub open spec fn payload(&self) -> Payload {
        Payload::of_bits(uint_bits(MERKLE_PROOF_TAG as nat, 8)).concat(
            Payload::of_bits(self.hash.bits()),
        ).concat(Payload::of_ref(self.proof))
    }

    /// The node that holds the proof.
    pub fn serialize(&self) -> (c: Cell)
        ensures
            c.holds(self.payload()),
    {
        let mut f = Fragment::new();
        f.push_uint(MERKLE_PROOF_TAG as u128, 8);
        f.push_hash(&self.hash);
        f.push_reference(self.proof.clone());
        proof {
            let a = Payload::of_bits(uint_bits(MERKLE_PROOF_TAG as nat, 8));
            let b = Payload::of_bits(self.hash.bits());
            let c = Payload::of_ref(self.proof);
            lemma_concat_assoc(Payload::empty(), a, b);
            lemma_concat_assoc(Payload::empty(), a.concat(b), c);
            lemma_concat_empty(self.payload());
            lemma_uint_bits_len(MERKLE_PROOF_TAG as nat, 8);
            lemma_uint_bits_len(self.hash.hi as nat, 128);
            lemma_uint_bits_len(self.hash.lo as nat, 128);
        }
        let mut b = BuilderData::new();
        let r = b.append_fragment(&f);
        b.into_cell()
    }

    /// The proof that a node holds. It is refused where the node does not start with the
    /// tag of a proof, and where the hash it tells is not the hash of the cut-down graph.
    pub open spec fn parse(cell: Cell) -> Result<MerkleProof, BlockError> {
        if cell.is_pruned() {
            Err(BlockError::PrunedCellAccess)
        } else {
            match cell.payload().take_uint(8) {
                Err(e) => Err(e),
                Ok((tag, r1)) => if tag != MERKLE_PROOF_TAG {
                    Err(BlockError::InvalidConstructorTag { tag: tag as u32 })
                } else {
                    match r1.take_hash() {
                        Err(e) => Err(e),
                        Ok((hash, r2)) => match r2.take_ref() {
                            Err(e) => Err(e),
                            Ok((proof, r3)) => if proof.hash() != hash {
                                Err(BlockError::HashMismatch)
                            } else {
                                Ok(MerkleProof { hash, proof })
                            },
                        },
                    }
                },
            }
        }
    }

    /// Reads a proof from its node, and checks that the hash it tells is the hash of the
    /// cut-down graph.
    pub fn construct_from_cell(cell: Cell) -> (r: Result<MerkleProof, BlockError>)
        ensures
            r == Self::parse(cell),
    {
        let mut slice = SliceData::load_cell(cell)?;
        let ghost p = slice@;
        let tag = slice.get_next_uint(8)?;
        if tag != MERKLE_PROOF_TAG as u128 {
            proof {
                crate::bits::lemma_bits_uint_bound(p.bits.take(8));
                vstd::arithmetic::power2::lemma2_to64();
            }
            return Err(BlockError::InvalidConstructorTag { tag: tag as u32 });
        }
        let hash = slice.get_next_hash()?;
        let proof = slice.checked_drain_reference()?;
        if proof.repr_hash() != hash {
            return Err(BlockError::HashMismatch);
        }
        Ok(MerkleProof { hash, proof })
    }

    /// A proof is read back from the node it was written into.
    pub proof fn lemma_parse_serialized(self, cell: Cell)
        requires
            self.proof.hash() == self.hash,
            cell.payload() == self.payload(),
            !cell.is_pruned(),
        ensures
            Self::parse(cell) == Ok::<MerkleProof, BlockError>(self),
    {
        let a = Payload::of_bits(uint_bits(MERKLE_PROOF_TAG as nat, 8));
        let b = Payload::of_bits(self.hash.bits());
        let c = Payload::of_ref(self.proof);
        lemma_concat_assoc(a, b, c);
        vstd::arithmetic::power2::lemma2_to64();
        crate::codec::lemma_take_uint(MERKLE_PROOF_TAG as nat, 8, b.concat(c));
        crate::codec::lemma_take_hash(self.hash, c);
        lemma_concat_empty(c);
        crate::codec::lemma_take_ref(self.proof, Payload::empty());
    }
}

/// Cutting a graph down keeps the hash of its root, and leaves of a node that was not
/// opened nothing but its hash and its depth.
pub proof fn lemma_pruning_keeps_hash(pruned: Cell, cell: Cell, visited: Set<UInt256>)
    requires
        is_pruning_of(pruned, cell, visited),
    ensures
        pruned.hash() == cell.hash(),
        pruned.depth() == cell.depth(),
        !visited.contains(cell.hash()) ==> pruned.is_pruned() && pruned.bits().len() == 0
            && pruned.refs().len() == 0,
        (visited.contains(cell.hash()) && !cell.is_pruned()) ==> pruned.bits() == cell.bits()
            && pruned.refs().len() == cell.refs().len() && forall|i: int|
            0 <= i < cell.refs().len() ==> is_pruning_of(
                #[trigger] pruned.refs()[i],
                cell.refs()[i],
                visited,
            ),
{
    if visited.contains(cell.hash()) && !cell.is_pruned() {
        assert forall|i: int| 0 <= i < cell.refs().len() implies is_pruning_of(
            #[trigger] pruned.refs()[i],
            cell.refs()[i],
            visited,
        ) by {
            lemma_prunings_at(pruned.refs(), cell.refs(), visited, i);
        }
    }
}

/// A graph that was cut down to what a lookup opened still answers that lookup: under
/// the same key, the cut-down dictionary finds the node that the dictionary finds, cut
/// down, and fails where the dictionary fails.
pub proof fn lemma_pruning_keeps_lookup(
    pruned: Cell,
    cell: Cell,
    visited: Set<UInt256>,
    key: Seq<bool>,
    depth: nat,
)
    requires
        is_pruning_of(pruned, cell, visited),
        crate::dict::find_visits(Some(cell), key, depth).subset_of(visited),
    ensures
        match crate::dict::find(Some(cell), key, depth) {
            Err(e) => crate::dict::find(Some(pruned), key, depth) == Err::<Option<Cell>, BlockError>(
                e,
            ),
            Ok(None) => crate::dict::find(Some(pruned), key, depth) == Ok::<
                Option<Cell>,
                BlockError,
            >(None),
            Ok(Some(leaf)) => crate::dict::find(Some(pruned), key, depth) matches Ok(Some(found))
                && is_pruning_of(found, leaf, visited),
        },
    decreases key.len() - depth,
{
    if depth >= key.len() {
    } else if cell.is_pruned() {
        assert(pruned.is_pruned());
    } else {
        assert(crate::dict::find_visits(Some(cell), key, depth).contains(cell.hash()));
        assert(visited.contains(cell.hash()));
        lemma_pruning_keeps_hash(pruned, cell, visited);
        assert(!pruned.is_pruned());
        assert(pruned.bits() == cell.bits());
        assert(pruned.refs().len() == cell.refs().len());
        match crate::dict::node_children(cell) {
            Err(e) => {
                assert(crate::dict::node_children(pruned) == Err::<
                    (Option<Cell>, Option<Cell>),
                    BlockError,
                >(e));
            },
            Ok(children) => {
                let has_left = cell.bits()[0];
                let at_right: int = if has_left {
                    1
                } else {
                    0
                };
                let bit = key[depth as int];
                let at: int = if bit {
                    at_right
                } else {
                    0
                };
                let kept = crate::dict::node_children(pruned)->Ok_0;
                assert(crate::dict::node_children(pruned) is Ok);
                match crate::dict::side(children, bit) {
                    None => {
                        assert(crate::dict::side(kept, bit) is None);
                        assert(crate::dict::find(None, key, depth + 1) == Ok::<
                            Option<Cell>,
                            BlockError,
                        >(None));
                    },
                    Some(next) => {
                        assert(next == cell.refs()[at]);
                        assert(crate::dict::side(kept, bit) == Some(pruned.refs()[at]));
                        assert(is_pruning_of(pruned.refs()[at], cell.refs()[at], visited));
                        assert(crate::dict::find_visits(Some(next), key, depth + 1).subset_of(
                            visited,
                        ));
                        lemma_pruning_keeps_lookup(
                            pruned.refs()[at],
                            next,
                            visited,
                            key,
                            depth + 1,
                        );
                    },
                }
            },
        }
    }
}

} // verus!
