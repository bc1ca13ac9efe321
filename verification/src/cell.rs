//! The content-addressed node: a bit string, an ordered list of child nodes,
//! and the hash that identifies it.
use crate::bits::{
    bits_uint, lemma_bits_uint_bound, lemma_pow2_128, lemma_uint_bits_len, push_uint, read_uint,
    uint_bits,
};
use std::sync::Arc;
use vstd::prelude::*;
use vstd::std_specs::cmp::PartialEqSpecImpl;

verus! {

/// The most bits that one node holds.
pub const MAX_DATA_BITS: usize = 1023;

/// The most children that one node refers to.
pub const MAX_REFERENCES: usize = 4;

/// The SHA-256 digest of a byte string.
pub uninterp spec fn sha256_digest(data: Seq<u8>) -> Seq<u8>;

/// Calls `sha2::Sha256::digest` (the `digest` method of the `Digest` trait): the result is
/// the SHA-256 digest of `data`, which is 32 bytes long.
#[verifier::external_body]
fn sha256(data: &Vec<u8>) -> (digest: Vec<u8>)
    ensures
        digest@ == sha256_digest(data@),
        digest@.len() == 32,
{
    <sha2::Sha256 as sha2::Digest>::digest(data).to_vec()
}

/// A 256-bit value: a hash or an account identifier.
#[derive(Clone, Copy, Debug, PartialEq, Eq, Structural, Hash, PartialOrd, Ord)]
pub struct UInt256 {
    pub hi: u128,
    pub lo: u128,
}

impl UInt256 {
    /// The 256 bits, most significant first.
    pub open spec fn bits(self) -> Seq<bool> {
        uint_bits(self.hi as nat, 128) + uint_bits(self.lo as nat, 128)
    }

    /// The value that 32 bytes denote, most significant byte first.
    pub open spec fn of_bytes(bytes: Seq<u8>) -> UInt256 {
        let bits = bytes_bits(bytes);
        UInt256 {
            hi: bits_uint(bits.subrange(0, 128)) as u128,
            lo: bits_uint(bits.subrange(128, 256)) as u128,
        }
    }

    pub fn new(hi: u128, lo: u128) -> (r: UInt256)
        ensures
            r.hi == hi,
            r.lo == lo,
    {
        UInt256 { hi, lo }
    }

    /// The value that 32 bytes denote, most significant byte first, and none for another
    /// number of bytes.
    pub fn from_be_bytes(bytes: &Vec<u8>) -> (r: Option<UInt256>)
        ensures
            r == if bytes@.len() == 32 {
                Some(Self::of_bytes(bytes@))
            } else {
                None
            },
    {
        if bytes.len() != 32 {
            return None;
        }
        let mut bits: Vec<bool> = Vec::new();
        let mut i: usize = 0;
        while i < 32
            invariant
                i <= 32,
                bytes.len() == 32,
                bits@ == bytes_bits(bytes@.subrange(0, i as int)),
                bits@.len() == 8 * i,
            decreases 32 - i,
        {
            proof {
                let s = bytes@.subrange(0, i + 1);
                assert(s.drop_last() =~= bytes@.subrange(0, i as int));
                lemma_uint_bits_len(bytes@[i as int] as nat, 8);
            }
            push_uint(&mut bits, bytes[i] as u128, 8);
            i = i + 1;
        }
        assert(bytes@.subrange(0, 32) =~= bytes@);
        let hi = read_uint(&bits, 0, 128);
        let lo = read_uint(&bits, 128, 128);
        Some(UInt256 { hi, lo })
    }

    /// Appends the 256 bits to `out`.
    pub fn push_bits(&self, out: &mut Vec<bool>)
        ensures
            final(out)@ == old(out)@ + self.bits(),
    {
        push_uint(out, self.hi, 128);
        push_uint(out, self.lo, 128);
        assert(out@ =~= old(out)@ + self.bits());
    }
}

/// Two 256-bit values with the same bits are the same value.
pub proof fn lemma_hash_bits_injective(a: UInt256, b: UInt256)
    requires
        a.bits() == b.bits(),
    ensures
        a == b,
{
    lemma_uint_bits_len(a.hi as nat, 128);
    lemma_uint_bits_len(b.hi as nat, 128);
    lemma_uint_bits_len(a.lo as nat, 128);
    lemma_uint_bits_len(b.lo as nat, 128);
    lemma_pow2_128();
    assert(a.bits().subrange(0, 128) =~= uint_bits(a.hi as nat, 128));
    assert(b.bits().subrange(0, 128) =~= uint_bits(b.hi as nat, 128));
    assert(a.bits().subrange(128, 256) =~= uint_bits(a.lo as nat, 128));
    assert(b.bits().subrange(128, 256) =~= uint_bits(b.lo as nat, 128));
    crate::bits::lemma_uint_bits_injective(a.hi as nat, b.hi as nat, 128);
    crate::bits::lemma_uint_bits_injective(a.lo as nat, b.lo as nat, 128);
}

/// The bits of a byte string, each byte most significant bit first.
pub open spec fn bytes_bits(bytes: Seq<u8>) -> Seq<bool>
    decreases bytes.len(),
{
    if bytes.len() == 0 {
        Seq::empty()
    } else {
        bytes_bits(bytes.drop_last()) + uint_bits(bytes.last() as nat, 8)
    }
}

/// The bytes of a bit string whose length is a multiple of eight.
pub open spec fn pack_bytes(bits: Seq<bool>) -> Seq<u8> {
    Seq::new(bits.len() / 8, |i: int| bits_uint(bits.subrange(8 * i, 8 * i + 8)) as u8)
}

/// A node's bits, completed to whole bytes: a one and then zeros follow a last byte that is
/// not full.
pub open spec fn padded_bits(bits: Seq<bool>) -> Seq<bool> {
    if bits.len() % 8 == 0 {
        bits
    } else {
        bits.push(true) + uint_bits(0, (7 - bits.len() % 8) as nat)
    }
}

/// What the hash of a node takes of a child: the depth of the child and its hash.
pub struct Link {
    pub depth: nat,
    pub hash: UInt256,
}

/// The depths of the children, in order, each on 16 bits.
pub open spec fn depths_bits(links: Seq<Link>) -> Seq<bool>
    decreases links.len(),
{
    if links.len() == 0 {
        Seq::empty()
    } else {
        depths_bits(links.drop_last()) + uint_bits(links.last().depth, 16)
    }
}

/// The hashes of the children, in order, as bits.
pub open spec fn hashes_bits(links: Seq<Link>) -> Seq<bool>
    decreases links.len(),
{
    if links.len() == 0 {
        Seq::empty()
    } else {
        hashes_bits(links.drop_last()) + links.last().hash.bits()
    }
}

/// What is hashed of a node: the number of its children, the length of its bits in
/// half-bytes rounded down and up, its bits completed to whole bytes, the depths of its
/// children and the hashes of its children.
pub open spec fn repr_bits(bits: Seq<bool>, links: Seq<Link>) -> Seq<bool> {
    uint_bits(links.len(), 8) + uint_bits(bits.len() / 8 + (bits.len() + 7) / 8, 8) + padded_bits(
        bits,
    ) + depths_bits(links) + hashes_bits(links)
}

/// The hash of a node with the given bits and children with the given depths and
/// hashes.
pub open spec fn hash_of(bits: Seq<bool>, links: Seq<Link>) -> UInt256 {
    UInt256::of_bytes(sha256_digest(pack_bytes(repr_bits(bits, links))))
}

/// What the hash of a parent takes of each of its children: their depths and hashes.
pub open spec fn links_of(cells: Seq<Cell>) -> Seq<Link> {
    Seq::new(cells.len(), |i: int| Link { depth: cells[i].depth(), hash: cells[i].hash() })
}

/// The greatest depth among `cells`, and zero where there are none.
pub open spec fn deepest(cells: Seq<Cell>) -> nat
    decreases cells.len(),
{
    if cells.len() == 0 {
        0
    } else {
        let rest = deepest(cells.drop_last());
        let last = cells.last().depth();
        if last > rest {
            last
        } else {
            rest
        }
    }
}

/// The depth of a node with the children `refs`: zero where it has none, and one more
/// than the depth of its deepest child otherwise, held at `u16::MAX`.
pub open spec fn depth_over(refs: Seq<Cell>) -> nat {
    if refs.len() == 0 {
        0
    } else if deepest(refs) + 1 > u16::MAX {
        u16::MAX as nat
    } else {
        deepest(refs) + 1
    }
}

/// The sum of two counts, held at `u64::MAX`.
pub open spec fn sat_add(a: nat, b: nat) -> nat {
    if a + b > u64::MAX {
        u64::MAX as nat
    } else {
        a + b
    }
}

/// The sum of what `f` gives for each node, held at `u64::MAX`.
pub open spec fn sat_sum(cells: Seq<Cell>, f: spec_fn(Cell) -> nat) -> nat
    decreases cells.len(),
{
    if cells.len() == 0 {
        0
    } else {
        sat_add(sat_sum(cells.drop_last(), f), f(cells.last()))
    }
}

/// What `f` gives for one of some nodes is no more than the sum over all of them, unless
/// the sum is held at `u64::MAX`.
pub proof fn lemma_sat_sum_one(cells: Seq<Cell>, f: spec_fn(Cell) -> nat, i: int)
    requires
        0 <= i < cells.len(),
    ensures
        sat_sum(cells, f) == u64::MAX || f(cells[i]) <= sat_sum(cells, f) < u64::MAX,
    decreases cells.len(),
{
    if i < cells.len() - 1 {
        lemma_sat_sum_one(cells.drop_last(), f, i);
    }
}

/// What `f` gives for two of some nodes is together no more than the sum over all of
/// them, unless the sum is held at `u64::MAX`.
pub proof fn lemma_sat_sum_two(cells: Seq<Cell>, f: spec_fn(Cell) -> nat, i: int, j: int)
    requires
        0 <= i < j < cells.len(),
    ensures
        sat_sum(cells, f) == u64::MAX || f(cells[i]) + f(cells[j]) <= sat_sum(cells, f) < u64::MAX,
    decreases cells.len(),
{
    if j < cells.len() - 1 {
        lemma_sat_sum_two(cells.drop_last(), f, i, j);
    } else {
        lemma_sat_sum_one(cells.drop_last(), f, i);
    }
}

/// The sum over one node or two is no more than what `f` gives for them.
pub proof fn lemma_sat_sum_short(cells: Seq<Cell>, f: spec_fn(Cell) -> nat)
    requires
        cells.len() <= 2,
    ensures
        cells.len() == 0 ==> sat_sum(cells, f) == 0,
        cells.len() == 1 ==> sat_sum(cells, f) <= f(cells[0]),
        cells.len() == 2 ==> sat_sum(cells, f) <= f(cells[0]) + f(cells[1]),
    decreases cells.len(),
{
    if cells.len() > 0 {
        lemma_sat_sum_short(cells.drop_last(), f);
    }
}

/// The sum over nodes for each of which `f` gives at most `bound` is at most `bound` for
/// each of them.
pub proof fn lemma_sat_sum_bounded(cells: Seq<Cell>, f: spec_fn(Cell) -> nat, bound: nat)
    requires
        forall|i: int| 0 <= i < cells.len() ==> f(#[trigger] cells[i]) <= bound,
    ensures
        sat_sum(cells, f) <= cells.len() * bound,
    decreases cells.len(),
{
    if cells.len() > 0 {
        assert forall|i: int| 0 <= i < cells.drop_last().len() implies f(
            #[trigger] cells.drop_last()[i],
        ) <= bound by {
            assert(cells.drop_last()[i] == cells[i]);
        }
        lemma_sat_sum_bounded(cells.drop_last(), f, bound);
        assert(f(cells[cells.len() - 1]) <= bound);
        assert(cells.len() * bound == (cells.len() - 1) * bound + bound) by (nonlinear_arith);
    }
}

/// The number of nodes that a node carries, and nothing where there is no node.
pub open spec fn cells_below(node: Option<Cell>) -> nat {
    match node {
        Some(c) => c.tree_cells(),
        None => 0,
    }
}

/// The number of bits that a node carries, and nothing where there is no node.
pub open spec fn bits_below(node: Option<Cell>) -> nat {
    match node {
        Some(c) => c.tree_bits(),
        None => 0,
    }
}

/// The number of nodes of a tree whose root has the children `refs`, each node counted
/// as often as it is referred to, held at `u64::MAX`.
pub open spec fn tree_cells_of(refs: Seq<Cell>) -> nat {
    sat_add(1, sat_sum(refs, |c: Cell| c.tree_cells()))
}

/// The number of bits of a tree whose root holds `bit_len` bits and has the children
/// `refs`, each node counted as often as it is referred to, held at `u64::MAX`.
pub open spec fn tree_bits_of(bit_len: nat, refs: Seq<Cell>) -> nat {
    sat_add(bit_len, sat_sum(refs, |c: Cell| c.tree_bits()))
}

fn sat_add_u64(a: u64, b: u64) -> (r: u64)
    ensures
        r == sat_add(a as nat, b as nat),
{
    if a > u64::MAX - b {
        u64::MAX
    } else {
        a + b
    }
}

#[derive(Debug)]
struct CellData {
    bits: Vec<bool>,
    refs: Vec<Cell>,
    hash: UInt256,
    depth: u16,
    pruned: bool,
    tree_cells: u64,
    tree_bits: u64,
}

impl CellData {
    #[verifier::type_invariant]
    spec fn inv(self) -> bool {
        &&& self.bits@.len() <= MAX_DATA_BITS
        &&& self.refs@.len() <= MAX_REFERENCES
        &&& self.pruned ==> self.bits@.len() == 0 && self.refs@.len() == 0
        &&& !self.pruned ==> self.hash == hash_of(self.bits@, links_of(self.refs@))
        &&& !self.pruned ==> self.depth == depth_over(self.refs@)
        &&& self.tree_cells == sat_add(1, sat_sum(self.refs@, |c: Cell| c.tree_cells()))
        &&& self.tree_bits == sat_add(
            self.bits@.len(),
            sat_sum(self.refs@, |c: Cell| c.tree_bits()),
        )
    }
}

/// An immutable node of the graph. It is either an ordinary node, whose hash is the hash
/// of its bits and of the depths and hashes of its children, or a placeholder that stands
/// for a subtree and holds nothing but the hash and the depth of that subtree.
#[derive(Debug)]
pub struct Cell {
    node: Arc<CellData>,
}

/// A bit string and a list of nodes: what a node holds, what a builder has gathered, or
/// what a reader has not yet read.
#[verifier::ext_equal]
pub struct Payload {
    pub bits: Seq<bool>,
    pub refs: Seq<Cell>,
}

impl Payload {
    pub open spec fn empty() -> Payload {
        Payload { bits: Seq::empty(), refs: Seq::empty() }
    }

    pub open spec fn concat(self, other: Payload) -> Payload {
        Payload { bits: self.bits + other.bits, refs: self.refs + other.refs }
    }

    pub open spec fn of_bits(bits: Seq<bool>) -> Payload {
        Payload { bits, refs: Seq::empty() }
    }

    pub open spec fn of_ref(cell: Cell) -> Payload {
        Payload { bits: Seq::empty(), refs: seq![cell] }
    }

    /// Whether one node can hold this.
    pub open spec fn fits(self) -> bool {
        self.bits.len() <= MAX_DATA_BITS && self.refs.len() <= MAX_REFERENCES
    }
}

/// Two nodes are the same node where their hashes are equal.
impl PartialEq for Cell {
    fn eq(&self, other: &Cell) -> (r: bool) {
        self.node.hash == other.node.hash
    }
}

impl Eq for Cell {

}

impl PartialEqSpecImpl for Cell {
    open spec fn obeys_eq_spec() -> bool {
        true
    }

    open spec fn eq_spec(&self, other: &Cell) -> bool {
        self.hash() == other.hash()
    }
}

/// Whether two optional nodes are both absent, or both present with the same hash.
pub open spec fn same_node(a: Option<Cell>, b: Option<Cell>) -> bool {
    match (a, b) {
        (None, None) => true,
        (Some(x), Some(y)) => x.hash() == y.hash(),
        _ => false,
    }
}

impl Clone for Cell {
    fn clone(&self) -> (c: Cell)
        ensures
            c == *self,
    {
        Cell { node: self.node.clone() }
    }
}

impl Cell {
    /// The node's own bits.
    pub closed spec fn bits(&self) -> Seq<bool> {
        self.node.bits@
    }

    /// The node's children, in order.
    pub closed spec fn refs(&self) -> Seq<Cell> {
        self.node.refs@
    }

    /// The hash that identifies the node.
    pub closed spec fn hash(&self) -> UInt256 {
        self.node.hash
    }

    /// Whether the node is a placeholder for a subtree that was left out.
    pub closed spec fn is_pruned(&self) -> bool {
        self.node.pruned
    }

    /// The number of nodes on the longest way down from this node, itself not counted.
    /// A placeholder has the depth of the subtree that it stands for.
    pub closed spec fn depth(&self) -> nat {
        self.node.depth as nat
    }

    /// The number of nodes of the tree below and including this one, each counted as often
    /// as it is referred to, held at `u64::MAX`.
    pub closed spec fn tree_cells(&self) -> nat {
        self.node.tree_cells as nat
    }

    /// The number of bits of the tree below and including this one, each node counted as
    /// often as it is referred to, held at `u64::MAX`.
    pub closed spec fn tree_bits(&self) -> nat {
        self.node.tree_bits as nat
    }

    pub open spec fn payload(&self) -> Payload {
        Payload { bits: self.bits(), refs: self.refs() }
    }

    /// Whether this is the ordinary node that holds `layout`: it has the bits and the
    /// children of `layout`, and the hash of these.
    pub open spec fn holds(&self, layout: Payload) -> bool {
        &&& self.payload() == layout
        &&& !self.is_pruned()
        &&& self.hash() == hash_of(layout.bits, links_of(layout.refs))
    }

    /// The number of nodes on the longest way down from this node, itself included.
    pub closed spec fn height(&self) -> nat
        decreases self,
    {
        1 + Self::tallest(self.node.refs@)
    }

    /// The greatest height among `cells`, and zero where there are none.
    pub closed spec fn tallest(cells: Seq<Cell>) -> nat
        decreases cells,
    {
        if cells.len() == 0 {
            0
        } else {
            let rest = Self::tallest(cells.drop_last());
            let last = cells.last().height();
            if last > rest {
                last
            } else {
                rest
            }
        }
    }

    proof fn lemma_tallest(cells: Seq<Cell>, i: int)
        requires
            0 <= i < cells.len(),
        ensures
            cells[i].height() <= Self::tallest(cells),
        decreases cells.len(),
    {
        if i < cells.len() - 1 {
            Self::lemma_tallest(cells.drop_last(), i);
        }
    }

    /// The children of a node are all less high than the node.
    pub proof fn lemma_tallest_refs(&self)
        ensures
            Self::tallest(self.refs()) < self.height(),
    {
    }

    /// The last of some nodes, and the others, are at most as high as the highest.
    pub proof fn lemma_tallest_step(cells: Seq<Cell>)
        requires
            cells.len() > 0,
        ensures
            Self::tallest(cells.drop_last()) <= Self::tallest(cells),
            cells.last().height() <= Self::tallest(cells),
    {
    }

    /// The counts that a node carries are held at `u64::MAX`.
    pub proof fn lemma_counts_held(&self)
        ensures
            self.tree_cells() <= u64::MAX,
            self.tree_bits() <= u64::MAX,
    {
    }

    /// A child is less high than its parent.
    pub proof fn lemma_child_height(&self, i: int)
        requires
            0 <= i < self.refs().len(),
        ensures
            self.refs()[i].height() < self.height(),
    {
        Self::lemma_tallest(self.node.refs@, i);
    }

    /// What holds of one node by construction.
    pub open spec fn node_ok(&self) -> bool {
        &&& self.bits().len() <= MAX_DATA_BITS
        &&& self.refs().len() <= MAX_REFERENCES
        &&& self.is_pruned() ==> self.bits().len() == 0 && self.refs().len() == 0
        &&& !self.is_pruned() ==> self.hash() == hash_of(self.bits(), links_of(self.refs()))
        &&& !self.is_pruned() ==> self.depth() == depth_over(self.refs())
        &&& self.tree_cells() == sat_add(1, sat_sum(self.refs(), |c: Cell| c.tree_cells()))
        &&& self.tree_bits() == sat_add(
            self.bits().len(),
            sat_sum(self.refs(), |c: Cell| c.tree_bits()),
        )
    }

    /// What holds of a node and of every node below it by construction.
    pub open spec fn wf(&self) -> bool
        decreases self,
    {
        &&& self.node_ok()
        &&& forall|i: int| 0 <= i < self.refs().len() ==> (#[trigger] self.refs()[i]).wf()
    }

    /// An ordinary node with the given bits and children.
    pub(crate) fn with_content(bits: Vec<bool>, refs: Vec<Cell>) -> (c: Cell)
        requires
            bits@.len() <= MAX_DATA_BITS,
            refs@.len() <= MAX_REFERENCES,
        ensures
            c.bits() == bits@,
            c.refs() == refs@,
            !c.is_pruned(),
            c.hash() == hash_of(bits@, links_of(refs@)),
            c.depth() == depth_over(refs@),
            c.node_ok(),
    {
        let hash = calculate_hash(&bits, &refs);
        let depth = calculate_depth(&refs);
        let mut tree_cells: u64 = 0;
        let mut tree_bits: u64 = 0;
        let mut i: usize = 0;
        while i < refs.len()
            invariant
                i <= refs.len(),
                tree_cells == sat_sum(refs@.subrange(0, i as int), |c: Cell| c.tree_cells()),
                tree_bits == sat_sum(refs@.subrange(0, i as int), |c: Cell| c.tree_bits()),
            decreases refs.len() - i,
        {
            proof {
                let s = refs@.subrange(0, i + 1);
                assert(s.drop_last() =~= refs@.subrange(0, i as int));
            }
            tree_cells = sat_add_u64(tree_cells, refs[i].node.tree_cells);
            tree_bits = sat_add_u64(tree_bits, refs[i].node.tree_bits);
            i = i + 1;
        }
        assert(refs@.subrange(0, refs.len() as int) =~= refs@);
        let tree_cells = sat_add_u64(1, tree_cells);
        let tree_bits = sat_add_u64(bits.len() as u64, tree_bits);
        Cell {
            node: Arc::new(
                CellData { bits, refs, hash, depth, pruned: false, tree_cells, tree_bits },
            ),
        }
    }

    /// A placeholder for a subtree of which only the hash and the depth are told.
    pub fn pruned_branch(hash: UInt256, depth: u16) -> (c: Cell)
        ensures
            c.is_pruned(),
            c.hash() == hash,
            c.depth() == depth,
            c.bits().len() == 0,
            c.refs().len() == 0,
            c.wf(),
    {
        let c = Cell {
            node: Arc::new(
                CellData {
                    bits: Vec::new(),
                    refs: Vec::new(),
                    hash,
                    depth,
                    pruned: true,
                    tree_cells: 1,
                    tree_bits: 0,
                },
            ),
        };
        c
    }

    /// The hash that identifies the node.
    pub fn repr_hash(&self) -> (h: UInt256)
        ensures
            h == self.hash(),
            self.node_ok(),
    {
        proof {
            use_type_invariant(&*self.node);
        }
        self.node.hash
    }

    /// The hash of the node, computed anew from its bits and from the hashes of its
    /// children, each computed anew in the same way. A placeholder has the hash it was
    /// made with.
    pub fn recomputed_hash(&self) -> (h: UInt256)
        ensures
            h == self.hash(),
        decreases self.height(),
    {
        proof {
            use_type_invariant(&*self.node);
        }
        if self.node.pruned {
            return self.node.hash;
        }
        let mut children: Vec<Cell> = Vec::new();
        let mut i: usize = 0;
        while i < self.node.refs.len()
            invariant
                i <= self.node.refs.len(),
                self.node.refs@ == self.refs(),
                children@.len() == i,
                forall|j: int|
                    0 <= j < i ==> (#[trigger] children@[j]).hash() == self.refs()[j].hash()
                        && children@[j].depth() == self.refs()[j].depth(),
            decreases self.node.refs.len() - i,
        {
            proof {
                self.lemma_child_height(i as int);
            }
            let h = self.node.refs[i].recomputed_hash();
            children.push(Cell::pruned_branch(h, self.node.refs[i].node.depth));
            i = i + 1;
        }
        assert(links_of(children@) =~= links_of(self.refs()));
        calculate_hash(&self.node.bits, &children)
    }

    /// The depth of the node.
    pub fn repr_depth(&self) -> (d: u16)
        ensures
            d == self.depth(),
    {
        self.node.depth
    }

    pub fn is_pruned_branch(&self) -> (b: bool)
        ensures
            b == self.is_pruned(),
    {
        self.node.pruned
    }

    /// The number of the node's own bits.
    pub fn bit_length(&self) -> (n: usize)
        ensures
            n == self.bits().len(),
            n <= MAX_DATA_BITS,
            self.node_ok(),
    {
        proof {
            use_type_invariant(&*self.node);
        }
        self.node.bits.len()
    }

    /// The node's own bits.
    pub fn data(&self) -> (bits: &Vec<bool>)
        ensures
            bits@ == self.bits(),
            bits@.len() <= MAX_DATA_BITS,
    {
        proof {
            use_type_invariant(&*self.node);
        }
        &self.node.bits
    }

    pub fn references_count(&self) -> (n: usize)
        ensures
            n == self.refs().len(),
            n <= MAX_REFERENCES,
    {
        proof {
            use_type_invariant(&*self.node);
        }
        self.node.refs.len()
    }

    /// The child at `index`, or `None` where the node has no such child.
    pub fn reference(&self, index: usize) -> (r: Option<Cell>)
        ensures
            r == if index < self.refs().len() {
                Some(self.refs()[index as int])
            } else {
                None
            },
    {
        if index < self.node.refs.len() {
            Some(self.node.refs[index].clone())
        } else {
            None
        }
    }

    pub fn tree_cell_count(&self) -> (n: u64)
        ensures
            n == self.tree_cells(),
    {
        self.node.tree_cells
    }

    pub fn tree_bits_count(&self) -> (n: u64)
        ensures
            n == self.tree_bits(),
    {
        self.node.tree_bits
    }
}

fn calculate_hash(bits: &Vec<bool>, refs: &Vec<Cell>) -> (h: UInt256)
    requires
        bits@.len() <= MAX_DATA_BITS,
        refs@.len() <= MAX_REFERENCES,
    ensures
        h == hash_of(bits@, links_of(refs@)),
{
    let ghost hashes = links_of(refs@);
    let mut repr: Vec<bool> = Vec::new();
    push_uint(&mut repr, refs.len() as u128, 8);
    push_uint(&mut repr, (bits.len() / 8 + (bits.len() + 7) / 8) as u128, 8);
    let ghost head = repr@;
    crate::bits::extend_bits(&mut repr, bits, 0);
    assert(repr@ =~= head + bits@);
    if bits.len() % 8 != 0 {
        repr.push(true);
        push_uint(&mut repr, 0, 7 - bits.len() % 8);
    }
    assert(repr@ =~= head + padded_bits(bits@));
    proof {
        lemma_uint_bits_len(hashes.len(), 8);
        lemma_uint_bits_len((bits@.len() / 8 + (bits@.len() + 7) / 8) as nat, 8);
        lemma_uint_bits_len(0, (7 - bits@.len() % 8) as nat);
    }
    let ghost body = repr@;
    let mut d: usize = 0;
    while d < refs.len()
        invariant
            d <= refs.len() <= MAX_REFERENCES,
            hashes == links_of(refs@),
            repr@ == body + depths_bits(hashes.subrange(0, d as int)),
            repr@.len() == body.len() + 16 * d,
        decreases refs.len() - d,
    {
        proof {
            let s = hashes.subrange(0, d + 1);
            assert(s.drop_last() =~= hashes.subrange(0, d as int));
            assert(s.last().depth == refs@[d as int].depth());
            lemma_uint_bits_len(refs@[d as int].depth(), 16);
        }
        push_uint(&mut repr, refs[d].repr_depth() as u128, 16);
        d = d + 1;
    }
    assert(hashes.subrange(0, refs.len() as int) =~= hashes);
    let ghost with_depths = repr@;
    let mut k: usize = 0;
    while k < refs.len()
        invariant
            k <= refs.len() <= MAX_REFERENCES,
            hashes == links_of(refs@),
            repr@ == with_depths + hashes_bits(hashes.subrange(0, k as int)),
            repr@.len() == with_depths.len() + 256 * k,
        decreases refs.len() - k,
    {
        proof {
            let s = hashes.subrange(0, k + 1);
            assert(s.drop_last() =~= hashes.subrange(0, k as int));
            assert(s.last().hash == refs@[k as int].hash());
            lemma_uint_bits_len(refs@[k as int].hash().hi as nat, 128);
            lemma_uint_bits_len(refs@[k as int].hash().lo as nat, 128);
        }
        let h = refs[k].repr_hash();
        h.push_bits(&mut repr);
        k = k + 1;
    }
    assert(hashes.subrange(0, refs.len() as int) =~= hashes);
    assert(repr@ =~= repr_bits(bits@, hashes));
    assert(repr@.len() % 8 == 0);
    let bytes = pack(&repr);
    let digest = sha256(&bytes);
    match UInt256::from_be_bytes(&digest) {
        Some(h) => h,
        None => UInt256 { hi: 0, lo: 0 },
    }
}

fn calculate_depth(refs: &Vec<Cell>) -> (depth: u16)
    ensures
        depth == depth_over(refs@),
{
    if refs.len() == 0 {
        return 0;
    }
    let mut most: u16 = 0;
    let mut i: usize = 0;
    while i < refs.len()
        invariant
            i <= refs.len(),
            most == deepest(refs@.subrange(0, i as int)),
        decreases refs.len() - i,
    {
        proof {
            let s = refs@.subrange(0, i + 1);
            assert(s.drop_last() =~= refs@.subrange(0, i as int));
        }
        let d = refs[i].repr_depth();
        if d > most {
            most = d;
        }
        i = i + 1;
    }
    assert(refs@.subrange(0, refs.len() as int) =~= refs@);
    if most == u16::MAX {
        u16::MAX
    } else {
        most + 1
    }
}

fn pack(bits: &Vec<bool>) -> (bytes: Vec<u8>)
    ensures
        bytes@ == pack_bytes(bits@),
{
    let n = bits.len() / 8;
    let mut bytes: Vec<u8> = Vec::new();
    let mut i: usize = 0;
    while i < n
        invariant
            i <= n,
            n == bits.len() / 8,
            bytes@.len() == i,
            forall|j: int| 0 <= j < i ==> bytes@[j] == pack_bytes(bits@)[j],
        decreases n - i,
    {
        let v = read_uint(bits, 8 * i, 8);
        proof {
            lemma_bits_uint_bound(bits@.subrange(8 * i as int, 8 * i + 8));
            lemma_pow2_128();
        }
        bytes.push(v as u8);
        i = i + 1;
    }
    assert(bytes@ =~= pack_bytes(bits@));
    bytes
}

} // verus!
