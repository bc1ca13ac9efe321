//! The footprint of a graph of nodes: how many distinct nodes it has, and how many bits
//! they hold.
use crate::bits::{bits_uint, lemma_bits_uint_bound, uint_bits};
use crate::builder::{serialize, BuilderData, Fragment, Serializable};
use crate::cell::{sat_sum, tree_bits_of, tree_cells_of, Cell, Payload, UInt256};
use crate::codec::{lemma_concat_assoc, lemma_take_bit, lemma_take_hash, lemma_take_uint};
use crate::error::BlockError;
use crate::slice::SliceData;
use crate::text::{decimal, hash_text, push_decimal, push_hash};
use crate::types::{Grams, VarUInteger7, MAX_VAR_UINT7};
use rustc_hash::FxHashSet;
use vstd::arithmetic::power2::lemma2_to64;
use vstd::prelude::*;
use vstd::std_specs::cmp::PartialEqSpecImpl;
use vstd::string::*;

verus! {

/// `rustc_hash::FxBuildHasher`, which makes the hashers of the sets of visited hashes.
/// Nothing is claimed of what a value of it holds.
#[verifier::external_type_specification]
#[verifier::external_body]
pub struct ExFxBuildHasher(rustc_hash::FxBuildHasher);

/// The pair of numbers under which a hash is kept in a set of visited hashes.
pub open spec fn hash_key(h: UInt256) -> (u128, u128) {
    (h.hi, h.lo)
}

/// The hashes whose keys a set of keys holds.
pub open spec fn hashes_with_keys(keys: Set<(u128, u128)>) -> Set<UInt256> {
    Set::new(|h: UInt256| keys.contains(hash_key(h)))
}

/// An empty set of visited hashes.
pub(crate) fn visited_new() -> (set: FxHashSet<(u128, u128)>)
    ensures
        set@ == Set::<(u128, u128)>::empty(),
{
    FxHashSet::default()
}

/// Calls `HashSet::insert` of std on an `FxHashSet` of `rustc_hash`: the key is in the
/// set afterwards, nothing else changes, and the result says whether the key was new.
#[verifier::external_body]
pub(crate) fn visited_insert(set: &mut FxHashSet<(u128, u128)>, key: (u128, u128)) -> (fresh: bool)
    ensures
        final(set)@ == old(set)@.insert(key),
        fresh == !old(set)@.contains(key),
{
    set.insert(key)
}

/// Calls `HashSet::contains` of std on an `FxHashSet` of `rustc_hash`: the result says
/// whether the key is in the set.
#[verifier::external_body]
pub(crate) fn visited_contains(set: &FxHashSet<(u128, u128)>, key: (u128, u128)) -> (found: bool)
    ensures
        found == set@.contains(key),
{
    set.contains(&key)
}

/// Calls `HashSet::clone` of std on an `FxHashSet` of `rustc_hash`: the result holds the
/// same keys.
#[verifier::external_body]
pub(crate) fn visited_clone(set: &FxHashSet<(u128, u128)>) -> (copy: FxHashSet<(u128, u128)>)
    ensures
        copy@ == set@,
{
    set.clone()
}

/// The state of a walk over a graph: the counts so far, the hashes met, and whether a
/// count would have passed the bound of a count, at which the walk has failed.
pub struct Walk {
    pub cells: nat,
    pub bits: nat,
    pub seen: Set<UInt256>,
    pub failed: bool,
}

impl Walk {
    /// The walk that has met nothing.
    pub open spec fn start() -> Walk {
        Walk { cells: 0, bits: 0, seen: Set::empty(), failed: false }
    }

    /// The walk after a node that was not met before is counted: one node more, its own
    /// bits more, and its hash met. The walk fails where one of the counts would pass the
    /// bound of a count.
    pub open spec fn counted(self, hash: UInt256, bit_len: nat) -> Walk {
        if self.cells + 1 > MAX_VAR_UINT7 || self.bits + bit_len > MAX_VAR_UINT7 {
            Walk { failed: true, ..self }
        } else {
            Walk {
                cells: self.cells + 1,
                bits: self.bits + bit_len,
                seen: self.seen.insert(hash),
                failed: false,
            }
        }
    }

    /// The walk after `cell` and what is below it, depth first. A node whose hash was
    /// met before is passed over with all that is below it; a node met for the first time
    /// counts once, with its own bits, and its children follow in order. A walk that has
    /// failed stays as it is.
    pub open spec fn visit(self, cell: Cell) -> Walk
        decreases cell.height(), 0nat,
    {
        if self.failed || self.seen.contains(cell.hash()) {
            self
        } else {
            proof {
                cell.lemma_tallest_refs();
            }
            self.counted(cell.hash(), cell.bits().len()).visit_all(cell.refs())
        }
    }

    /// The walk after each of `cells` in order.
    pub open spec fn visit_all(self, cells: Seq<Cell>) -> Walk
        decreases Cell::tallest(cells), cells.len(),
    {
        if cells.len() == 0 {
            self
        } else {
            proof {
                Cell::lemma_tallest_step(cells);
            }
            self.visit_all(cells.drop_last()).visit(cells.last())
        }
    }

    /// The walk, from nothing met, over a node that holds `layout` and over what is
    /// below it.
    pub open spec fn of_layout(layout: Payload) -> Walk {
        Walk::start().counted(
            crate::cell::hash_of(layout.bits, crate::cell::links_of(layout.refs)),
            layout.bits.len(),
        ).visit_all(layout.refs)
    }

    /// An ordinary node that holds `layout` is walked as `of_layout` says.
    pub proof fn lemma_of_layout(layout: Payload, root: Cell)
        requires
            root.holds(layout),
        ensures
            Walk::start().visit(root) == Walk::of_layout(layout),
    {
    }

    /// A walk that has failed stays as it is, whatever follows.
    pub proof fn lemma_failed_stays(self, cells: Seq<Cell>)
        requires
            self.failed,
        ensures
            self.visit_all(cells) == self,
        decreases cells.len(),
    {
        if cells.len() > 0 {
            self.lemma_failed_stays(cells.drop_last());
            assert(self.visit_all(cells) == self.visit_all(cells.drop_last()).visit(cells.last()));
            assert(self.visit(cells.last()) == self);
        }
    }

    /// A walk that has failed after the first `k` of some nodes has failed after all
    /// of them.
    pub proof fn lemma_failed_prefix(self, cells: Seq<Cell>, k: int)
        requires
            0 <= k <= cells.len(),
            self.visit_all(cells.take(k)).failed,
        ensures
            self.visit_all(cells) == self.visit_all(cells.take(k)),
        decreases cells.len() - k,
    {
        if k == cells.len() {
            assert(cells.take(k) =~= cells);
        } else {
            assert(cells.drop_last().take(k) =~= cells.take(k));
            self.lemma_failed_prefix(cells.drop_last(), k);
            let before = self.visit_all(cells.drop_last());
            assert(self.visit_all(cells) == before.visit(cells.last()));
            assert(before.visit(cells.last()) == before);
        }
    }
}

/// The footprint of a node that holds `layout` and of what is below it, or why there is
/// none: the layout is longer than one node, or a count would pass the bound of a count.
pub open spec fn footprint_of(layout: Payload) -> Result<Walk, BlockError> {
    if !layout.fits() {
        Err(BlockError::CellOverflow)
    } else if Walk::of_layout(layout).failed {
        Err(BlockError::IntegerOverflow)
    } else {
        Ok(Walk::of_layout(layout))
    }
}

/// Whether the counts that the node of `layout` carries, in which a node counts as often
/// as it is referred to, are within the bound of a count.
pub open spec fn layout_has_room(layout: Payload) -> bool {
    tree_cells_of(layout.refs) <= MAX_VAR_UINT7 && tree_bits_of(layout.bits.len(), layout.refs)
        <= MAX_VAR_UINT7
}

/// The counts and the keys of the hashes met, as the state of a walk that has not failed.
pub open spec fn walk_of(cells: VarUInteger7, bits: VarUInteger7, keys: Set<(u128, u128)>) -> Walk {
    Walk { cells: cells@, bits: bits@, seen: hashes_with_keys(keys), failed: false }
}

/// Whether there is room in the counts for every node and bit of the tree below `cell`,
/// each node taken as often as it is referred to.
pub open spec fn has_room(cells: nat, bits: nat, cell: Cell) -> bool {
    cells + cell.tree_cells() <= MAX_VAR_UINT7 && bits + cell.tree_bits() <= MAX_VAR_UINT7
}

proof fn lemma_sat_sum_prefix(cells: Seq<Cell>, f: spec_fn(Cell) -> nat, k: int)
    requires
        0 <= k <= cells.len(),
    ensures
        sat_sum(cells.take(k), f) <= sat_sum(cells, f) <= u64::MAX,
    decreases cells.len() - k,
{
    if k == cells.len() {
        assert(cells.take(k) =~= cells);
    } else {
        assert(cells.drop_last().take(k) =~= cells.take(k));
        lemma_sat_sum_prefix(cells.drop_last(), f, k);
    }
}

/// Walks `cell` and what is below it, and adds to the counts what was not met before. It
/// fails where a count would pass the bound of a count; the counts and the set are then
/// to be thrown away. It does not fail where there is room for the whole tree, and it
/// never adds more than the tree holds.
fn walk_cell(
    cells: &mut VarUInteger7,
    bits: &mut VarUInteger7,
    hashes: &mut FxHashSet<(u128, u128)>,
    cell: &Cell,
) -> (r: Result<(), BlockError>)
    ensures
        match r {
            Ok(()) => walk_of(*final(cells), *final(bits), final(hashes)@) == walk_of(
                *old(cells),
                *old(bits),
                old(hashes)@,
            ).visit(*cell),
            Err(e) => e == BlockError::IntegerOverflow && walk_of(
                *old(cells),
                *old(bits),
                old(hashes)@,
            ).visit(*cell).failed,
        },
        final(cells).wf() && final(bits).wf(),
        has_room(old(cells)@, old(bits)@, *cell) ==> r is Ok,
        r is Ok ==> final(cells)@ <= old(cells)@ + cell.tree_cells() && final(bits)@ <= old(bits)@
            + cell.tree_bits(),
    decreases cell.height(),
{
    let ghost before = walk_of(*old(cells), *old(bits), old(hashes)@);
    let ghost tree_cells = |c: Cell| c.tree_cells();
    let ghost tree_bits = |c: Cell| c.tree_bits();
    let h = cell.repr_hash();
    let c0 = cells.as_u64();
    let b0 = bits.as_u64();
    proof {
        lemma_sat_sum_prefix(cell.refs(), tree_cells, 0);
        lemma_sat_sum_prefix(cell.refs(), tree_bits, 0);
    }
    if !visited_insert(hashes, (h.hi, h.lo)) {
        assert(hashes_with_keys(hashes@) =~= before.seen);
        return Ok(());
    }
    let ghost entered = before.counted(cell.hash(), cell.bits().len());
    assert(before.visit(*cell) == entered.visit_all(cell.refs()));
    if !cells.add_checked(1) {
        proof {
            entered.lemma_failed_stays(cell.refs());
        }
        return Err(BlockError::IntegerOverflow);
    }
    if !bits.add_checked(cell.bit_length() as u64) {
        proof {
            entered.lemma_failed_stays(cell.refs());
        }
        return Err(BlockError::IntegerOverflow);
    }
    assert(hashes_with_keys(hashes@) =~= entered.seen);
    let n = cell.references_count();
    let mut i: usize = 0;
    while i < n
        invariant
            i <= n,
            n == cell.refs().len(),
            cells.wf() && bits.wf(),
            before == walk_of(*old(cells), *old(bits), old(hashes)@),
            before.visit(*cell) == entered.visit_all(cell.refs()),
            cell.node_ok(),
            tree_cells == |c: Cell| c.tree_cells(),
            tree_bits == |c: Cell| c.tree_bits(),
            cells@ <= old(cells)@ + 1 + sat_sum(cell.refs().take(i as int), tree_cells),
            bits@ <= old(bits)@ + cell.bits().len() + sat_sum(
                cell.refs().take(i as int),
                tree_bits,
            ),
            walk_of(*cells, *bits, hashes@) == entered.visit_all(cell.refs().take(i as int)),
        decreases n - i,
    {
        match cell.reference(i) {
            Some(child) => {
                proof {
                    cell.lemma_child_height(i as int);
                    let s = cell.refs().take(i + 1);
                    assert(s.drop_last() =~= cell.refs().take(i as int));
                    assert(s.last() == child);
                    lemma_sat_sum_prefix(cell.refs(), tree_cells, i + 1);
                    lemma_sat_sum_prefix(cell.refs(), tree_bits, i + 1);
                    lemma_sat_sum_prefix(cell.refs(), tree_cells, i as int);
                    lemma_sat_sum_prefix(cell.refs(), tree_bits, i as int);
                    assert(sat_sum(s, tree_cells) == crate::cell::sat_add(
                        sat_sum(cell.refs().take(i as int), tree_cells),
                        child.tree_cells(),
                    ));
                    assert(sat_sum(s, tree_bits) == crate::cell::sat_add(
                        sat_sum(cell.refs().take(i as int), tree_bits),
                        child.tree_bits(),
                    ));
                }
                let ghost reached = walk_of(*cells, *bits, hashes@);
                match walk_cell(cells, bits, hashes, &child) {
                    Ok(()) => {
                        proof {
                            cells.lemma_of_view();
                            bits.lemma_of_view();
                        }
                    },
                    Err(e) => {
                        proof {
                            let s = cell.refs().take(i + 1);
                            assert(entered.visit_all(s) == reached.visit(child));
                            entered.lemma_failed_prefix(cell.refs(), i + 1);
                        }
                        return Err(e);
                    },
                }
            },
            None => {},
        }
        i = i + 1;
    }
    proof {
        assert(cell.refs().take(n as int) =~= cell.refs());
        cells.lemma_of_view();
        bits.lemma_of_view();
    }
    Ok(())
}

/// What may follow the counts of a footprint.
#[derive(Clone, Copy, Debug, PartialEq, Eq, Structural, PartialOrd, Ord)]
pub enum StorageExtra {
    Empty,
    Dict { dict_hash: UInt256 },
}

impl StorageExtra {
    pub fn default() -> (r: StorageExtra)
        ensures
            r == StorageExtra::Empty,
    {
        StorageExtra::Empty
    }

    /// The layout: the bits `000` for none; the bits `001` and the hash on 256 bits.
    pub open spec fn payload(&self) -> Payload {
        match *self {
            StorageExtra::Empty => Payload::of_bits(uint_bits(0, 3)),
            StorageExtra::Dict { dict_hash } => Payload::of_bits(uint_bits(1, 3)).concat(
                Payload::of_bits(dict_hash.bits()),
            ),
        }
    }

    #[verifier::opaque]
    pub open spec fn parse(p: Payload) -> Result<(StorageExtra, Payload), BlockError> {
        match p.take_uint(3) {
            Err(e) => Err(e),
            Ok((tag, rest)) => if tag == 0 {
                Ok((StorageExtra::Empty, rest))
            } else if tag == 1 {
                match rest.take_hash() {
                    Err(e) => Err(e),
                    Ok((dict_hash, rest2)) => Ok((StorageExtra::Dict { dict_hash }, rest2)),
                }
            } else {
                Err(BlockError::InvalidConstructorTag { tag: tag as u32 })
            },
        }
    }

    pub proof fn lemma_parse_payload(self, rest: Payload)
        ensures
            Self::parse(self.payload().concat(rest)) == Ok::<(StorageExtra, Payload), BlockError>(
                (self, rest),
            ),
    {
        reveal(StorageExtra::parse);
        lemma2_to64();
        match self {
            StorageExtra::Empty => {
                lemma_take_uint(0, 3, rest);
            },
            StorageExtra::Dict { dict_hash } => {
                lemma_concat_assoc(
                    Payload::of_bits(uint_bits(1, 3)),
                    Payload::of_bits(dict_hash.bits()),
                    rest,
                );
                lemma_take_uint(1, 3, Payload::of_bits(dict_hash.bits()).concat(rest));
                lemma_take_hash(dict_hash, rest);
            },
        }
    }

    /// A tag other than `000` and `001` is refused with that tag.
    pub proof fn lemma_unknown_tag_rejected(p: Payload)
        requires
            p.bits.len() >= 3,
            bits_uint(p.bits.take(3)) > 1,
        ensures
            Self::parse(p) == Err::<(StorageExtra, Payload), BlockError>(
                BlockError::InvalidConstructorTag { tag: bits_uint(p.bits.take(3)) as u32 },
            ),
    {
        reveal(StorageExtra::parse);
    }

    pub fn encode(&self, out: &mut Fragment)
        ensures
            final(out)@ == old(out)@.concat(self.payload()),
    {
        match self {
            StorageExtra::Empty => {
                out.push_uint(0, 3);
            },
            StorageExtra::Dict { dict_hash } => {
                out.push_uint(1, 3);
                out.push_hash(dict_hash);
                proof {
                    lemma_concat_assoc(
                        old(out)@,
                        Payload::of_bits(uint_bits(1, 3)),
                        Payload::of_bits(dict_hash.bits()),
                    );
                }
            },
        }
    }

    pub fn construct_from(slice: &mut SliceData) -> (r: Result<StorageExtra, BlockError>)
        ensures
            match Self::parse(old(slice)@) {
                Ok((v, rest)) => r == Ok::<StorageExtra, BlockError>(v) && final(slice)@ == rest,
                Err(e) => r == Err::<StorageExtra, BlockError>(e),
            },
    {
        proof {
            reveal(StorageExtra::parse);
        }
        let ghost p = slice@;
        let tag = slice.get_next_uint(3)?;
        proof {
            lemma_bits_uint_bound(p.bits.take(3));
            lemma2_to64();
        }
        if tag == 0 {
            Ok(StorageExtra::Empty)
        } else if tag == 1 {
            let dict_hash = slice.get_next_hash()?;
            Ok(StorageExtra::Dict { dict_hash })
        } else {
            Err(BlockError::InvalidConstructorTag { tag: tag as u32 })
        }
    }

    /// Appends the layout to `builder`, or fails and changes nothing where it does not
    /// fit.
    pub fn write_to(&self, builder: &mut BuilderData) -> (r: Result<(), BlockError>)
        ensures
            old(builder)@.concat(self.payload()).fits() ==> r is Ok && final(builder)@
                == old(builder)@.concat(self.payload()),
            !old(builder)@.concat(self.payload()).fits() ==> r == Err::<(), BlockError>(
                BlockError::CellOverflow,
            ) && final(builder)@ == old(builder)@,
    {
        let mut f = Fragment::new();
        self.encode(&mut f);
        proof {
            crate::codec::lemma_concat_empty(self.payload());
        }
        builder.append_fragment(&f)
    }

    /// The text of what follows the counts.
    pub open spec fn text(&self) -> Seq<char> {
        match *self {
            StorageExtra::Empty => "StorageExtra[empty]"@,
            StorageExtra::Dict { dict_hash } => "StorageExtra[ dict_hash = "@ + hash_text(dict_hash)
                + " ]"@,
        }
    }

    pub fn to_string(&self) -> (s: String)
        ensures
            s@ == self.text(),
    {
        let mut s = String::new();
        match self {
            StorageExtra::Empty => {
                s.append("StorageExtra[empty]");
            },
            StorageExtra::Dict { dict_hash } => {
                s.append("StorageExtra[ dict_hash = ");
                push_hash(&mut s, dict_hash);
                s.append(" ]");
            },
        }
        assert(s@ =~= self.text());
        s
    }
}

/// The footprint of an account's storage: the number of distinct nodes, the number of
/// bits they hold, and what may follow.
#[derive(Clone, Copy, Debug, PartialEq, Eq, Structural, PartialOrd, Ord)]
pub struct StorageUsed {
    pub cells: VarUInteger7,
    pub bits: VarUInteger7,
    pub extra: StorageExtra,
}

impl StorageUsed {
    pub open spec fn wf(&self) -> bool {
        self.cells.wf() && self.bits.wf()
    }

    pub fn default() -> (r: StorageUsed)
        ensures
            r.cells@ == 0,
            r.bits@ == 0,
            r.extra == StorageExtra::Empty,
            r.wf(),
    {
        Self::new()
    }

    pub fn new() -> (r: StorageUsed)
        ensures
            r.cells@ == 0,
            r.bits@ == 0,
            r.extra == StorageExtra::Empty,
            r.wf(),
    {
        StorageUsed {
            cells: VarUInteger7::default(),
            bits: VarUInteger7::default(),
            extra: StorageExtra::default(),
        }
    }

    pub fn bits(&self) -> (n: u64)
        ensures
            n == self.bits@,
    {
        self.bits.as_u64()
    }

    pub fn cells(&self) -> (n: u64)
        ensures
            n == self.cells@,
    {
        self.cells.as_u64()
    }

    /// The hash that follows the counts, if one does.
    pub fn extra(&self) -> (h: Option<&UInt256>)
        ensures
            h == match self.extra {
                StorageExtra::Empty => None,
                StorageExtra::Dict { dict_hash } => Some(&dict_hash),
            },
    {
        match &self.extra {
            StorageExtra::Empty => None,
            StorageExtra::Dict { dict_hash } => Some(dict_hash),
        }
    }

    /// The footprint with the given counts. It fails where a count needs more than seven
    /// bytes.
    pub fn with_values_checked(cells: u64, bits: u64, extra: StorageExtra) -> (r: Result<
        StorageUsed,
        BlockError,
    >)
        ensures
            (cells <= MAX_VAR_UINT7 && bits <= MAX_VAR_UINT7) ==> r is Ok && r->Ok_0.cells@ == cells
                && r->Ok_0.bits@ == bits && r->Ok_0.extra == extra && r->Ok_0.wf(),
            !(cells <= MAX_VAR_UINT7 && bits <= MAX_VAR_UINT7) ==> r == Err::<
                StorageUsed,
                BlockError,
            >(BlockError::IntegerOverflow),
    {
        Ok(StorageUsed { cells: VarUInteger7::new(cells)?, bits: VarUInteger7::new(bits)?, extra })
    }

    /// The footprint of the graph below `root`, walked from nothing met. It fails where a
    /// count would pass the bound of a count.
    pub fn calculate_for_cell(root: &Cell) -> (r: Result<StorageUsed, BlockError>)
        ensures
            Walk::start().visit(*root).failed ==> r == Err::<StorageUsed, BlockError>(
                BlockError::IntegerOverflow,
            ),
            !Walk::start().visit(*root).failed ==> r is Ok && r->Ok_0.is_footprint(
                Walk::start().visit(*root),
            ),
            has_room(0, 0, *root) ==> r is Ok,
            r is Ok ==> r->Ok_0.cells@ <= root.tree_cells() && r->Ok_0.bits@ <= root.tree_bits(),
    {
        let mut cells = VarUInteger7::default();
        let mut bits = VarUInteger7::default();
        let mut hashes = visited_new();
        assert(hashes_with_keys(hashes@) =~= Walk::start().seen);
        walk_cell(&mut cells, &mut bits, &mut hashes, root)?;
        Ok(StorageUsed { cells, bits, extra: StorageExtra::Empty })
    }

    /// Whether the footprint holds the counts of `walk` and nothing behind them.
    pub open spec fn is_footprint(&self, walk: Walk) -> bool {
        &&& self.cells@ == walk.cells
        &&& self.bits@ == walk.bits
        &&& self.extra == StorageExtra::Empty
        &&& self.wf()
    }

    /// The footprint of the graph that `value` is written as: of the node that holds its
    /// layout and of all below it. It fails where the layout is longer than one node, and
    /// where a count would pass the bound of a count.
    pub fn calculate_for_struct<T: Serializable>(value: &T) -> (r: Result<StorageUsed, BlockError>)
        ensures
            match footprint_of(value.layout()) {
                Err(e) => r == Err::<StorageUsed, BlockError>(e),
                Ok(walk) => r is Ok && r->Ok_0.is_footprint(walk),
            },
            value.layout().fits() && layout_has_room(value.layout()) ==> r is Ok,
            r is Ok ==> r->Ok_0.cells@ <= tree_cells_of(value.layout().refs) && r->Ok_0.bits@
                <= tree_bits_of(value.layout().bits.len(), value.layout().refs),
    {
        let root = serialize(value)?;
        proof {
            Walk::lemma_of_layout(value.layout(), root);
        }
        Self::calculate_for_cell(&root)
    }

    /// The layout: the two counts, then what follows.
    pub open spec fn payload(&self) -> Payload {
        self.cells.payload().concat(self.bits.payload()).concat(self.extra.payload())
    }

    #[verifier::opaque]
    pub open spec fn parse(p: Payload) -> Result<(StorageUsed, Payload), BlockError> {
        match VarUInteger7::parse(p) {
            Err(e) => Err(e),
            Ok((cells, r1)) => match VarUInteger7::parse(r1) {
                Err(e) => Err(e),
                Ok((bits, r2)) => match StorageExtra::parse(r2) {
                    Err(e) => Err(e),
                    Ok((extra, r3)) => Ok((StorageUsed { cells, bits, extra }, r3)),
                },
            },
        }
    }

    pub proof fn lemma_parse_payload(self, rest: Payload)
        requires
            self.wf(),
        ensures
            Self::parse(self.payload().concat(rest)) == Ok::<(StorageUsed, Payload), BlockError>(
                (self, rest),
            ),
    {
        reveal(StorageUsed::parse);
        let a = self.cells.payload();
        let b = self.bits.payload();
        let c = self.extra.payload();
        lemma_concat_assoc(a.concat(b), c, rest);
        lemma_concat_assoc(a, b, c.concat(rest));
        self.cells.lemma_parse_payload(b.concat(c.concat(rest)));
        self.bits.lemma_parse_payload(c.concat(rest));
        self.extra.lemma_parse_payload(rest);
    }

    /// A footprint whose counts are followed by a tag other than `000` and `001` is
    /// refused with that tag.
    pub proof fn lemma_unknown_extra_rejected(cells: VarUInteger7, bits: VarUInteger7, rest: Payload)
        requires
            cells.wf(),
            bits.wf(),
            rest.bits.len() >= 3,
            bits_uint(rest.bits.take(3)) > 1,
        ensures
            Self::parse(cells.payload().concat(bits.payload()).concat(rest)) == Err::<
                (StorageUsed, Payload),
                BlockError,
            >(BlockError::InvalidConstructorTag { tag: bits_uint(rest.bits.take(3)) as u32 }),
    {
        reveal(StorageUsed::parse);
        lemma_concat_assoc(cells.payload(), bits.payload(), rest);
        cells.lemma_parse_payload(bits.payload().concat(rest));
        bits.lemma_parse_payload(rest);
        StorageExtra::lemma_unknown_tag_rejected(rest);
    }

    pub proof fn lemma_parse_wf(p: Payload)
        requires
            Self::parse(p) is Ok,
        ensures
            Self::parse(p)->Ok_0.0.wf(),
    {
        reveal(StorageUsed::parse);
        VarUInteger7::lemma_parse_wf(p);
        let r1 = VarUInteger7::parse(p)->Ok_0.1;
        VarUInteger7::lemma_parse_wf(r1);
    }

    pub fn encode(&self, out: &mut Fragment)
        ensures
            final(out)@ == old(out)@.concat(self.payload()),
    {
        self.cells.encode(out);
        self.bits.encode(out);
        self.extra.encode(out);
        proof {
            lemma_concat_assoc(old(out)@, self.cells.payload(), self.bits.payload());
            lemma_concat_assoc(
                old(out)@,
                self.cells.payload().concat(self.bits.payload()),
                self.extra.payload(),
            );
        }
    }

    pub fn construct_from(slice: &mut SliceData) -> (r: Result<StorageUsed, BlockError>)
        ensures
            match Self::parse(old(slice)@) {
                Ok((v, rest)) => r == Ok::<StorageUsed, BlockError>(v) && final(slice)@ == rest,
                Err(e) => r == Err::<StorageUsed, BlockError>(e),
            },
    {
        proof {
            reveal(StorageUsed::parse);
        }
        let cells = VarUInteger7::construct_from(slice)?;
        let bits = VarUInteger7::construct_from(slice)?;
        let extra = StorageExtra::construct_from(slice)?;
        Ok(StorageUsed { cells, bits, extra })
    }

    /// Appends the layout to `builder`, or fails and changes nothing where it does not
    /// fit.
    pub fn write_to(&self, builder: &mut BuilderData) -> (r: Result<(), BlockError>)
        ensures
            old(builder)@.concat(self.payload()).fits() ==> r is Ok && final(builder)@
                == old(builder)@.concat(self.payload()),
            !old(builder)@.concat(self.payload()).fits() ==> r == Err::<(), BlockError>(
                BlockError::CellOverflow,
            ) && final(builder)@ == old(builder)@,
    {
        let mut f = Fragment::new();
        self.encode(&mut f);
        proof {
            crate::codec::lemma_concat_empty(self.payload());
        }
        builder.append_fragment(&f)
    }

    /// Reads a value in place of this one. Nothing changes where reading fails.
    pub fn read_from(&mut self, slice: &mut SliceData) -> (r: Result<(), BlockError>)
        ensures
            match Self::parse(old(slice)@) {
                Ok((v, rest)) => r is Ok && *final(self) == v && final(slice)@ == rest,
                Err(e) => r == Err::<(), BlockError>(e) && *final(self) == *old(self),
            },
    {
        let v = Self::construct_from(slice)?;
        *self = v;
        Ok(())
    }

    /// The text of a footprint.
    pub open spec fn text(&self) -> Seq<char> {
        "StorageUsed[cells = "@ + decimal(self.cells@) + ", bits = "@ + decimal(self.bits@)
            + ", extra = "@ + self.extra.text() + "]"@
    }

    pub fn to_string(&self) -> (s: String)
        ensures
            s@ == self.text(),
    {
        let mut s = String::new();
        s.append("StorageUsed[cells = ");
        push_decimal(&mut s, self.cells.as_u64() as u128);
        s.append(", bits = ");
        push_decimal(&mut s, self.bits.as_u64() as u128);
        s.append(", extra = ");
        let extra = self.extra.to_string();
        s.append(extra.as_str());
        s.append("]");
        assert(s@ =~= self.text());
        s
    }
}

/// The rent bookkeeping of an account: its footprint, when it last paid, and what it
/// owes.
#[derive(Clone, Copy, Debug, PartialEq, Eq, Structural, PartialOrd, Ord)]
pub struct StorageInfo {
    pub used: StorageUsed,
    pub last_paid: u32,
    pub due_payment: Option<Grams>,
}

impl StorageInfo {
    pub open spec fn wf(&self) -> bool {
        &&& self.used.wf()
        &&& self.due_payment matches Some(g) ==> g.wf()
    }

    pub fn default() -> (r: StorageInfo)
        ensures
            r.used.cells@ == 0,
            r.used.bits@ == 0,
            r.used.extra == StorageExtra::Empty,
            r.last_paid == 0,
            r.due_payment is None,
            r.wf(),
    {
        Self::new()
    }

    pub fn new() -> (r: StorageInfo)
        ensures
            r.used.cells@ == 0,
            r.used.bits@ == 0,
            r.used.extra == StorageExtra::Empty,
            r.last_paid == 0,
            r.due_payment is None,
            r.wf(),
    {
        StorageInfo { used: StorageUsed::default(), last_paid: 0, due_payment: None }
    }

    pub fn with_values(last_paid: u32, due_payment: Option<Grams>) -> (r: StorageInfo)
        ensures
            r.used.cells@ == 0,
            r.used.bits@ == 0,
            r.used.extra == StorageExtra::Empty,
            r.used.wf(),
            r.last_paid == last_paid,
            r.due_payment == due_payment,
    {
        StorageInfo { used: StorageUsed::default(), last_paid, due_payment }
    }

    pub fn used(&self) -> (u: &StorageUsed)
        ensures
            *u == self.used,
    {
        &self.used
    }

    pub fn last_paid(&self) -> (t: u32)
        ensures
            t == self.last_paid,
    {
        self.last_paid
    }

    pub fn due_payment(&self) -> (g: Option<&Grams>)
        ensures
            g == match self.due_payment {
                Some(d) => Some(&d),
                None => None,
            },
    {
        self.due_payment.as_ref()
    }

    pub open spec fn due_payload(due: Option<Grams>) -> Payload {
        match due {
            None => Payload::of_bits(seq![false]),
            Some(g) => Payload::of_bits(seq![true]).concat(g.payload()),
        }
    }

    #[verifier::opaque]
    pub open spec fn parse_due(p: Payload) -> Result<(Option<Grams>, Payload), BlockError> {
        match p.take_bit() {
            Err(e) => Err(e),
            Ok((false, rest)) => Ok((None, rest)),
            Ok((true, rest)) => match Grams::parse(rest) {
                Err(e) => Err(e),
                Ok((g, rest2)) => Ok((Some(g), rest2)),
            },
        }
    }

    /// The layout: the footprint, the time of the last payment on 32 bits, and the
    /// amount owed behind one bit.
    pub open spec fn payload(&self) -> Payload {
        self.used.payload().concat(Payload::of_bits(uint_bits(self.last_paid as nat, 32))).concat(
            Self::due_payload(self.due_payment),
        )
    }

    #[verifier::opaque]
    pub open spec fn parse(p: Payload) -> Result<(StorageInfo, Payload), BlockError> {
        match StorageUsed::parse(p) {
            Err(e) => Err(e),
            Ok((used, r1)) => match r1.take_uint(32) {
                Err(e) => Err(e),
                Ok((last_paid, r2)) => match Self::parse_due(r2) {
                    Err(e) => Err(e),
                    Ok((due_payment, r3)) => Ok(
                        (StorageInfo { used, last_paid: last_paid as u32, due_payment }, r3),
                    ),
                },
            },
        }
    }

    pub proof fn lemma_parse_due(due: Option<Grams>, rest: Payload)
        requires
            due matches Some(g) ==> g.wf(),
        ensures
            Self::parse_due(Self::due_payload(due).concat(rest)) == Ok::<
                (Option<Grams>, Payload),
                BlockError,
            >((due, rest)),
    {
        reveal(StorageInfo::parse_due);
        match due {
            None => {
                lemma_take_bit(false, rest);
            },
            Some(g) => {
                lemma_concat_assoc(Payload::of_bits(seq![true]), g.payload(), rest);
                lemma_take_bit(true, g.payload().concat(rest));
                g.lemma_parse_payload(rest);
            },
        }
    }

    pub proof fn lemma_parse_payload(self, rest: Payload)
        requires
            self.wf(),
        ensures
            Self::parse(self.payload().concat(rest)) == Ok::<(StorageInfo, Payload), BlockError>(
                (self, rest),
            ),
    {
        reveal(StorageInfo::parse);
        reveal(StorageInfo::parse_due);
        let a = self.used.payload();
        let b = Payload::of_bits(uint_bits(self.last_paid as nat, 32));
        let c = Self::due_payload(self.due_payment);
        lemma_concat_assoc(a.concat(b), c, rest);
        lemma_concat_assoc(a, b, c.concat(rest));
        self.used.lemma_parse_payload(b.concat(c.concat(rest)));
        lemma2_to64();
        lemma_take_uint(self.last_paid as nat, 32, c.concat(rest));
        Self::lemma_parse_due(self.due_payment, rest);
    }

    pub proof fn lemma_parse_wf(p: Payload)
        requires
            Self::parse(p) is Ok,
        ensures
            Self::parse(p)->Ok_0.0.wf(),
    {
        reveal(StorageInfo::parse);
        reveal(StorageInfo::parse_due);
        StorageUsed::lemma_parse_wf(p);
        let r1 = StorageUsed::parse(p)->Ok_0.1;
        let r2 = r1.take_uint(32)->Ok_0.1;
        let (bit, r3) = r2.take_bit()->Ok_0;
        if bit {
            Grams::lemma_parse_wf(r3);
        }
    }

    fn encode_due(due: &Option<Grams>, out: &mut Fragment)
        ensures
            final(out)@ == old(out)@.concat(Self::due_payload(*due)),
    {
        match due {
            None => {
                out.push_bit(false);
            },
            Some(g) => {
                out.push_bit(true);
                g.encode(out);
                proof {
                    lemma_concat_assoc(old(out)@, Payload::of_bits(seq![true]), g.payload());
                }
            },
        }
    }

    pub fn encode(&self, out: &mut Fragment)
        ensures
            final(out)@ == old(out)@.concat(self.payload()),
    {
        self.used.encode(out);
        out.push_uint(self.last_paid as u128, 32);
        Self::encode_due(&self.due_payment, out);
        proof {
            let a = self.used.payload();
            let b = Payload::of_bits(uint_bits(self.last_paid as nat, 32));
            lemma_concat_assoc(old(out)@, a, b);
            lemma_concat_assoc(old(out)@, a.concat(b), Self::due_payload(self.due_payment));
        }
    }

    pub fn construct_from(slice: &mut SliceData) -> (r: Result<StorageInfo, BlockError>)
        ensures
            match Self::parse(old(slice)@) {
                Ok((v, rest)) => r == Ok::<StorageInfo, BlockError>(v) && final(slice)@ == rest,
                Err(e) => r == Err::<StorageInfo, BlockError>(e),
            },
    {
        proof {
            reveal(StorageInfo::parse);
            reveal(StorageInfo::parse_due);
        }
        let used = StorageUsed::construct_from(slice)?;
        let last_paid = slice.get_next_u32()?;
        let due_payment = if slice.get_next_bit()? {
            Some(Grams::construct_from(slice)?)
        } else {
            None
        };
        Ok(StorageInfo { used, last_paid, due_payment })
    }

    /// Appends the layout to `builder`, or fails and changes nothing where it does not
    /// fit.
    pub fn write_to(&self, builder: &mut BuilderData) -> (r: Result<(), BlockError>)
        ensures
            old(builder)@.concat(self.payload()).fits() ==> r is Ok && final(builder)@
                == old(builder)@.concat(self.payload()),
            !old(builder)@.concat(self.payload()).fits() ==> r == Err::<(), BlockError>(
                BlockError::CellOverflow,
            ) && final(builder)@ == old(builder)@,
    {
        let mut f = Fragment::new();
        self.encode(&mut f);
        proof {
            crate::codec::lemma_concat_empty(self.payload());
        }
        builder.append_fragment(&f)
    }

    /// Reads a value in place of this one. Nothing changes where reading fails.
    pub fn read_from(&mut self, slice: &mut SliceData) -> (r: Result<(), BlockError>)
        ensures
            match Self::parse(old(slice)@) {
                Ok((v, rest)) => r is Ok && *final(self) == v && final(slice)@ == rest,
                Err(e) => r == Err::<(), BlockError>(e) && *final(self) == *old(self),
            },
    {
        let v = Self::construct_from(slice)?;
        *self = v;
        Ok(())
    }

    /// The text of an amount owed: `None`, or the amount in `Some(..)`.
    pub open spec fn due_text(due: Option<Grams>) -> Seq<char> {
        match due {
            None => "None"@,
            Some(g) => "Some("@ + decimal(g@) + ")"@,
        }
    }

    /// The text of the rent bookkeeping: the time of the last payment and the amount
    /// owed, each on a line of its own.
    pub open spec fn text(&self) -> Seq<char> {
        "StorageInfo[\r\nlast_paid = "@ + decimal(self.last_paid as nat) + ", \r\ndue_payment = "@
            + Self::due_text(self.due_payment) + "]"@
    }

    pub fn to_string(&self) -> (s: String)
        ensures
            s@ == self.text(),
    {
        let mut s = String::new();
        s.append("StorageInfo[\r\nlast_paid = ");
        push_decimal(&mut s, self.last_paid as u128);
        s.append(", \r\ndue_payment = ");
        match &self.due_payment {
            None => {
                s.append("None");
            },
            Some(g) => {
                s.append("Some(");
                push_decimal(&mut s, g.as_u128());
                s.append(")");
            },
        }
        s.append("]");
        assert(s@ =~= self.text());
        s
    }
}

/// A footprint that grows root by root: the counts, and the hashes of the nodes that
/// were counted, so that a node that several roots share counts once.
#[derive(Debug)]
pub struct StorageUsedShort {
    pub cells: VarUInteger7,
    pub bits: VarUInteger7,
    seen: FxHashSet<(u128, u128)>,
}

impl Clone for StorageUsedShort {
    fn clone(&self) -> (r: StorageUsedShort)
        ensures
            r.walk() == self.walk(),
            r.wf() == self.wf(),
    {
        StorageUsedShort { cells: self.cells, bits: self.bits, seen: visited_clone(&self.seen) }
    }
}

/// Two footprints are equal where their counts are.
impl PartialEq for StorageUsedShort {
    fn eq(&self, other: &StorageUsedShort) -> (r: bool) {
        proof {
            if self.cells@ == other.cells@ {
                self.cells.lemma_view_injective(other.cells);
            }
            if self.bits@ == other.bits@ {
                self.bits.lemma_view_injective(other.bits);
            }
        }
        self.cells == other.cells && self.bits == other.bits
    }
}

impl Eq for StorageUsedShort {

}

impl PartialEqSpecImpl for StorageUsedShort {
    open spec fn obeys_eq_spec() -> bool {
        true
    }

    open spec fn eq_spec(&self, other: &StorageUsedShort) -> bool {
        self.walk().cells == other.walk().cells && self.walk().bits == other.walk().bits
    }
}

impl StorageUsedShort {
    /// Whether the counts are within their bound, as those of every footprint that a
    /// program holds are.
    pub closed spec fn wf(&self) -> bool {
        self.cells.wf() && self.bits.wf()
    }

    /// The hashes of the nodes that were counted.
    pub closed spec fn seen(&self) -> Set<UInt256> {
        hashes_with_keys(self.seen@)
    }

    /// The counts and the hashes met, as the state of a walk.
    pub closed spec fn walk(&self) -> Walk {
        Walk { cells: self.cells@, bits: self.bits@, seen: self.seen(), failed: false }
    }

    /// The counts of a footprint are those of a walk that has not failed.
    pub proof fn lemma_walk_has_not_failed(self)
        ensures
            !self.walk().failed,
    {
    }

    pub proof fn lemma_wf(self)
        requires
            self.wf(),
        ensures
            self.walk().cells <= MAX_VAR_UINT7,
            self.walk().bits <= MAX_VAR_UINT7,
    {
        self.cells.lemma_of_view();
        self.bits.lemma_of_view();
    }

    pub fn default() -> (r: StorageUsedShort)
        ensures
            r.walk() == Walk::start(),
            r.wf(),
    {
        Self::new()
    }

    pub fn new() -> (r: StorageUsedShort)
        ensures
            r.walk() == Walk::start(),
            r.wf(),
    {
        let r = StorageUsedShort {
            cells: VarUInteger7::default(),
            bits: VarUInteger7::default(),
            seen: visited_new(),
        };
        assert(r.seen() =~= Set::<UInt256>::empty());
        r
    }

    pub fn bits(&self) -> (n: u64)
        ensures
            n == self.walk().bits,
    {
        self.bits.as_u64()
    }

    pub fn cells(&self) -> (n: u64)
        ensures
            n == self.walk().cells,
    {
        self.cells.as_u64()
    }

    /// The footprint with the given counts and no node met. It fails where a count needs
    /// more than seven bytes.
    pub fn with_values_checked(cells: u64, bits: u64) -> (r: Result<StorageUsedShort, BlockError>)
        ensures
            (cells <= MAX_VAR_UINT7 && bits <= MAX_VAR_UINT7) ==> r is Ok && r->Ok_0.walk() == (Walk {
                cells: cells as nat,
                bits: bits as nat,
                seen: Set::empty(),
                failed: false,
            }) && r->Ok_0.wf(),
            !(cells <= MAX_VAR_UINT7 && bits <= MAX_VAR_UINT7) ==> r is Err && r->Err_0
                == BlockError::IntegerOverflow,
    {
        let r = StorageUsedShort {
            cells: VarUInteger7::new(cells)?,
            bits: VarUInteger7::new(bits)?,
            seen: visited_new(),
        };
        assert(r.seen() =~= Set::<UInt256>::empty());
        Ok(r)
    }

    /// The footprint of the graph that `value` is written as, walked from nothing met. It
    /// fails where the layout is longer than one node, and where a count would pass the
    /// bound of a count.
    pub fn calculate_for_struct<T: Serializable>(value: &T) -> (r: Result<
        StorageUsedShort,
        BlockError,
    >)
        ensures
            match footprint_of(value.layout()) {
                Err(e) => r is Err && r->Err_0 == e,
                Ok(walk) => r is Ok && r->Ok_0.wf() && r->Ok_0.walk() == walk,
            },
            value.layout().fits() && layout_has_room(value.layout()) ==> r is Ok,
    {
        let root = serialize(value)?;
        proof {
            Walk::lemma_of_layout(value.layout(), root);
        }
        let mut used = Self::new();
        used.append(&root)?;
        Ok(used)
    }

    /// Adds the graph below `root_cell`: every node of it whose hash was not met before
    /// counts once, with its own bits. It fails and changes nothing where a count would
    /// pass the bound of a count.
    pub fn append(&mut self, root_cell: &Cell) -> (r: Result<(), BlockError>)
        ensures
            old(self).walk().visit(*root_cell).failed ==> r == Err::<(), BlockError>(
                BlockError::IntegerOverflow,
            ) && *final(self) == *old(self),
            !old(self).walk().visit(*root_cell).failed ==> r is Ok && final(self).walk() == old(
                self,
            ).walk().visit(*root_cell) && final(self).wf(),
            has_room(old(self).walk().cells, old(self).walk().bits, *root_cell) ==> r is Ok,
    {
        let mut cells = self.cells;
        let mut bits = self.bits;
        let mut seen = visited_clone(&self.seen);
        walk_cell(&mut cells, &mut bits, &mut seen, root_cell)?;
        self.cells = cells;
        self.bits = bits;
        self.seen = seen;
        Ok(())
    }

    /// The layout: the two counts, each behind the number of its bytes on three bits.
    pub open spec fn payload(&self) -> Payload {
        crate::codec::var_uint_payload(self.walk().cells, 3).concat(
            crate::codec::var_uint_payload(self.walk().bits, 3),
        )
    }

    /// Reads two counts; `walk()` of the result has met nothing.
    #[verifier::opaque]
    pub open spec fn parse(p: Payload) -> Result<((nat, nat), Payload), BlockError> {
        match VarUInteger7::parse(p) {
            Err(e) => Err(e),
            Ok((cells, r1)) => match VarUInteger7::parse(r1) {
                Err(e) => Err(e),
                Ok((bits, r2)) => Ok(((cells@, bits@), r2)),
            },
        }
    }

    pub proof fn lemma_parse_payload(self, rest: Payload)
        requires
            self.wf(),
        ensures
            Self::parse(self.payload().concat(rest)) == Ok::<((nat, nat), Payload), BlockError>(
                ((self.walk().cells, self.walk().bits), rest),
            ),
    {
        reveal(StorageUsedShort::parse);
        lemma_concat_assoc(self.cells.payload(), self.bits.payload(), rest);
        self.cells.lemma_parse_payload(self.bits.payload().concat(rest));
        self.bits.lemma_parse_payload(rest);
    }

    pub fn encode(&self, out: &mut Fragment)
        ensures
            final(out)@ == old(out)@.concat(self.payload()),
    {
        self.cells.encode(out);
        self.bits.encode(out);
        proof {
            lemma_concat_assoc(old(out)@, self.cells.payload(), self.bits.payload());
        }
    }

    pub fn construct_from(slice: &mut SliceData) -> (r: Result<StorageUsedShort, BlockError>)
        ensures
            match Self::parse(old(slice)@) {
                Ok(((cells, bits), rest)) => r is Ok && r->Ok_0.walk() == (Walk {
                    cells,
                    bits,
                    seen: Set::empty(),
                    failed: false,
                }) && r->Ok_0.wf() && final(slice)@ == rest,
                Err(e) => r is Err && r->Err_0 == e,
            },
    {
        proof {
            reveal(StorageUsedShort::parse);
        }
        let cells = VarUInteger7::construct_from(slice)?;
        let bits = VarUInteger7::construct_from(slice)?;
        let r = StorageUsedShort { cells, bits, seen: visited_new() };
        assert(r.seen() =~= Set::<UInt256>::empty());
        let c = r.cells.as_u64();
        let b = r.bits.as_u64();
        Ok(r)
    }

    /// Appends the layout to `builder`, or fails and changes nothing where it does not
    /// fit.
    pub fn write_to(&self, builder: &mut BuilderData) -> (r: Result<(), BlockError>)
        ensures
            old(builder)@.concat(self.payload()).fits() ==> r is Ok && final(builder)@
                == old(builder)@.concat(self.payload()),
            !old(builder)@.concat(self.payload()).fits() ==> r == Err::<(), BlockError>(
                BlockError::CellOverflow,
            ) && final(builder)@ == old(builder)@,
    {
        let mut f = Fragment::new();
        self.encode(&mut f);
        proof {
            crate::codec::lemma_concat_empty(self.payload());
        }
        builder.append_fragment(&f)
    }

    /// Reads two counts in place of these, and forgets the nodes that were counted.
    /// Nothing changes where reading fails.
    pub fn read_from(&mut self, slice: &mut SliceData) -> (r: Result<(), BlockError>)
        ensures
            match Self::parse(old(slice)@) {
                Ok(((cells, bits), rest)) => r is Ok && final(self).walk() == (Walk {
                    cells,
                    bits,
                    seen: Set::empty(),
                    failed: false,
                }) && final(self).wf() && final(slice)@ == rest,
                Err(e) => r == Err::<(), BlockError>(e) && *final(self) == *old(self),
            },
    {
        let v = Self::construct_from(slice)?;
        *self = v;
        Ok(())
    }

    /// The text of the counts.
    pub open spec fn text(&self) -> Seq<char> {
        "StorageUsed[cells = "@ + decimal(self.walk().cells) + ", bits = "@ + decimal(
            self.walk().bits,
        ) + "]"@
    }

    pub fn to_string(&self) -> (s: String)
        ensures
            s@ == self.text(),
    {
        let mut s = String::new();
        s.append("StorageUsed[cells = ");
        push_decimal(&mut s, self.cells() as u128);
        s.append(", bits = ");
        push_decimal(&mut s, self.bits() as u128);
        s.append("]");
        assert(s@ =~= self.text());
        s
    }
}

impl Serializable for StorageExtra {
    open spec fn layout(&self) -> Payload {
        self.payload()
    }

    fn write_into(&self, out: &mut Fragment) {
        self.encode(out);
    }
}

impl Serializable for StorageUsed {
    open spec fn layout(&self) -> Payload {
        self.payload()
    }

    fn write_into(&self, out: &mut Fragment) {
        self.encode(out);
    }
}

impl Serializable for StorageInfo {
    open spec fn layout(&self) -> Payload {
        self.payload()
    }

    fn write_into(&self, out: &mut Fragment) {
        self.encode(out);
    }
}

impl Serializable for StorageUsedShort {
    open spec fn layout(&self) -> Payload {
        self.payload()
    }

    fn write_into(&self, out: &mut Fragment) {
        self.encode(out);
    }
}

impl Default for StorageExtra {
    fn default() -> (r: StorageExtra)
        ensures
            r == StorageExtra::Empty,
    {
        StorageExtra::default()
    }
}

impl Default for StorageUsed {
    fn default() -> (r: StorageUsed)
        ensures
            r.cells@ == 0,
            r.bits@ == 0,
            r.extra == StorageExtra::Empty,
            r.wf(),
    {
        StorageUsed::default()
    }
}

impl Default for StorageUsedShort {
    fn default() -> (r: StorageUsedShort)
        ensures
            r.walk() == Walk::start(),
            r.wf(),
    {
        StorageUsedShort::default()
    }
}

impl Default for StorageInfo {
    fn default() -> (r: StorageInfo)
        ensures
            r.used.cells@ == 0,
            r.used.bits@ == 0,
            r.used.extra == StorageExtra::Empty,
            r.last_paid == 0,
            r.due_payment is None,
            r.wf(),
    {
        StorageInfo::default()
    }
}

} // verus!
