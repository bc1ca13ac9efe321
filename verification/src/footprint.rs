//! What a walk over a graph counts, told by the set of the hashes of its nodes.
use crate::cell::{sat_sum, Cell, Payload, UInt256};
use crate::error::BlockError;
use crate::storage::{footprint_of, StorageUsedShort, Walk};
use crate::types::MAX_VAR_UINT7;
use vstd::prelude::*;
use vstd::set::fold::{is_fun_commutative, lemma_fold_empty, lemma_fold_insert};
use vstd::set_lib::{lemma_len_subset, lemma_set_intersect_union_lens};

verus! {

/// The nodes of the graph below and including `cell`.
pub open spec fn nodes(cell: Cell) -> Set<Cell>
    decreases cell.height(), 0nat,
{
    proof {
        cell.lemma_tallest_refs();
    }
    nodes_all(cell.refs()).insert(cell)
}

/// The nodes of the graphs below and including each of `cells`.
pub open spec fn nodes_all(cells: Seq<Cell>) -> Set<Cell>
    decreases Cell::tallest(cells), cells.len(),
{
    if cells.len() == 0 {
        Set::empty()
    } else {
        proof {
            Cell::lemma_tallest_step(cells);
        }
        nodes_all(cells.drop_last()).union(nodes(cells.last()))
    }
}

/// The hashes of the nodes of the graph below and including `cell`.
pub open spec fn hashes(cell: Cell) -> Set<UInt256>
    decreases cell.height(), 0nat,
{
    proof {
        cell.lemma_tallest_refs();
    }
    hashes_all(cell.refs()).insert(cell.hash())
}

/// The hashes of the nodes of the graphs below and including each of `cells`.
pub open spec fn hashes_all(cells: Seq<Cell>) -> Set<UInt256>
    decreases Cell::tallest(cells), cells.len(),
{
    if cells.len() == 0 {
        Set::empty()
    } else {
        proof {
            Cell::lemma_tallest_step(cells);
        }
        hashes_all(cells.drop_last()).union(hashes(cells.last()))
    }
}

/// Whether the hash tells the node: two nodes of `universe` with the same hash are the
/// same node.
pub open spec fn content_addressed(universe: Set<Cell>) -> bool {
    forall|a: Cell, b: Cell|
        #![trigger universe.contains(a), universe.contains(b)]
        universe.contains(a) && universe.contains(b) && a.hash() == b.hash() ==> a == b
}

/// Whether `universe` holds the children of each of its nodes.
pub open spec fn holds_children(universe: Set<Cell>) -> bool {
    forall|a: Cell, i: int|
        #![trigger universe.contains(a), a.refs()[i]]
        universe.contains(a) && 0 <= i < a.refs().len() ==> universe.contains(a.refs()[i])
}

/// The number of own bits of the node of `universe` that has the hash `hash`, and zero
/// where `universe` has no such node.
pub open spec fn node_bits(universe: Set<Cell>, hash: UInt256) -> nat {
    if exists|c: Cell| universe.contains(c) && c.hash() == hash {
        (choose|c: Cell| universe.contains(c) && c.hash() == hash).bits().len()
    } else {
        0
    }
}

/// The sum of the own bits of the nodes of `universe` that have the hashes `hashes`,
/// each hash taken once.
pub open spec fn bits_of(universe: Set<Cell>, hashes: Set<UInt256>) -> nat {
    hashes.fold(0nat, |sum: nat, hash: UInt256| sum + node_bits(universe, hash))
}

/// Whether a count of nodes and a count of bits are both within the bound of a count.
pub open spec fn counts_fit(cells: nat, bits: nat) -> bool {
    cells <= MAX_VAR_UINT7 && bits <= MAX_VAR_UINT7
}

/// Where the hash tells the node, the bits under the hash of a node are the own bits of
/// that node.
pub proof fn lemma_node_bits(universe: Set<Cell>, cell: Cell)
    requires
        content_addressed(universe),
        universe.contains(cell),
    ensures
        node_bits(universe, cell.hash()) == cell.bits().len(),
{
    let c = choose|c: Cell| universe.contains(c) && c.hash() == cell.hash();
    assert(universe.contains(c) && universe.contains(cell));
}

proof fn lemma_sum_commutes(universe: Set<Cell>)
    ensures
        is_fun_commutative(|sum: nat, hash: UInt256| sum + node_bits(universe, hash)),
{
    let f = |sum: nat, hash: UInt256| sum + node_bits(universe, hash);
    assert forall|a1: UInt256, a2: UInt256, b: nat| #[trigger] f(f(b, a2), a1) == f(f(b, a1), a2) by {}
}

/// No hashes hold no bits.
pub proof fn lemma_bits_of_none(universe: Set<Cell>)
    ensures
        bits_of(universe, Set::empty()) == 0,
{
    lemma_fold_empty(0nat, |sum: nat, hash: UInt256| sum + node_bits(universe, hash));
}

/// One hash more holds the bits of its node more.
pub proof fn lemma_bits_of_insert(universe: Set<Cell>, hashes: Set<UInt256>, hash: UInt256)
    requires
        hashes.finite(),
        !hashes.contains(hash),
    ensures
        bits_of(universe, hashes.insert(hash)) == bits_of(universe, hashes) + node_bits(
            universe,
            hash,
        ),
{
    lemma_sum_commutes(universe);
    lemma_fold_insert(hashes, 0nat, |sum: nat, h: UInt256| sum + node_bits(universe, h), hash);
}

/// The bits of two sets of hashes together, and of what the two share, add up to the bits
/// of the one and of the other.
pub proof fn lemma_bits_of_union(universe: Set<Cell>, a: Set<UInt256>, b: Set<UInt256>)
    requires
        a.finite(),
        b.finite(),
    ensures
        bits_of(universe, a.union(b)) + bits_of(universe, a.intersect(b)) == bits_of(universe, a)
            + bits_of(universe, b),
    decreases a.len(),
{
    if a.len() == 0 {
        a.lemma_len0_is_empty();
        assert(a.union(b) =~= b);
        assert(a.intersect(b) =~= Set::<UInt256>::empty());
        assert(a =~= Set::<UInt256>::empty());
        lemma_bits_of_none(universe);
    } else {
        let h = a.choose();
        let rest = a.remove(h);
        lemma_bits_of_union(universe, rest, b);
        assert(rest.insert(h) =~= a);
        lemma_bits_of_insert(universe, rest, h);
        lemma_len_subset(rest.intersect(b), rest);
        if b.contains(h) {
            assert(rest.union(b) =~= a.union(b));
            assert(rest.intersect(b).insert(h) =~= a.intersect(b));
            lemma_bits_of_insert(universe, rest.intersect(b), h);
        } else {
            assert(rest.union(b).insert(h) =~= a.union(b));
            assert(rest.intersect(b) =~= a.intersect(b));
            lemma_bits_of_insert(universe, rest.union(b), h);
        }
    }
}

/// A part of some hashes holds no more bits than all of them.
pub proof fn lemma_bits_of_subset(universe: Set<Cell>, part: Set<UInt256>, all: Set<UInt256>)
    requires
        all.finite(),
        part.subset_of(all),
    ensures
        bits_of(universe, part) <= bits_of(universe, all),
{
    lemma_len_subset(part, all);
    let others = all.difference(part);
    lemma_len_subset(others, all);
    lemma_bits_of_union(universe, part, others);
    assert(part.union(others) =~= all);
    assert(part.intersect(others) =~= Set::<UInt256>::empty());
    lemma_bits_of_none(universe);
}

/// Some hashes hold at least the bits of the node of each of them.
pub proof fn lemma_bits_of_member(universe: Set<Cell>, hashes: Set<UInt256>, hash: UInt256)
    requires
        hashes.finite(),
        hashes.contains(hash),
    ensures
        node_bits(universe, hash) <= bits_of(universe, hashes),
{
    let rest = hashes.remove(hash);
    assert(rest.insert(hash) =~= hashes);
    lemma_bits_of_insert(universe, rest, hash);
}

/// Whether every node of `universe` whose hash was met is still being walked, or has all
/// the hashes below it met.
spec fn settled_but(seen: Set<UInt256>, universe: Set<Cell>, active: Set<Cell>) -> bool {
    forall|a: Cell|
        #![trigger universe.contains(a)]
        universe.contains(a) && seen.contains(a.hash()) ==> active.contains(a) || hashes(
            a,
        ).subset_of(seen)
}

pub proof fn lemma_hashes_finite(cell: Cell)
    ensures
        hashes(cell).finite(),
        hashes(cell).contains(cell.hash()),
    decreases cell.height(), 0nat,
{
    cell.lemma_tallest_refs();
    lemma_hashes_all_finite(cell.refs());
}

pub proof fn lemma_hashes_all_finite(cells: Seq<Cell>)
    ensures
        hashes_all(cells).finite(),
    decreases Cell::tallest(cells), cells.len(),
{
    if cells.len() > 0 {
        Cell::lemma_tallest_step(cells);
        lemma_hashes_all_finite(cells.drop_last());
        lemma_hashes_finite(cells.last());
    }
}

/// The nodes of a graph hold the root and the children of each of them.
pub proof fn lemma_nodes_hold_children(cell: Cell)
    ensures
        nodes(cell).contains(cell),
        holds_children(nodes(cell)),
    decreases cell.height(), 0nat,
{
    cell.lemma_tallest_refs();
    lemma_nodes_all_hold_children(cell.refs());
    assert forall|a: Cell, i: int|
        #![trigger nodes(cell).contains(a), a.refs()[i]]
        nodes(cell).contains(a) && 0 <= i < a.refs().len() implies nodes(cell).contains(
        a.refs()[i],
    ) by {
        if a == cell {
            assert(nodes_all(cell.refs()).contains(cell.refs()[i]));
        } else {
            assert(nodes_all(cell.refs()).contains(a));
            assert(nodes_all(cell.refs()).contains(a.refs()[i]));
        }
    }
}

pub proof fn lemma_nodes_all_hold_children(cells: Seq<Cell>)
    ensures
        forall|i: int| 0 <= i < cells.len() ==> nodes_all(cells).contains(#[trigger] cells[i]),
        holds_children(nodes_all(cells)),
    decreases Cell::tallest(cells), cells.len(),
{
    if cells.len() > 0 {
        Cell::lemma_tallest_step(cells);
        lemma_nodes_all_hold_children(cells.drop_last());
        lemma_nodes_hold_children(cells.last());
        assert forall|i: int| 0 <= i < cells.len() implies nodes_all(cells).contains(
            #[trigger] cells[i],
        ) by {
            if i < cells.len() - 1 {
                assert(cells.drop_last()[i] == cells[i]);
            }
        }
        assert forall|a: Cell, i: int|
            #![trigger nodes_all(cells).contains(a), a.refs()[i]]
            nodes_all(cells).contains(a) && 0 <= i < a.refs().len() implies nodes_all(
            cells,
        ).contains(a.refs()[i]) by {
            if nodes_all(cells.drop_last()).contains(a) {
                assert(nodes_all(cells.drop_last()).contains(a.refs()[i]));
            } else {
                assert(nodes(cells.last()).contains(a));
                assert(nodes(cells.last()).contains(a.refs()[i]));
            }
        }
    }
}

/// What a walk does from a state in which every count is the count of what was met, by a
/// given amount more: it fails exactly where the counts of what is then met would pass
/// the bound, and otherwise has met the hashes of the graph too and counts them.
proof fn lemma_visit(
    w: Walk,
    cell: Cell,
    universe: Set<Cell>,
    active: Set<Cell>,
    base_cells: nat,
    base_bits: nat,
)
    requires
        content_addressed(universe),
        holds_children(universe),
        universe.contains(cell),
        settled_but(w.seen, universe, active),
        forall|a: Cell| active.contains(a) ==> a.height() > cell.height(),
        !w.failed,
        w.seen.finite(),
        w.cells == base_cells + w.seen.len(),
        w.bits == base_bits + bits_of(universe, w.seen),
        counts_fit(w.cells, w.bits),
    ensures
        ({
            let met = w.seen.union(hashes(cell));
            let after = w.visit(cell);
            let fits = counts_fit(base_cells + met.len(), base_bits + bits_of(universe, met));
            &&& met.finite()
            &&& after.failed == !fits
            &&& fits ==> {
                &&& after.seen == met
                &&& after.cells == base_cells + met.len()
                &&& after.bits == base_bits + bits_of(universe, met)
                &&& settled_but(after.seen, universe, active)
            }
        }),
    decreases cell.height(), 0nat,
{
    let met = w.seen.union(hashes(cell));
    lemma_hashes_finite(cell);
    if w.seen.contains(cell.hash()) {
        assert(!active.contains(cell));
        assert(hashes(cell).subset_of(w.seen));
        assert(met =~= w.seen);
    } else {
        let entered = w.counted(cell.hash(), cell.bits().len());
        let walking = active.insert(cell);
        let first = w.seen.insert(cell.hash());
        cell.lemma_tallest_refs();
        lemma_node_bits(universe, cell);
        lemma_bits_of_insert(universe, w.seen, cell.hash());
        assert(first.subset_of(met));
        lemma_len_subset(first, met);
        lemma_bits_of_subset(universe, first, met);
        if entered.failed {
            entered.lemma_failed_stays(cell.refs());
        } else {
            assert forall|a: Cell|
                #![trigger universe.contains(a)]
                universe.contains(a) && entered.seen.contains(a.hash()) implies walking.contains(a)
                || hashes(a).subset_of(entered.seen) by {
                if a.hash() == cell.hash() {
                    assert(a == cell);
                } else {
                    assert(w.seen.contains(a.hash()));
                    if !active.contains(a) {
                        assert(hashes(a).subset_of(w.seen));
                    }
                }
            }
            assert forall|i: int| 0 <= i < cell.refs().len() implies universe.contains(
                #[trigger] cell.refs()[i],
            ) by {}
            lemma_visit_all(entered, cell.refs(), universe, walking, base_cells, base_bits);
            assert(entered.seen.union(hashes_all(cell.refs())) =~= met);
            let after = entered.visit_all(cell.refs());
            if !after.failed {
                assert forall|a: Cell|
                    #![trigger universe.contains(a)]
                    universe.contains(a) && after.seen.contains(a.hash()) implies active.contains(a)
                    || hashes(a).subset_of(after.seen) by {
                    if walking.contains(a) && !active.contains(a) {
                        assert(a == cell);
                    }
                }
            }
        }
    }
}

proof fn lemma_visit_all(
    w: Walk,
    cells: Seq<Cell>,
    universe: Set<Cell>,
    active: Set<Cell>,
    base_cells: nat,
    base_bits: nat,
)
    requires
        content_addressed(universe),
        holds_children(universe),
        forall|i: int| 0 <= i < cells.len() ==> universe.contains(#[trigger] cells[i]),
        settled_but(w.seen, universe, active),
        forall|a: Cell| active.contains(a) ==> a.height() > Cell::tallest(cells),
        !w.failed,
        w.seen.finite(),
        w.cells == base_cells + w.seen.len(),
        w.bits == base_bits + bits_of(universe, w.seen),
        counts_fit(w.cells, w.bits),
    ensures
        ({
            let met = w.seen.union(hashes_all(cells));
            let after = w.visit_all(cells);
            let fits = counts_fit(base_cells + met.len(), base_bits + bits_of(universe, met));
            &&& met.finite()
            &&& after.failed == !fits
            &&& fits ==> {
                &&& after.seen == met
                &&& after.cells == base_cells + met.len()
                &&& after.bits == base_bits + bits_of(universe, met)
                &&& settled_but(after.seen, universe, active)
            }
        }),
    decreases Cell::tallest(cells), cells.len(),
{
    let met = w.seen.union(hashes_all(cells));
    lemma_hashes_all_finite(cells);
    if cells.len() == 0 {
        assert(met =~= w.seen);
    } else {
        Cell::lemma_tallest_step(cells);
        assert forall|i: int| 0 <= i < cells.drop_last().len() implies universe.contains(
            #[trigger] cells.drop_last()[i],
        ) by {
            assert(cells.drop_last()[i] == cells[i]);
        }
        lemma_visit_all(w, cells.drop_last(), universe, active, base_cells, base_bits);
        let before = w.visit_all(cells.drop_last());
        let met_before = w.seen.union(hashes_all(cells.drop_last()));
        assert(w.visit_all(cells) == before.visit(cells.last()));
        assert(hashes_all(cells) =~= hashes_all(cells.drop_last()).union(hashes(cells.last())));
        assert(met_before.subset_of(met));
        lemma_len_subset(met_before, met);
        lemma_bits_of_subset(universe, met_before, met);
        if !before.failed {
            assert(universe.contains(cells[cells.len() - 1]));
            lemma_visit(before, cells.last(), universe, active, base_cells, base_bits);
            assert(before.seen.union(hashes(cells.last())) =~= met);
        }
    }
}

/// Where the hash tells the node, a walk from nothing met counts every hash of the graph
/// once. It fails exactly where the number of the hashes of the graph, or the sum of the
/// own bits of their nodes, passes the bound of a count. Otherwise it has met exactly the
/// hashes of the graph, its count of nodes is their number, and its count of bits is the
/// sum of the own bits of their nodes.
pub proof fn lemma_walk_counts_hashes(root: Cell)
    requires
        content_addressed(nodes(root)),
    ensures
        ({
            let after = Walk::start().visit(root);
            let bits = bits_of(nodes(root), hashes(root));
            &&& hashes(root).finite()
            &&& after.failed == !counts_fit(hashes(root).len(), bits)
            &&& !after.failed ==> after.seen == hashes(root) && after.cells == hashes(root).len()
                && after.bits == bits
        }),
{
    lemma_nodes_hold_children(root);
    lemma_bits_of_none(nodes(root));
    lemma_visit(Walk::start(), root, nodes(root), Set::<Cell>::empty(), 0, 0);
    assert(Walk::start().seen.union(hashes(root)) =~= hashes(root));
}

/// Where the hash tells the node, the footprint of a value counts every hash of the
/// graph that the value is written as once: `root` is the node that holds the layout of
/// the value. There is no footprint exactly where the number of the hashes, or the sum
/// of the own bits of their nodes, passes the bound of a count. Otherwise the footprint
/// counts as many nodes as the graph has hashes, and as many bits as their nodes hold.
pub proof fn lemma_footprint_counts_hashes(layout: Payload, root: Cell)
    requires
        layout.fits(),
        root.holds(layout),
        content_addressed(nodes(root)),
    ensures
        ({
            let bits = bits_of(nodes(root), hashes(root));
            match footprint_of(layout) {
                Ok(walk) => {
                    &&& counts_fit(hashes(root).len(), bits)
                    &&& walk.seen == hashes(root)
                    &&& walk.cells == hashes(root).len()
                    &&& walk.bits == bits
                },
                Err(e) => e == BlockError::IntegerOverflow && !counts_fit(
                    hashes(root).len(),
                    bits,
                ),
            }
        }),
{
    Walk::lemma_of_layout(layout, root);
    lemma_walk_counts_hashes(root);
}

/// Where the hash tells the node, a node that two roots share counts once when both
/// roots are added to one footprint. Adding both fails exactly where the number of the
/// hashes of both graphs together, or the sum of the own bits of their nodes, passes the
/// bound of a count. Otherwise the footprint has met the hashes of both graphs, counts
/// as many nodes as there are hashes in both together, and as many bits as their nodes
/// hold. Counting each root by itself then succeeds too, and adding up gives more: by
/// the number of the hashes that the two graphs share, and by the bits of the nodes
/// under these hashes. That is more nodes whenever the graphs share a node, and more
/// bits whenever they share a node that holds bits.
pub proof fn lemma_shared_nodes_count_once(first: Cell, second: Cell)
    requires
        content_addressed(nodes(first).union(nodes(second))),
    ensures
        ({
            let universe = nodes(first).union(nodes(second));
            let both = Walk::start().visit(first).visit(second);
            let one = Walk::start().visit(first);
            let two = Walk::start().visit(second);
            let all = hashes(first).union(hashes(second));
            let shared = hashes(first).intersect(hashes(second));
            &&& both.failed == !counts_fit(all.len(), bits_of(universe, all))
            &&& !both.failed ==> {
                &&& both.seen == all
                &&& both.cells == all.len()
                &&& both.bits == bits_of(universe, all)
                &&& !one.failed && !two.failed
                &&& one.cells == hashes(first).len()
                &&& two.cells == hashes(second).len()
                &&& one.bits == bits_of(universe, hashes(first))
                &&& two.bits == bits_of(universe, hashes(second))
                &&& both.cells + shared.len() == one.cells + two.cells
                &&& both.bits + bits_of(universe, shared) == one.bits + two.bits
                &&& forall|h: UInt256|
                    hashes(first).contains(h) && #[trigger] hashes(second).contains(h) ==> {
                        &&& one.cells + two.cells > both.cells
                        &&& one.bits + two.bits >= both.bits + node_bits(universe, h)
                    }
            }
        }),
{
    let universe = nodes(first).union(nodes(second));
    let none = Set::<Cell>::empty();
    let start = Walk::start();
    let all = hashes(first).union(hashes(second));
    let shared = hashes(first).intersect(hashes(second));
    lemma_nodes_hold_children(first);
    lemma_nodes_hold_children(second);
    lemma_hashes_finite(first);
    lemma_hashes_finite(second);
    lemma_bits_of_none(universe);
    assert(holds_children(universe)) by {
        assert forall|a: Cell, i: int|
            #![trigger universe.contains(a), a.refs()[i]]
            universe.contains(a) && 0 <= i < a.refs().len() implies universe.contains(
            a.refs()[i],
        ) by {
            if nodes(first).contains(a) {
                assert(nodes(first).contains(a.refs()[i]));
            } else {
                assert(nodes(second).contains(a));
                assert(nodes(second).contains(a.refs()[i]));
            }
        }
    }
    lemma_visit(start, first, universe, none, 0, 0);
    assert(start.seen.union(hashes(first)) =~= hashes(first));
    lemma_visit(start, second, universe, none, 0, 0);
    assert(start.seen.union(hashes(second)) =~= hashes(second));
    let one = start.visit(first);
    lemma_len_subset(hashes(first), all);
    lemma_len_subset(hashes(second), all);
    lemma_bits_of_subset(universe, hashes(first), all);
    lemma_bits_of_subset(universe, hashes(second), all);
    if !one.failed {
        lemma_visit(one, second, universe, none, 0, 0);
    }
    lemma_set_intersect_union_lens(hashes(first), hashes(second));
    lemma_bits_of_union(universe, hashes(first), hashes(second));
    lemma_len_subset(shared, hashes(first));
    assert forall|h: UInt256|
        hashes(first).contains(h) && #[trigger] hashes(second).contains(h) implies shared.len() > 0
        && node_bits(universe, h) <= bits_of(universe, shared) by {
        assert(shared.contains(h));
        if shared.len() == 0 {
            shared.lemma_len0_is_empty();
        }
        lemma_bits_of_member(universe, shared, h);
    }
}

/// What `lemma_shared_nodes_count_once` says of walks holds of a footprint to which two
/// roots were added one after the other.
pub proof fn lemma_appended_twice(
    empty: StorageUsedShort,
    after_first: StorageUsedShort,
    after_second: StorageUsedShort,
    first: Cell,
    second: Cell,
)
    requires
        empty.walk() == Walk::start(),
        after_first.walk() == empty.walk().visit(first),
        after_second.walk() == after_first.walk().visit(second),
        content_addressed(nodes(first).union(nodes(second))),
    ensures
        after_second.walk().seen == hashes(first).union(hashes(second)),
        after_second.walk().cells == hashes(first).union(hashes(second)).len(),
        after_second.walk().bits == bits_of(
            nodes(first).union(nodes(second)),
            hashes(first).union(hashes(second)),
        ),
{
    after_second.lemma_walk_has_not_failed();
    lemma_shared_nodes_count_once(first, second);
}

/// The hash of every node of a graph is among the hashes of the graph.
pub proof fn lemma_node_hash_met(root: Cell, node: Cell)
    requires
        nodes(root).contains(node),
    ensures
        hashes(root).contains(node.hash()),
    decreases root.height(), 0nat,
{
    if node != root {
        root.lemma_tallest_refs();
        lemma_node_hash_met_all(root.refs(), node);
    }
}

proof fn lemma_node_hash_met_all(cells: Seq<Cell>, node: Cell)
    requires
        nodes_all(cells).contains(node),
    ensures
        hashes_all(cells).contains(node.hash()),
    decreases Cell::tallest(cells), cells.len(),
{
    if cells.len() > 0 {
        Cell::lemma_tallest_step(cells);
        if nodes_all(cells.drop_last()).contains(node) {
            lemma_node_hash_met_all(cells.drop_last(), node);
        } else {
            lemma_node_hash_met(cells.last(), node);
        }
    }
}

/// Where the hash tells the node, two roots added to one footprint never count more
/// than the two counted apart: not more nodes, and not more bits. They count fewer
/// nodes where the two graphs share a node, and fewer bits where they share a node that
/// holds bits.
pub proof fn lemma_together_at_most_apart(
    together: StorageUsedShort,
    first_alone: StorageUsedShort,
    second_alone: StorageUsedShort,
    first: Cell,
    second: Cell,
)
    requires
        together.walk() == Walk::start().visit(first).visit(second),
        first_alone.walk() == Walk::start().visit(first),
        second_alone.walk() == Walk::start().visit(second),
        content_addressed(nodes(first).union(nodes(second))),
    ensures
        together.walk().cells <= first_alone.walk().cells + second_alone.walk().cells,
        together.walk().bits <= first_alone.walk().bits + second_alone.walk().bits,
        forall|shared: Cell|
            nodes(first).contains(shared) && #[trigger] nodes(second).contains(shared) ==> {
                &&& together.walk().cells < first_alone.walk().cells + second_alone.walk().cells
                &&& together.walk().bits + shared.bits().len() <= first_alone.walk().bits
                    + second_alone.walk().bits
            },
{
    let universe = nodes(first).union(nodes(second));
    together.lemma_walk_has_not_failed();
    lemma_shared_nodes_count_once(first, second);
    assert forall|shared: Cell|
        nodes(first).contains(shared) && #[trigger] nodes(second).contains(shared) implies {
        &&& together.walk().cells < first_alone.walk().cells + second_alone.walk().cells
        &&& together.walk().bits + shared.bits().len() <= first_alone.walk().bits
            + second_alone.walk().bits
    } by {
        lemma_node_hash_met(first, shared);
        lemma_node_hash_met(second, shared);
        assert(universe.contains(shared));
        lemma_node_bits(universe, shared);
        assert(hashes(second).contains(shared.hash()));
    }
}

proof fn lemma_visit_at_most_tree(w: Walk, cell: Cell)
    requires
        cell.wf(),
        counts_fit(w.cells, w.bits),
    ensures
        w.visit(cell).cells <= w.cells + cell.tree_cells(),
        w.visit(cell).bits <= w.bits + cell.tree_bits(),
        counts_fit(w.visit(cell).cells, w.visit(cell).bits),
        w.cells <= w.visit(cell).cells,
        w.bits <= w.visit(cell).bits,
        !w.failed && counts_fit(w.cells + cell.tree_cells(), w.bits + cell.tree_bits())
            ==> !w.visit(cell).failed,
    decreases cell.height(), 0nat,
{
    if !w.failed && !w.seen.contains(cell.hash()) {
        let entered = w.counted(cell.hash(), cell.bits().len());
        cell.lemma_tallest_refs();
        if entered.failed {
            entered.lemma_failed_stays(cell.refs());
        } else {
            lemma_visit_all_at_most_tree(entered, cell.refs());
        }
    }
}

proof fn lemma_visit_all_at_most_tree(w: Walk, cells: Seq<Cell>)
    requires
        forall|i: int| 0 <= i < cells.len() ==> (#[trigger] cells[i]).wf(),
        counts_fit(w.cells, w.bits),
    ensures
        w.visit_all(cells).cells <= w.cells + sat_sum(cells, |c: Cell| c.tree_cells()),
        w.visit_all(cells).bits <= w.bits + sat_sum(cells, |c: Cell| c.tree_bits()),
        counts_fit(w.visit_all(cells).cells, w.visit_all(cells).bits),
        w.cells <= w.visit_all(cells).cells,
        w.bits <= w.visit_all(cells).bits,
        !w.failed && counts_fit(
            w.cells + sat_sum(cells, |c: Cell| c.tree_cells()),
            w.bits + sat_sum(cells, |c: Cell| c.tree_bits()),
        ) ==> !w.visit_all(cells).failed,
    decreases Cell::tallest(cells), cells.len(),
{
    if cells.len() > 0 {
        Cell::lemma_tallest_step(cells);
        assert forall|i: int| 0 <= i < cells.drop_last().len() implies (
        #[trigger] cells.drop_last()[i]).wf() by {
            assert(cells.drop_last()[i] == cells[i]);
        }
        lemma_visit_all_at_most_tree(w, cells.drop_last());
        assert(cells[cells.len() - 1].wf());
        lemma_visit_at_most_tree(w.visit_all(cells.drop_last()), cells.last());
    }
}

/// Counting every distinct node once never gives more than the counts that the root
/// node carries, in which a node counts as often as it is referred to; and it does not
/// fail where those counts are within the bound of a count.
pub proof fn lemma_exact_at_most_fast(root: Cell)
    requires
        root.wf(),
    ensures
        Walk::start().visit(root).cells <= root.tree_cells(),
        Walk::start().visit(root).bits <= root.tree_bits(),
        counts_fit(root.tree_cells(), root.tree_bits()) ==> !Walk::start().visit(root).failed,
{
    lemma_visit_at_most_tree(Walk::start(), root);
}

} // verus!
