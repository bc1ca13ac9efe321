//! Balances: the native amount, and the extra currencies as a dictionary from the 32
//! bits of a currency identifier to the node that holds the amount.
use crate::bits::{lemma_uint_bits_len, push_uint, uint_bits};
use crate::builder::{BuilderData, Fragment, Serializable};
use crate::cell::{bits_below, cells_below, lemma_sat_sum_short, Cell, Payload};
use crate::codec::{lemma_concat_assoc, lemma_concat_empty};
use crate::dict::{children_of, find, make_node, node_children, side};
use crate::error::BlockError;
use crate::slice::SliceData;
use crate::text::{decimal, hash_text, push_decimal, push_hash};
use crate::types::{
    lemma_parse_maybe_ref, maybe_ref_payload, parse_maybe_ref, push_maybe_ref, read_maybe_ref,
    Grams,
};
use vstd::prelude::*;
use vstd::std_specs::cmp::PartialEqSpecImpl;
use vstd::string::*;

verus! {

/// The number of bits of a currency identifier.
pub const CURRENCY_ID_BITS: usize = 32;

/// The amount that a node of the dictionary holds.
pub open spec fn amount_of(leaf: Cell) -> Result<Grams, BlockError> {
    if leaf.is_pruned() {
        Err(BlockError::PrunedCellAccess)
    } else {
        match Grams::parse(leaf.payload()) {
            Err(e) => Err(e),
            Ok((amount, rest)) => Ok(amount),
        }
    }
}

/// The amount under a key, as it was found.
pub open spec fn amount_found(found: Result<Option<Cell>, BlockError>) -> Result<
    Option<Grams>,
    BlockError,
> {
    match found {
        Err(e) => Err(e),
        Ok(None) => Ok(None),
        Ok(Some(leaf)) => match amount_of(leaf) {
            Err(e) => Err(e),
            Ok(amount) => Ok(Some(amount)),
        },
    }
}

fn read_amount(leaf: &Cell) -> (r: Result<Grams, BlockError>)
    ensures
        r == amount_of(*leaf),
{
    let mut slice = SliceData::load_cell(leaf.clone())?;
    Grams::construct_from(&mut slice)
}

fn amount_cell(amount: Grams) -> (c: Cell)
    ensures
        amount_of(c) == Ok::<Grams, BlockError>(amount),
        amount.wf(),
        c.tree_cells() <= 1,
        c.tree_bits() <= 124,
{
    let v = amount.as_u128();
    let mut f = Fragment::new();
    amount.encode(&mut f);
    proof {
        amount.lemma_payload_len();
        lemma_concat_empty(amount.payload());
        amount.lemma_parse_payload(Payload::empty());
    }
    let mut b = BuilderData::new();
    let r = b.append_fragment(&f);
    let c = b.into_cell();
    proof {
        lemma_sat_sum_short(c.refs(), |c: Cell| c.tree_cells());
        lemma_sat_sum_short(c.refs(), |c: Cell| c.tree_bits());
    }
    c
}

fn copy_node(node: &Option<Cell>) -> (r: Option<Cell>)
    ensures
        r == *node,
{
    match node {
        Some(c) => Some(c.clone()),
        None => None,
    }
}

/// Why two dictionaries cannot be added, where they cannot: a node that both have at
/// the same place cannot be read.
pub open spec fn add_error(a: Option<Cell>, b: Option<Cell>, depth: nat, len: nat) -> Option<
    BlockError,
>
    decreases len - depth,
{
    match (a, b) {
        (Some(ca), Some(cb)) => if depth >= len {
            match amount_of(ca) {
                Err(e) => Some(e),
                Ok(_) => match amount_of(cb) {
                    Err(e) => Some(e),
                    Ok(_) => None,
                },
            }
        } else {
            match node_children(ca) {
                Err(e) => Some(e),
                Ok(ac) => match node_children(cb) {
                    Err(e) => Some(e),
                    Ok(bc) => match add_error(ac.0, bc.0, depth + 1, len) {
                        Some(e) => Some(e),
                        None => add_error(ac.1, bc.1, depth + 1, len),
                    },
                },
            }
        },
        _ => None,
    }
}

/// Whether what is found under a key in a sum is the sum of what is found under it in
/// the two dictionaries: what the one has where the other has nothing, and the sum of
/// the two amounts, held at the largest amount, where both have one.
pub open spec fn is_sum_at(
    sum: Result<Option<Cell>, BlockError>,
    a: Result<Option<Cell>, BlockError>,
    b: Result<Option<Cell>, BlockError>,
) -> bool {
    match b {
        Ok(None) => sum == a,
        _ => match a {
            Ok(None) => sum == b,
            Ok(Some(la)) => {
                &&& b matches Ok(Some(lb))
                &&& sum matches Ok(Some(ls))
                &&& amount_of(la) matches Ok(x)
                &&& amount_of(lb) matches Ok(y)
                &&& amount_of(ls) matches Ok(z)
                &&& z@ == Grams::spec_add(x@, y@)
            },
            Err(_) => false,
        },
    }
}

/// Whether `sum` is the sum of `a` and `b` under every key of `len` bits.
pub open spec fn is_sum(sum: Option<Cell>, a: Option<Cell>, b: Option<Cell>, depth: nat, len: nat)
    -> bool {
    forall|key: Seq<bool>|
        key.len() == len ==> is_sum_at(
            #[trigger] find(sum, key, depth),
            find(a, key, depth),
            find(b, key, depth),
        )
}

fn add_at(a: &Option<Cell>, b: &Option<Cell>, depth: usize, len: usize) -> (r: Result<
    Option<Cell>,
    BlockError,
>)
    requires
        depth <= len,
    ensures
        match add_error(*a, *b, depth as nat, len as nat) {
            Some(e) => r == Err::<Option<Cell>, BlockError>(e),
            None => r is Ok && is_sum(r->Ok_0, *a, *b, depth as nat, len as nat),
        },
        *a is None ==> r == Ok::<Option<Cell>, BlockError>(*b),
        *b is None ==> r == Ok::<Option<Cell>, BlockError>(*a),
    decreases len - depth,
{
    let ca = match a {
        Some(c) => c,
        None => {
            return Ok(copy_node(b));
        },
    };
    let cb = match b {
        Some(c) => c,
        None => {
            return Ok(copy_node(a));
        },
    };
    if depth == len {
        let x = read_amount(ca)?;
        let y = read_amount(cb)?;
        let mut z = x;
        z.add(&y);
        return Ok(Some(amount_cell(z)));
    }
    let ac = children_of(ca)?;
    let bc = children_of(cb)?;
    let left = add_at(&ac.0, &bc.0, depth + 1, len)?;
    let right = add_at(&ac.1, &bc.1, depth + 1, len)?;
    let sum = make_node(copy_node(&left), copy_node(&right));
    proof {
        assert forall|key: Seq<bool>| key.len() == len implies is_sum_at(
            #[trigger] find(sum, key, depth as nat),
            find(*a, key, depth as nat),
            find(*b, key, depth as nat),
        ) by {
            let bit = key[depth as int];
            let next = if bit {
                right
            } else {
                left
            };
            assert(is_sum_at(
                find(next, key, (depth + 1) as nat),
                find(side(ac, bit), key, (depth + 1) as nat),
                find(side(bc, bit), key, (depth + 1) as nat),
            ));
            if sum is Some {
                assert(side((left, right), bit) == next);
            } else {
                assert(next is None);
            }
        }
    }
    Ok(sum)
}

/// The children of a node, and none for no node.
pub open spec fn children_or_none(node: Option<Cell>) -> Result<
    (Option<Cell>, Option<Cell>),
    BlockError,
> {
    match node {
        None => Ok((None, None)),
        Some(c) => node_children(c),
    }
}

/// Whether `a` holds, under every key under which `b` holds an amount, an amount that
/// is at least as large; and why that cannot be told, where a node on the way cannot be
/// read. The left side is looked at first, and the right side only where the left one
/// is enough.
pub open spec fn sub_outcome(a: Option<Cell>, b: Option<Cell>, depth: nat, len: nat) -> Result<
    bool,
    BlockError,
>
    decreases len - depth,
{
    match b {
        None => Ok(true),
        Some(cb) => if depth >= len {
            match a {
                None => Ok(false),
                Some(ca) => match amount_of(ca) {
                    Err(e) => Err(e),
                    Ok(x) => match amount_of(cb) {
                        Err(e) => Err(e),
                        Ok(y) => Ok(x@ >= y@),
                    },
                },
            }
        } else {
            match children_or_none(a) {
                Err(e) => Err(e),
                Ok(ac) => match node_children(cb) {
                    Err(e) => Err(e),
                    Ok(bc) => match sub_outcome(ac.0, bc.0, depth + 1, len) {
                        Err(e) => Err(e),
                        Ok(false) => Ok(false),
                        Ok(true) => sub_outcome(ac.1, bc.1, depth + 1, len),
                    },
                },
            }
        },
    }
}

/// Whether what is found under a key in `a` is enough for what is found under it in `b`:
/// `b` has nothing there, or both have an amount and that of `a` is at least as large.
pub open spec fn is_enough_at(
    a: Result<Option<Cell>, BlockError>,
    b: Result<Option<Cell>, BlockError>,
) -> bool {
    match b {
        Ok(None) => true,
        Ok(Some(lb)) => {
            &&& a matches Ok(Some(la))
            &&& amount_of(la) matches Ok(x)
            &&& amount_of(lb) matches Ok(y)
            &&& x@ >= y@
        },
        Err(_) => false,
    }
}

/// What is found under a key depends only on the bits of the key at and behind the
/// depth of the node.
pub proof fn lemma_find_suffix(node: Option<Cell>, k1: Seq<bool>, k2: Seq<bool>, depth: nat)
    requires
        k1.len() == k2.len(),
        forall|j: int| depth <= j < k1.len() ==> k1[j] == k2[j],
    ensures
        find(node, k1, depth) == find(node, k2, depth),
    decreases k1.len() - depth,
{
    match node {
        Some(c) => {
            if depth < k1.len() {
                match node_children(c) {
                    Ok(children) => {
                        lemma_find_suffix(side(children, k1[depth as int]), k1, k2, depth + 1);
                    },
                    Err(_) => {},
                }
            }
        },
        None => {},
    }
}

/// What `sub_outcome` tells: `true` where `a` is enough for `b` under every key, and
/// `false` where there is a key under which it is not.
pub proof fn lemma_sub_outcome(a: Option<Cell>, b: Option<Cell>, depth: nat, len: nat)
    requires
        depth <= len,
    ensures
        sub_outcome(a, b, depth, len) == Ok::<bool, BlockError>(true) ==> forall|key: Seq<bool>|
            key.len() == len ==> is_enough_at(#[trigger] find(a, key, depth), find(b, key, depth)),
        sub_outcome(a, b, depth, len) == Ok::<bool, BlockError>(false) ==> exists|key: Seq<bool>|
            key.len() == len && !is_enough_at(#[trigger] find(a, key, depth), find(b, key, depth)),
    decreases len - depth,
{
    match b {
        None => {},
        Some(cb) => {
            if depth >= len {
                if sub_outcome(a, b, depth, len) == Ok::<bool, BlockError>(false) {
                    let key = Seq::new(len, |i: int| false);
                    assert(key.len() == len && !is_enough_at(
                        find(a, key, depth),
                        find(b, key, depth),
                    ));
                }
            } else {
                match children_or_none(a) {
                    Err(_) => {},
                    Ok(ac) => match node_children(cb) {
                        Err(_) => {},
                        Ok(bc) => {
                            lemma_sub_outcome(ac.0, bc.0, depth + 1, len);
                            lemma_sub_outcome(ac.1, bc.1, depth + 1, len);
                            let left = sub_outcome(ac.0, bc.0, depth + 1, len);
                            let right = sub_outcome(ac.1, bc.1, depth + 1, len);
                            if left == Ok::<bool, BlockError>(false) || (left == Ok::<
                                bool,
                                BlockError,
                            >(true) && right == Ok::<bool, BlockError>(false)) {
                                let bit = left != Ok::<bool, BlockError>(false);
                                let below = choose|key: Seq<bool>|
                                    key.len() == len && !is_enough_at(
                                        #[trigger] find(side(ac, bit), key, depth + 1),
                                        find(side(bc, bit), key, depth + 1),
                                    );
                                let key = below.update(depth as int, bit);
                                lemma_find_suffix(side(ac, bit), key, below, depth + 1);
                                lemma_find_suffix(side(bc, bit), key, below, depth + 1);
                                assert(find(b, key, depth) == find(side(bc, bit), key, depth + 1));
                                assert(find(a, key, depth) == find(side(ac, bit), key, depth + 1));
                                assert(key.len() == len && !is_enough_at(
                                    find(a, key, depth),
                                    find(b, key, depth),
                                ));
                            } else if left == Ok::<bool, BlockError>(true) && right == Ok::<
                                bool,
                                BlockError,
                            >(true) {
                                assert forall|key: Seq<bool>| key.len() == len implies is_enough_at(
                                    #[trigger] find(a, key, depth),
                                    find(b, key, depth),
                                ) by {
                                    let bit = key[depth as int];
                                    assert(is_enough_at(
                                        find(side(ac, bit), key, depth + 1),
                                        find(side(bc, bit), key, depth + 1),
                                    ));
                                    assert(find(b, key, depth) == find(
                                        side(bc, bit),
                                        key,
                                        depth + 1,
                                    ));
                                    assert(find(a, key, depth) == find(
                                        side(ac, bit),
                                        key,
                                        depth + 1,
                                    ));
                                }
                            }
                        },
                    },
                }
            }
        },
    }
}

/// Whether what is found under a key in a difference is what is found under it in `a`
/// less what is found under it in `b`: what `a` has where `b` has nothing, and the
/// difference of the two amounts where `b` has one, which `a` then has too, and at least
/// as large.
pub open spec fn is_difference_at(
    difference: Result<Option<Cell>, BlockError>,
    a: Result<Option<Cell>, BlockError>,
    b: Result<Option<Cell>, BlockError>,
) -> bool {
    match b {
        Ok(None) => difference == a,
        Ok(Some(lb)) => {
            &&& a matches Ok(Some(la))
            &&& difference matches Ok(Some(ld))
            &&& amount_of(la) matches Ok(x)
            &&& amount_of(lb) matches Ok(y)
            &&& amount_of(ld) matches Ok(z)
            &&& x@ >= y@
            &&& z@ == x@ - y@
        },
        Err(_) => false,
    }
}

/// Whether `difference` is `a` less `b` under every key of `len` bits.
pub open spec fn is_difference(
    difference: Option<Cell>,
    a: Option<Cell>,
    b: Option<Cell>,
    depth: nat,
    len: nat,
) -> bool {
    forall|key: Seq<bool>|
        key.len() == len ==> is_difference_at(
            #[trigger] find(difference, key, depth),
            find(a, key, depth),
            find(b, key, depth),
        )
}

fn children_or_empty(node: &Option<Cell>) -> (r: Result<(Option<Cell>, Option<Cell>), BlockError>)
    ensures
        r == children_or_none(*node),
{
    match node {
        Some(c) => children_of(c),
        None => Ok((None, None)),
    }
}

fn sub_at(a: &Option<Cell>, b: &Option<Cell>, depth: usize, len: usize) -> (r: Result<
    Option<Option<Cell>>,
    BlockError,
>)
    requires
        depth <= len,
    ensures
        match sub_outcome(*a, *b, depth as nat, len as nat) {
            Err(e) => r == Err::<Option<Option<Cell>>, BlockError>(e),
            Ok(false) => r == Ok::<Option<Option<Cell>>, BlockError>(None),
            Ok(true) => r matches Ok(Some(d)) && is_difference(
                d,
                *a,
                *b,
                depth as nat,
                len as nat,
            ),
        },
        *b is None ==> r == Ok::<Option<Option<Cell>>, BlockError>(Some(*a)),
    decreases len - depth,
{
    let cb = match b {
        Some(c) => c,
        None => {
            return Ok(Some(copy_node(a)));
        },
    };
    if depth == len {
        let ca = match a {
            Some(c) => c,
            None => {
                return Ok(None);
            },
        };
        let x = read_amount(ca)?;
        let y = read_amount(cb)?;
        let mut z = x;
        if !z.sub(&y) {
            return Ok(None);
        }
        return Ok(Some(Some(amount_cell(z))));
    }
    let ac = children_or_empty(a)?;
    let bc = children_of(cb)?;
    let left = match sub_at(&ac.0, &bc.0, depth + 1, len)? {
        Some(d) => d,
        None => {
            return Ok(None);
        },
    };
    let right = match sub_at(&ac.1, &bc.1, depth + 1, len)? {
        Some(d) => d,
        None => {
            return Ok(None);
        },
    };
    let difference = make_node(copy_node(&left), copy_node(&right));
    proof {
        assert forall|key: Seq<bool>| key.len() == len implies is_difference_at(
            #[trigger] find(difference, key, depth as nat),
            find(*a, key, depth as nat),
            find(*b, key, depth as nat),
        ) by {
            let bit = key[depth as int];
            let next = if bit {
                right
            } else {
                left
            };
            assert(is_difference_at(
                find(next, key, (depth + 1) as nat),
                find(side(ac, bit), key, (depth + 1) as nat),
                find(side(bc, bit), key, (depth + 1) as nat),
            ));
            if difference is Some {
                assert(side((left, right), bit) == next);
            } else {
                assert(next is None);
            }
            if *a is None {
                assert(find(side(ac, bit), key, (depth + 1) as nat) == find(*a, key, depth as nat));
            }
        }
    }
    Ok(Some(difference))
}

/// The 32 bits of a currency identifier, as a key.
pub fn currency_key(id: u32) -> (key: Vec<bool>)
    ensures
        key@ == uint_bits(id as nat, 32),
        key@.len() == 32,
{
    let mut key: Vec<bool> = Vec::new();
    push_uint(&mut key, id as u128, 32);
    proof {
        lemma_uint_bits_len(id as nat, 32);
        assert(key@ =~= uint_bits(id as nat, 32));
    }
    key
}

/// The extra currencies of a balance: a dictionary from currency identifiers to amounts,
/// held by its root.
#[derive(Debug, Eq)]
pub struct ExtraCurrencyCollection {
    pub root: Option<Cell>,
}

impl ExtraCurrencyCollection {
    /// Whether the roots of the two dictionaries are both absent, or have the same hash.
    pub open spec fn same_as(&self, other: &ExtraCurrencyCollection) -> bool {
        crate::cell::same_node(self.root, other.root)
    }

    pub fn default() -> (r: ExtraCurrencyCollection)
        ensures
            r.root is None,
    {
        ExtraCurrencyCollection { root: None }
    }

    pub fn with_root(root: Cell) -> (r: ExtraCurrencyCollection)
        ensures
            r.root == Some(root),
    {
        ExtraCurrencyCollection { root: Some(root) }
    }

    pub fn is_empty(&self) -> (b: bool)
        ensures
            b == (self.root is None),
    {
        self.root.is_none()
    }

    /// The amount of the currency `id`, and none where the balance has none of it. It
    /// fails where the dictionary or the amount cannot be read.
    pub open spec fn spec_get(&self, id: u32) -> Result<Option<Grams>, BlockError> {
        amount_found(find(self.root, uint_bits(id as nat, 32), 0))
    }

    pub fn get(&self, id: u32) -> (r: Result<Option<Grams>, BlockError>)
        ensures
            r == self.spec_get(id),
    {
        let key = currency_key(id);
        match crate::dict::get(&self.root, &key)? {
            None => Ok(None),
            Some(leaf) => Ok(Some(read_amount(&leaf)?)),
        }
    }

    /// Sets the amount of the currency `id`: it is then the amount of that currency,
    /// and the amounts of all other currencies are found as before. It fails and changes
    /// nothing where looking up the currency fails. The counts that the root carries
    /// grow by no more than 33 nodes and 188 bits.
    pub fn set(&mut self, id: u32, amount: Grams) -> (r: Result<(), BlockError>)
        ensures
            cells_below(final(self).root) <= cells_below(old(self).root) + 33,
            bits_below(final(self).root) <= bits_below(old(self).root) + 188,
            match find(old(self).root, uint_bits(id as nat, 32), 0) {
                Err(e) => r == Err::<(), BlockError>(e) && *final(self) == *old(self),
                Ok(_) => r is Ok && final(self).spec_get(id) == Ok::<Option<Grams>, BlockError>(
                    Some(amount),
                ) && forall|other: u32|
                    other != id ==> #[trigger] final(self).spec_get(other) == old(self).spec_get(
                        other,
                    ),
            },
    {
        let key = currency_key(id);
        let root = crate::dict::set(&self.root, &key, amount_cell(amount))?;
        proof {
            assert forall|other: u32| other != id implies #[trigger] find(
                root,
                uint_bits(other as nat, 32),
                0,
            ) == find(self.root, uint_bits(other as nat, 32), 0) by {
                lemma_uint_bits_len(other as nat, 32);
                crate::bits::lemma_pow2_128();
                if uint_bits(other as nat, 32) == uint_bits(id as nat, 32) {
                    crate::bits::lemma_uint_bits_injective(other as nat, id as nat, 32);
                }
            }
        }
        self.root = root;
        Ok(())
    }

    /// Adds the amounts of `other`, currency by currency, each sum held at the largest
    /// amount. It fails and changes nothing where a node that both dictionaries have at
    /// the same place cannot be read. Adding no currencies changes nothing, and adding
    /// to no currencies gives those that are added.
    pub fn add(&mut self, other: &ExtraCurrencyCollection) -> (r: Result<(), BlockError>)
        ensures
            match add_error(old(self).root, other.root, 0, 32) {
                Some(e) => r == Err::<(), BlockError>(e) && *final(self) == *old(self),
                None => r is Ok && is_sum(final(self).root, old(self).root, other.root, 0, 32),
            },
            other.root is None ==> r is Ok && *final(self) == *old(self),
            old(self).root is None ==> r is Ok && *final(self) == *other,
    {
        let root = add_at(&self.root, &other.root, 0, CURRENCY_ID_BITS)?;
        self.root = root;
        Ok(())
    }

    /// Takes the amounts of `other` away, currency by currency, where each of them is
    /// there, and says whether it did. Where one is not, nothing changes. It fails and
    /// changes nothing where that cannot be told; see `sub_outcome`. Taking no
    /// currencies away succeeds and changes nothing.
    pub fn sub(&mut self, other: &ExtraCurrencyCollection) -> (r: Result<bool, BlockError>)
        ensures
            other.root is None ==> r == Ok::<bool, BlockError>(true) && *final(self) == *old(self),
            match sub_outcome(old(self).root, other.root, 0, 32) {
                Err(e) => r == Err::<bool, BlockError>(e) && *final(self) == *old(self),
                Ok(false) => r == Ok::<bool, BlockError>(false) && *final(self) == *old(self),
                Ok(true) => r == Ok::<bool, BlockError>(true) && is_difference(
                    final(self).root,
                    old(self).root,
                    other.root,
                    0,
                    32,
                ),
            },
    {
        match sub_at(&self.root, &other.root, 0, CURRENCY_ID_BITS)? {
            Some(root) => {
                self.root = root;
                Ok(true)
            },
            None => Ok(false),
        }
    }

    /// In a sum, the amount of every currency is the sum of its amounts in the two
    /// balances, held at the largest amount; a currency that one balance lacks has the
    /// amount it has in the other.
    pub proof fn lemma_sum_amounts(self, a: ExtraCurrencyCollection, b: ExtraCurrencyCollection, id: u32)
        requires
            is_sum(self.root, a.root, b.root, 0, 32),
        ensures
            match b.spec_get(id) {
                Ok(None) => self.spec_get(id) == a.spec_get(id),
                Ok(Some(y)) => match a.spec_get(id) {
                    Ok(None) => self.spec_get(id) == b.spec_get(id),
                    Ok(Some(x)) => self.spec_get(id) matches Ok(Some(z)) && z@ == Grams::spec_add(
                        x@,
                        y@,
                    ),
                    Err(_) => true,
                },
                Err(_) => true,
            },
    {
        let key = uint_bits(id as nat, 32);
        lemma_uint_bits_len(id as nat, 32);
        assert(is_sum_at(find(self.root, key, 0), find(a.root, key, 0), find(b.root, key, 0)));
    }

    /// In a difference, the amount of every currency is its amount in the first balance
    /// less its amount in the second, which is not more.
    pub proof fn lemma_difference_amounts(
        self,
        a: ExtraCurrencyCollection,
        b: ExtraCurrencyCollection,
        id: u32,
    )
        requires
            is_difference(self.root, a.root, b.root, 0, 32),
        ensures
            match b.spec_get(id) {
                Ok(None) => self.spec_get(id) == a.spec_get(id),
                Ok(Some(y)) => {
                    &&& a.spec_get(id) matches Ok(Some(x))
                    &&& self.spec_get(id) matches Ok(Some(z))
                    &&& x@ >= y@
                    &&& z@ == x@ - y@
                },
                Err(_) => true,
            },
    {
        let key = uint_bits(id as nat, 32);
        lemma_uint_bits_len(id as nat, 32);
        assert(is_difference_at(
            find(self.root, key, 0),
            find(a.root, key, 0),
            find(b.root, key, 0),
        ));
    }

    /// The layout: a zero bit for none, a one bit and the root as a child otherwise.
    pub open spec fn payload(&self) -> Payload {
        maybe_ref_payload(self.root)
    }

    #[verifier::opaque]
    pub open spec fn parse(p: Payload) -> Result<(ExtraCurrencyCollection, Payload), BlockError> {
        match parse_maybe_ref(p) {
            Ok((root, rest)) => Ok((ExtraCurrencyCollection { root }, rest)),
            Err(e) => Err(e),
        }
    }

    pub proof fn lemma_parse_payload(self, rest: Payload)
        ensures
            Self::parse(self.payload().concat(rest)) == Ok::<
                (ExtraCurrencyCollection, Payload),
                BlockError,
            >((self, rest)),
    {
        reveal(ExtraCurrencyCollection::parse);
        lemma_parse_maybe_ref(self.root, rest);
    }

    pub fn encode(&self, out: &mut Fragment)
        ensures
            final(out)@ == old(out)@.concat(self.payload()),
    {
        push_maybe_ref(out, &self.root);
    }

    pub fn construct_from(slice: &mut SliceData) -> (r: Result<ExtraCurrencyCollection, BlockError>)
        ensures
            match Self::parse(old(slice)@) {
                Ok((v, rest)) => r == Ok::<ExtraCurrencyCollection, BlockError>(v) && final(slice)@
                    == rest,
                Err(e) => r == Err::<ExtraCurrencyCollection, BlockError>(e),
            },
    {
        proof {
            reveal(ExtraCurrencyCollection::parse);
        }
        match read_maybe_ref(slice) {
            Ok(root) => Ok(ExtraCurrencyCollection { root }),
            Err(e) => Err(e),
        }
    }
}

impl PartialEq for ExtraCurrencyCollection {
    fn eq(&self, other: &ExtraCurrencyCollection) -> (r: bool) {
        self.root == other.root
    }
}

impl PartialEqSpecImpl for ExtraCurrencyCollection {
    open spec fn obeys_eq_spec() -> bool {
        true
    }

    open spec fn eq_spec(&self, other: &ExtraCurrencyCollection) -> bool {
        self.same_as(other)
    }
}

impl Clone for ExtraCurrencyCollection {
    fn clone(&self) -> (r: ExtraCurrencyCollection)
        ensures
            r == *self,
    {
        match &self.root {
            Some(c) => ExtraCurrencyCollection { root: Some(c.clone()) },
            None => ExtraCurrencyCollection { root: None },
        }
    }
}

/// A balance: the native amount and the extra currencies.
#[derive(Debug, Eq)]
pub struct CurrencyCollection {
    pub grams: Grams,
    pub other: ExtraCurrencyCollection,
}

impl CurrencyCollection {
    /// Whether the two balances have the same native amount, and extra currencies with the
    /// same hash.
    pub open spec fn same_as(&self, other: &CurrencyCollection) -> bool {
        self.grams == other.grams && self.other.same_as(&other.other)
    }

    pub open spec fn wf(&self) -> bool {
        self.grams.wf()
    }

    pub fn default() -> (r: CurrencyCollection)
        ensures
            r.grams@ == 0,
            r.other.root is None,
            r.wf(),
    {
        CurrencyCollection { grams: Grams::default(), other: ExtraCurrencyCollection::default() }
    }

    /// A balance of `grams` and no extra currencies.
    pub fn with_grams(grams: u64) -> (r: CurrencyCollection)
        ensures
            r.grams@ == grams,
            r.other.root is None,
            r.wf(),
    {
        CurrencyCollection { grams: Grams::from_u64(grams), other: ExtraCurrencyCollection::default() }
    }

    pub fn from_grams(grams: Grams) -> (r: CurrencyCollection)
        ensures
            r.grams == grams,
            r.other.root is None,
    {
        CurrencyCollection { grams, other: ExtraCurrencyCollection::default() }
    }

    /// The layout has at most 125 bits and one child.
    pub proof fn lemma_payload_len(self)
        requires
            self.wf(),
        ensures
            self.payload().bits.len() <= 125,
            self.payload().refs.len() <= 1,
    {
        self.grams.lemma_payload_len();
    }

    /// The amount of the extra currency `id`.
    pub fn get_other(&self, id: u32) -> (r: Result<Option<Grams>, BlockError>)
        ensures
            r == self.other.spec_get(id),
    {
        self.other.get(id)
    }

    /// Sets the amount of the extra currency `id`. It fails and changes nothing where
    /// the amount needs more than fifteen bytes, and where looking up the currency
    /// fails. The counts that the root of the extra currencies carries grow by no more
    /// than 33 nodes and 188 bits.
    pub fn set_other(&mut self, id: u32, amount: u128) -> (r: Result<(), BlockError>)
        ensures
            final(self).grams == old(self).grams,
            cells_below(final(self).other.root) <= cells_below(old(self).other.root) + 33,
            bits_below(final(self).other.root) <= bits_below(old(self).other.root) + 188,
            amount > crate::types::MAX_GRAMS ==> r == Err::<(), BlockError>(
                BlockError::IntegerOverflow,
            ) && *final(self) == *old(self),
            amount <= crate::types::MAX_GRAMS ==> match find(
                old(self).other.root,
                uint_bits(id as nat, 32),
                0,
            ) {
                Err(e) => r == Err::<(), BlockError>(e) && *final(self) == *old(self),
                Ok(_) => r is Ok && (final(self).other.spec_get(id) matches Ok(Some(g)) && g@
                    == amount) && forall|other: u32|
                    other != id ==> #[trigger] final(self).other.spec_get(other)
                        == old(self).other.spec_get(other),
            },
    {
        let g = Grams::new(amount)?;
        let mut other = self.other.clone();
        other.set(id, g)?;
        self.other = other;
        Ok(())
    }

    /// Adds `other`: the native amounts, and the amounts of the extra currencies one by
    /// one, each sum held at the largest amount. It fails and changes nothing where a
    /// node that both dictionaries of extra currencies have at the same place cannot be
    /// read. Where `other` has no extra currencies, those of the balance stay as they
    /// are, and it succeeds.
    pub fn add(&mut self, other: &CurrencyCollection) -> (r: Result<(), BlockError>)
        ensures
            other.other.root is None ==> r is Ok && final(self).other == old(self).other,
            old(self).other.root is None ==> r is Ok && final(self).other == other.other,
            match add_error(old(self).other.root, other.other.root, 0, 32) {
                Some(e) => r == Err::<(), BlockError>(e) && *final(self) == *old(self),
                None => r is Ok && final(self).grams@ == Grams::spec_add(
                    old(self).grams@,
                    other.grams@,
                ) && final(self).grams.wf() && is_sum(
                    final(self).other.root,
                    old(self).other.root,
                    other.other.root,
                    0,
                    32,
                ),
            },
    {
        let mut extra = self.other.clone();
        extra.add(&other.other)?;
        let mut grams = self.grams;
        grams.add(&other.grams);
        self.grams = grams;
        self.other = extra;
        Ok(())
    }

    /// Whether the balance is enough for `other`: the native amount is at least that of
    /// `other`, and so is the amount of every extra currency that `other` names. It
    /// cannot be told where the native amount is enough and a node of the dictionaries
    /// cannot be read.
    pub open spec fn covers(&self, other: &CurrencyCollection) -> Result<bool, BlockError> {
        if self.grams@ < other.grams@ {
            Ok(false)
        } else {
            sub_outcome(self.other.root, other.other.root, 0, 32)
        }
    }

    /// Takes `other` away where the balance is enough, and says whether it did. Where
    /// it is not enough, or that cannot be told, the balance stays as it is. Where
    /// `other` has no extra currencies, the native amount alone decides, and the extra
    /// currencies of the balance stay as they are.
    pub fn sub(&mut self, other: &CurrencyCollection) -> (r: Result<bool, BlockError>)
        ensures
            other.other.root is None ==> r == Ok::<bool, BlockError>(
                old(self).grams@ >= other.grams@,
            ) && final(self).other == old(self).other,
            match old(self).covers(other) {
                Err(e) => r == Err::<bool, BlockError>(e) && *final(self) == *old(self),
                Ok(false) => r == Ok::<bool, BlockError>(false) && *final(self) == *old(self),
                Ok(true) => {
                    &&& r == Ok::<bool, BlockError>(true)
                    &&& final(self).grams@ == old(self).grams@ - other.grams@
                    &&& final(self).grams.wf()
                    &&& is_difference(
                        final(self).other.root,
                        old(self).other.root,
                        other.other.root,
                        0,
                        32,
                    )
                },
            },
    {
        let mut grams = self.grams;
        if !grams.sub(&other.grams) {
            return Ok(false);
        }
        let mut extra = self.other.clone();
        if !extra.sub(&other.other)? {
            return Ok(false);
        }
        self.grams = grams;
        self.other = extra;
        Ok(true)
    }

    /// The layout: the native amount, then the extra currencies.
    pub open spec fn payload(&self) -> Payload {
        self.grams.payload().concat(self.other.payload())
    }

    #[verifier::opaque]
    pub open spec fn parse(p: Payload) -> Result<(CurrencyCollection, Payload), BlockError> {
        match Grams::parse(p) {
            Err(e) => Err(e),
            Ok((grams, rest)) => match ExtraCurrencyCollection::parse(rest) {
                Err(e) => Err(e),
                Ok((other, rest2)) => Ok((CurrencyCollection { grams, other }, rest2)),
            },
        }
    }

    pub proof fn lemma_parse_payload(self, rest: Payload)
        requires
            self.wf(),
        ensures
            Self::parse(self.payload().concat(rest)) == Ok::<(CurrencyCollection, Payload), BlockError>(
                (self, rest),
            ),
    {
        reveal(CurrencyCollection::parse);
        lemma_concat_assoc(self.grams.payload(), self.other.payload(), rest);
        self.grams.lemma_parse_payload(self.other.payload().concat(rest));
        self.other.lemma_parse_payload(rest);
    }

    pub proof fn lemma_parse_wf(p: Payload)
        requires
            Self::parse(p) is Ok,
        ensures
            Self::parse(p)->Ok_0.0.wf(),
    {
        reveal(CurrencyCollection::parse);
        Grams::lemma_parse_wf(p);
    }

    pub fn encode(&self, out: &mut Fragment)
        ensures
            final(out)@ == old(out)@.concat(self.payload()),
    {
        self.grams.encode(out);
        self.other.encode(out);
        proof {
            lemma_concat_assoc(old(out)@, self.grams.payload(), self.other.payload());
        }
    }

    pub fn construct_from(slice: &mut SliceData) -> (r: Result<CurrencyCollection, BlockError>)
        ensures
            match Self::parse(old(slice)@) {
                Ok((v, rest)) => r == Ok::<CurrencyCollection, BlockError>(v) && final(slice)@
                    == rest,
                Err(e) => r == Err::<CurrencyCollection, BlockError>(e),
            },
    {
        proof {
            reveal(CurrencyCollection::parse);
        }
        let grams = Grams::construct_from(slice)?;
        let other = ExtraCurrencyCollection::construct_from(slice)?;
        Ok(CurrencyCollection { grams, other })
    }

    /// Appends the layout to `builder`, or fails and changes nothing where it does not
    /// fit.
    pub fn write_to(&self, builder: &mut BuilderData) -> (r: Result<(), BlockError>)
        ensures
            old(builder)@.concat(self.payload()).fits() ==> r is Ok && final(builder)@
                == old(builder)@.concat(self.payload()),
            !old(builder)@.concat(self.payload()).fits() ==> r == Err::<(), BlockError>(
                BlockError::CellOverflow,
            ) && final(builder)@ == old(builder)@,
    {
        let mut f = Fragment::new();
        self.encode(&mut f);
        proof {
            crate::codec::lemma_concat_empty(self.payload());
        }
        builder.append_fragment(&f)
    }

    /// The text of a balance: the native amount and, where there are extra currencies,
    /// the hash of the root of their dictionary.
    pub open spec fn text(&self) -> Seq<char> {
        match self.other.root {
            None => decimal(self.grams@),
            Some(root) => decimal(self.grams@) + ", other: "@ + hash_text(root.hash()),
        }
    }

    pub fn to_string(&self) -> (s: String)
        ensures
            s@ == self.text(),
    {
        let mut s = String::new();
        push_decimal(&mut s, self.grams.as_u128());
        match &self.other.root {
            None => {},
            Some(root) => {
                s.append(", other: ");
                push_hash(&mut s, &root.repr_hash());
            },
        }
        assert(s@ =~= self.text());
        s
    }
}

impl PartialEq for CurrencyCollection {
    fn eq(&self, other: &CurrencyCollection) -> (r: bool) {
        self.grams == other.grams && self.other == other.other
    }
}

impl PartialEqSpecImpl for CurrencyCollection {
    open spec fn obeys_eq_spec() -> bool {
        true
    }

    open spec fn eq_spec(&self, other: &CurrencyCollection) -> bool {
        self.same_as(other)
    }
}

impl Clone for CurrencyCollection {
    fn clone(&self) -> (r: CurrencyCollection)
        ensures
            r == *self,
    {
        CurrencyCollection { grams: self.grams, other: self.other.clone() }
    }
}

impl Serializable for CurrencyCollection {
    open spec fn layout(&self) -> Payload {
        self.payload()
    }

    fn write_into(&self, out: &mut Fragment) {
        self.encode(out);
    }
}

impl Default for CurrencyCollection {
    fn default() -> (r: CurrencyCollection)
        ensures
            r.grams@ == 0,
            r.other.root is None,
            r.wf(),
    {
        CurrencyCollection::default()
    }
}

} // verus!
