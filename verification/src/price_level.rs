use crate::types::OrderId;
use slab::Slab;
use std::collections::HashMap;
use vstd::prelude::*;

verus! {

pub type PriceLevelNodeId = usize;

#[derive(Debug)]
pub enum PriceLevelError {
    CannotRemoveLastOrder,
    DuplicateOrder,
    UnknownOrder,
    UnknownPriceLevelNode,
    CorruptLinks,
}

/// A node of the doubly linked FIFO queue of one price level.
#[derive(Debug)]
pub struct PriceLevelNode {
    pub order_id: OrderId,
    pub prev: Option<PriceLevelNodeId>,
    pub next: Option<PriceLevelNodeId>,
}

impl PriceLevelNode {
    pub fn new(
        order_id: OrderId,
        prev: Option<PriceLevelNodeId>,
        next: Option<PriceLevelNodeId>,
    ) -> (node: PriceLevelNode)
        ensures
            node.order_id == order_id,
            node.prev == prev,
            node.next == next,
    {
        PriceLevelNode { order_id, prev, next }
    }
}

// ---------------------------------------------------------------------------
// The slab that stores the nodes (outside crate `slab`).
// ---------------------------------------------------------------------------
#[verifier::external_type_specification]
#[verifier::external_body]
#[verifier::reject_recursive_types(T)]
pub struct ExSlab<T>(Slab<T>);

/// The occupied entries of a slab of price-level nodes, by key.
pub uninterp spec fn slab_entries(slab: Slab<PriceLevelNode>) -> Map<usize, PriceLevelNode>;

/// `Slab::new`: the new slab has no occupied entry.
#[verifier::external_body]
fn slab_new() -> (fresh: Slab<PriceLevelNode>)
    ensures
        slab_entries(fresh).is_empty(),
{
    Slab::new()
}

/// `Slab::len`: the number of occupied entries.
#[verifier::external_body]
fn slab_len(slab: &Slab<PriceLevelNode>) -> (n: usize)
    ensures
        n == slab_entries(*slab).len(),
{
    slab.len()
}

/// `Slab::insert`: stores the node under a key that was vacant and returns that key.
/// Not stated: the call panics when the slab's storage would exceed `isize::MAX` bytes.
#[verifier::external_body]
fn slab_insert(slab: &mut Slab<PriceLevelNode>, node: PriceLevelNode) -> (key: usize)
    ensures
        !slab_entries(*old(slab)).contains_key(key),
        slab_entries(*final(slab)) == slab_entries(*old(slab)).insert(key, node),
{
    slab.insert(node)
}

/// `Slab::try_remove`: removes and returns the entry under `key`, or returns `None`
/// and leaves the slab as it is when the key is vacant.
#[verifier::external_body]
fn slab_try_remove(slab: &mut Slab<PriceLevelNode>, key: usize) -> (removed: Option<
    PriceLevelNode,
>)
    ensures
        match removed {
            Some(node) => {
                &&& slab_entries(*old(slab)).contains_key(key)
                &&& node == slab_entries(*old(slab))[key]
                &&& slab_entries(*final(slab)) == slab_entries(*old(slab)).remove(key)
            },
            None => {
                &&& !slab_entries(*old(slab)).contains_key(key)
                &&& slab_entries(*final(slab)) == slab_entries(*old(slab))
            },
        },
{
    slab.try_remove(key)
}

/// `Slab::get`: the entry under `key`, or `None` when the key is vacant.
#[verifier::external_body]
fn slab_get(slab: &Slab<PriceLevelNode>, key: usize) -> (entry: Option<&PriceLevelNode>)
    ensures
        match entry {
            Some(node) => slab_entries(*slab).contains_key(key) && *node == slab_entries(
                *slab,
            )[key],
            None => !slab_entries(*slab).contains_key(key),
        },
{
    slab.get(key)
}

/// `Slab`'s `IndexMut`: a mutable reference to the occupied entry under `key`; what is
/// written through it becomes the entry.
#[verifier::external_body]
fn slab_entry_mut(slab: &mut Slab<PriceLevelNode>, key: usize) -> (entry: &mut PriceLevelNode)
    requires
        slab_entries(*old(slab)).contains_key(key),
    ensures
        *entry == slab_entries(*old(slab))[key],
        slab_entries(*final(slab)) == slab_entries(*old(slab)).insert(key, *final(entry)),
{
    &mut slab[key]
}

// ---------------------------------------------------------------------------
// The price level: a FIFO queue of order ids at one price.
// ---------------------------------------------------------------------------
/// The orders resting at one price, oldest first, kept as a doubly linked list
/// whose nodes live in a slab, with an index from order id to node.
pub struct PriceLevel {
    head: PriceLevelNodeId,
    tail: PriceLevelNodeId,
    nodes: Slab<PriceLevelNode>,
    order_node_mapping: HashMap<OrderId, PriceLevelNodeId>,
    /// The node keys in queue order.
    chain: Ghost<Seq<PriceLevelNodeId>>,
}

impl View for PriceLevel {
    type V = Seq<OrderId>;

    /// The order ids in the queue, oldest first.
    closed spec fn view(&self) -> Seq<OrderId> {
        let entries = slab_entries(self.nodes);
        self.chain@.map_values(|key: usize| entries[key].order_id)
    }
}

/// Whether node `i` of chain `c` links back to node `i - 1` and forward to node `i + 1`.
pub closed spec fn linked_at(
    entries: Map<usize, PriceLevelNode>,
    c: Seq<PriceLevelNodeId>,
    i: int,
) -> bool {
    &&& entries[c[i]].prev == (if i == 0 {
        None
    } else {
        Some(c[i - 1])
    })
    &&& entries[c[i]].next == (if i + 1 == c.len() {
        None
    } else {
        Some(c[i + 1])
    })
}

impl PriceLevel {
    /// The level's internal invariant: the chain is a duplicate-free list of exactly the
    /// slab's keys, linked in both directions from `head` to `tail`, holding distinct
    /// order ids, and the mapping sends each order id to its node.
    pub closed spec fn wf(&self) -> bool {
        let c = self.chain@;
        let entries = slab_entries(self.nodes);
        &&& c.len() >= 1
        &&& c.no_duplicates()
        &&& entries.dom() == c.to_set()
        &&& self.head == c[0]
        &&& self.tail == c.last()
        &&& forall|i: int| 0 <= i < c.len() ==> #[trigger] linked_at(entries, c, i)
        &&& self@.no_duplicates()
        &&& self.order_node_mapping@.dom() == self@.to_set()
        &&& forall|i: int|
            0 <= i < c.len() ==> self.order_node_mapping@[#[trigger] self@[i]] == c[i]
    }

    proof fn lemma_len(&self)
        requires
            self.wf(),
        ensures
            slab_entries(self.nodes).len() == self@.len(),
            self@.len() == self.chain@.len(),
            self@.len() >= 1,
    {
        self.chain@.unique_seq_to_set();
    }

    /// A well-formed level holds at least one order and no order twice.
    pub proof fn lemma_view_shape(&self)
        requires
            self.wf(),
        ensures
            self@.len() >= 1,
            self@.no_duplicates(),
    {
    }

    pub fn new(order_id: OrderId) -> (level: PriceLevel)
        ensures
            level.wf(),
            level@ == seq![order_id],
    {
        let mut order_node_mapping: HashMap<OrderId, PriceLevelNodeId> = HashMap::new();
        let mut nodes = slab_new();
        let price_level_node = PriceLevelNode::new(order_id, None, None);
        let node_id = slab_insert(&mut nodes, price_level_node);
        order_node_mapping.insert(order_id, node_id);
        let ghost chain = seq![node_id];
        let level = PriceLevel {
            head: node_id,
            tail: node_id,
            nodes: nodes,
            order_node_mapping,
            chain: Ghost(chain),
        };
        proof {
            let c = level.chain@;
            let entries = slab_entries(level.nodes);
            assert(entries.dom() =~= c.to_set()) by {
                assert(c.contains(node_id)) by {
                    assert(c[0] == node_id);
                }
            }
            assert(linked_at(entries, c, 0));
            assert(level@ =~= seq![order_id]);
            assert(level.order_node_mapping@.dom() =~= level@.to_set()) by {
                assert(level@[0] == order_id);
            }
        }
        level
    }

    /// The oldest order id of the level.
    pub fn front(&self) -> (r: Result<OrderId, PriceLevelError>)
        requires
            self.wf(),
        ensures
            r == Ok::<OrderId, PriceLevelError>(self@[0]),
    {
        match slab_get(&self.nodes, self.head) {
            Some(price_level_node) => Ok(price_level_node.order_id),
            None => {
                proof {
                    assert(self.chain@.contains(self.head)) by {
                        assert(self.chain@[0] == self.head);
                    }
                }
                Err(PriceLevelError::CorruptLinks)
            },
        }
    }

    /// The number of orders in the level.
    pub fn len(&self) -> (n: usize)
        requires
            self.wf(),
        ensures
            n == self@.len(),
    {
        proof {
            self.lemma_len();
        }
        slab_len(&self.nodes)
    }

    /// Appends `order_id` at the back of the queue; refused when the level holds it already.
    pub fn push_back(&mut self, order_id: OrderId) -> (r: Result<(), PriceLevelError>)
        requires
            old(self).wf(),
        ensures
            final(self).wf(),
            match r {
                Ok(()) => !old(self)@.contains(order_id) && final(self)@ == old(self)@.push(order_id),
                Err(PriceLevelError::DuplicateOrder) => old(self)@.contains(order_id)
                    && *final(self) == *old(self),
                Err(_) => false,
            },
    {
        if self.order_node_mapping.contains_key(&order_id) {
            return Err(PriceLevelError::DuplicateOrder);
        }
        let ghost c = self.chain@;
        let ghost e0 = slab_entries(self.nodes);
        let ghost v0 = self@;
        let ghost tail = self.tail;
        proof {
            assert(c.contains(tail)) by { assert(c[c.len() - 1] == tail); }
        }
        let price_level_node = PriceLevelNode::new(order_id, Some(self.tail), None);
        let price_level_node_id = slab_insert(&mut self.nodes, price_level_node);
        // update second last node's next
        let second_last_entry = slab_entry_mut(&mut self.nodes, self.tail);
        second_last_entry.next = Some(price_level_node_id);
        // update self.tail
        self.tail = price_level_node_id;
        proof {
            self.chain@ = c.push(price_level_node_id);
        }
        self.insert_mapping(order_id, price_level_node_id);
        proof {
            let k = price_level_node_id;
            let c2 = self.chain@;
            let e2 = slab_entries(self.nodes);
            let n = c.len();
            assert(!c.contains(k));
            assert forall|i: int| 0 <= i < n - 1 implies e2[c[i]] == e0[c[i]] by {
                assert(c[i] != tail);
                assert(c[i] != k) by { assert(c.contains(c[i])); }
            }
            assert(e2.dom() =~= c2.to_set()) by {
                assert forall|x: usize| c2.to_set().contains(x) implies e2.dom().contains(x) by {
                    let i = choose|i: int| 0 <= i < c2.len() && c2[i] == x;
                    if i < n {
                        assert(c.contains(x));
                    }
                }
                assert forall|x: usize| e2.dom().contains(x) implies c2.to_set().contains(x) by {
                    if x != k {
                        assert(c.to_set().contains(x));
                        let i = choose|i: int| 0 <= i < c.len() && c[i] == x;
                        assert(c2[i] == x);
                    } else {
                        assert(c2[n as int] == x);
                    }
                }
            }
            assert(c2.no_duplicates());
            assert forall|i: int| 0 <= i < c2.len() implies #[trigger] linked_at(e2, c2, i) by {
                if i < n - 1 {
                    assert(linked_at(e0, c, i));
                } else if i == n - 1 {
                    assert(linked_at(e0, c, i));
                }
            }
            assert(self@ =~= v0.push(order_id)) by {
                assert forall|i: int| 0 <= i < n implies #[trigger] e2[c[i]].order_id
                    == e0[c[i]].order_id by {
                    if i < n - 1 {
                    }
                }
            }
            assert(self.order_node_mapping@.dom() =~= self@.to_set()) by {
                assert(self@[n as int] == order_id);
                assert forall|x: OrderId| self@.to_set().contains(x) implies self.order_node_mapping@.dom().contains(x) by {
                    let i = choose|i: int| 0 <= i < self@.len() && self@[i] == x;
                    if i < n {
                        assert(v0.contains(x));
                    }
                }
                assert forall|x: OrderId| self.order_node_mapping@.dom().contains(x) implies self@.to_set().contains(x) by {
                    if x != order_id {
                        assert(v0.to_set().contains(x));
                        let i = choose|i: int| 0 <= i < v0.len() && v0[i] == x;
                        assert(self@[i] == x);
                    }
                }
            }
            assert forall|i: int| 0 <= i < c2.len() implies self.order_node_mapping@[#[trigger] self@[i]] == c2[i] by {
                if i < n {
                    assert(v0[i] != order_id) by { assert(v0.contains(v0[i])); }
                }
            }
        }
        Ok(())
    }

    /// Removes `order_id` from anywhere in the queue, keeping the order of the others.
    /// The last order of a level is never removed: the caller drops the level instead.
    pub fn delete(&mut self, order_id: OrderId) -> (r: Result<OrderId, PriceLevelError>)
        requires
            old(self).wf(),
        ensures
            final(self).wf(),
            match r {
                Ok(id) => {
                    &&& id == order_id
                    &&& old(self)@.len() > 1
                    &&& old(self)@.contains(order_id)
                    &&& final(self)@ == old(self)@.remove(old(self)@.index_of(order_id))
                },
                Err(PriceLevelError::CannotRemoveLastOrder) => old(self)@.len() == 1 && *final(self)
                    == *old(self),
                Err(PriceLevelError::UnknownOrder) => {
                    &&& old(self)@.len() > 1
                    &&& !old(self)@.contains(order_id)
                    &&& *final(self) == *old(self)
                },
                Err(_) => false,
            },
    {
        proof {
            self.lemma_len();
        }
        if slab_len(&self.nodes) == 1 {
            return Err(PriceLevelError::CannotRemoveLastOrder);
        }
        // find node id from mapping
        let price_level_node_id = match self.order_node_mapping.get(&order_id) {
            Some(id) => *id,
            None => {
                return Err(PriceLevelError::UnknownOrder);
            },
        };
        let ghost c = self.chain@;
        let ghost e0 = slab_entries(self.nodes);
        let ghost v0 = self@;
        let ghost j = v0.index_of(order_id);
        proof {
            assert(v0.to_set().contains(order_id));
            assert(v0.contains(order_id));
            assert(self.order_node_mapping@[v0[j]] == c[j]);
            assert(price_level_node_id == c[j]);
            assert(linked_at(e0, c, j));
            assert(c.contains(c[j]));
            c.remove_ensures(j);
        }
        let removed_price_level_node = match slab_try_remove(&mut self.nodes, price_level_node_id) {
            Some(node) => node,
            None => {
                return Err(PriceLevelError::UnknownPriceLevelNode);
            },
        };
        // update the prev, next, head, tail
        match removed_price_level_node.prev {
            Some(prev_node_id) => {
                proof {
                    assert(c.contains(c[j - 1]));
                    assert(c[j - 1] != c[j]);
                }
                let prev_node = slab_entry_mut(&mut self.nodes, prev_node_id);
                prev_node.next = removed_price_level_node.next;
            },
            None => {
                match removed_price_level_node.next {
                    Some(next_node_id) => {
                        self.head = next_node_id;
                    },
                    None => {
                        return Err(PriceLevelError::CorruptLinks);
                    },
                }
            },
        }
        match removed_price_level_node.next {
            Some(next_node_id) => {
                proof {
                    assert(c.contains(c[j + 1]));
                    assert(c[j + 1] != c[j]);
                }
                let next_node = slab_entry_mut(&mut self.nodes, next_node_id);
                next_node.prev = removed_price_level_node.prev;
            },
            None => {
                match removed_price_level_node.prev {
                    Some(prev_node_id) => {
                        self.tail = prev_node_id;
                    },
                    None => {
                        return Err(PriceLevelError::CorruptLinks);
                    },
                }
            },
        }
        proof {
            self.chain@ = c.remove(j);
        }
        // remove mapping
        self.remove_mapping(order_id)?;
        proof {
            self.lemma_after_unlink(c, e0, v0, j);
        }
        Ok(removed_price_level_node.order_id)
    }

    /// Removes and returns the oldest order id. The last order of a level is never
    /// removed: the caller drops the level instead.
    pub fn pop_front(&mut self) -> (r: Result<OrderId, PriceLevelError>)
        requires
            old(self).wf(),
        ensures
            final(self).wf(),
            match r {
                Ok(id) => {
                    &&& old(self)@.len() > 1
                    &&& id == old(self)@[0]
                    &&& final(self)@ == old(self)@.drop_first()
                },
                Err(PriceLevelError::CannotRemoveLastOrder) => old(self)@.len() == 1 && *final(self)
                    == *old(self),
                Err(_) => false,
            },
    {
        proof {
            self.lemma_len();
        }
        if slab_len(&self.nodes) == 1 {
            return Err(PriceLevelError::CannotRemoveLastOrder);
        }
        let ghost c = self.chain@;
        let ghost e0 = slab_entries(self.nodes);
        let ghost v0 = self@;
        proof {
            assert(linked_at(e0, c, 0));
            assert(linked_at(e0, c, 1));
            assert(c.contains(c[0]));
            assert(c.contains(c[1]));
            assert(c[1] != c[0]);
            assert(self.order_node_mapping@[v0[0]] == c[0]);
            assert(self.order_node_mapping@.dom().contains(v0[0])) by {
                assert(v0.contains(v0[0]));
            }
        }
        let removed_price_level_node = match slab_try_remove(&mut self.nodes, self.head) {
            Some(node) => node,
            None => {
                return Err(PriceLevelError::UnknownPriceLevelNode);
            },
        };
        let new_head = match removed_price_level_node.next {
            Some(next_node_id) => next_node_id,
            None => {
                return Err(PriceLevelError::CorruptLinks);
            },
        };
        let next_node = slab_entry_mut(&mut self.nodes, new_head);
        // the front node of a level with more than one order has a successor
        next_node.prev = None;
        self.head = new_head;
        proof {
            self.chain@ = c.remove(0);
        }
        self.remove_mapping(removed_price_level_node.order_id)?;
        proof {
            self.lemma_after_unlink(c, e0, v0, 0);
            assert(v0.remove(0) =~= v0.drop_first());
        }
        Ok(removed_price_level_node.order_id)
    }

    /// After node `j` of chain `c` has been taken out of the slab and its neighbours relinked,
    /// and the mapping has lost its order id, the level is well formed again.
    proof fn lemma_after_unlink(
        &self,
        c: Seq<PriceLevelNodeId>,
        e0: Map<usize, PriceLevelNode>,
        v0: Seq<OrderId>,
        j: int,
    )
        requires
            c.len() >= 2,
            0 <= j < c.len(),
            c.no_duplicates(),
            e0.dom() == c.to_set(),
            forall|i: int| 0 <= i < c.len() ==> #[trigger] linked_at(e0, c, i),
            v0 == c.map_values(|key: usize| e0[key].order_id),
            v0.no_duplicates(),
            self.chain@ == c.remove(j),
            self.head == (if j == 0 { c[1] } else { c[0] }),
            self.tail == (if j + 1 == c.len() { c[j - 1] } else { c.last() }),
            slab_entries(self.nodes) == ({
                let e1 = e0.remove(c[j]);
                let e2 = if j == 0 { e1 } else { e1.insert(c[j - 1], PriceLevelNode { next: e0[c[j]].next, ..e0[c[j - 1]] }) };
                if j + 1 == c.len() { e2 } else { e2.insert(c[j + 1], PriceLevelNode { prev: e0[c[j]].prev, ..e2[c[j + 1]] }) }
            }),
            self.order_node_mapping@.dom() == v0.to_set().remove(v0[j]),
            forall|i: int| 0 <= i < c.len() && i != j ==> self.order_node_mapping@[#[trigger] v0[i]] == c[i],
        ensures
            self.wf(),
            self@ == v0.remove(j),
    {
        let c2 = c.remove(j);
        let e = slab_entries(self.nodes);
        let n = c.len() as int;
        let skip = |i: int| if i < j { i } else { i + 1 };
        c.remove_ensures(j);
        v0.remove_ensures(j);
        assert forall|i: int| 0 <= i < n - 1 implies c2[i] == c[skip(i)] && v0.remove(j)[i] == v0[skip(i)] by {}
        assert forall|i: int| 0 <= i < n - 1 implies #[trigger] e[c2[i]].order_id == e0[c2[i]].order_id && e.contains_key(c2[i]) by {
            assert(c.contains(c[skip(i)]));
            assert(c[skip(i)] != c[j]);
        }
        assert(c2.no_duplicates()) by {
            assert forall|a: int, b: int| 0 <= a < c2.len() && 0 <= b < c2.len() && a != b implies c2[a] != c2[b] by {
                assert(c2[a] == c[skip(a)]);
                assert(c2[b] == c[skip(b)]);
            }
        }
        assert(e.dom() =~= c2.to_set()) by {
            assert forall|x: usize| e.dom().contains(x) implies c2.to_set().contains(x) by {
                assert(c.to_set().contains(x));
                let i = choose|i: int| 0 <= i < c.len() && c[i] == x;
                assert(i != j);
                if i < j {
                    assert(c2[i] == x);
                } else {
                    assert(c2[i - 1] == x);
                }
            }
            assert forall|x: usize| c2.to_set().contains(x) implies e.dom().contains(x) by {
                let i = choose|i: int| 0 <= i < c2.len() && c2[i] == x;
                assert(e.contains_key(c2[i]));
            }
        }
        assert forall|i: int| 0 <= i < c2.len() implies #[trigger] linked_at(e, c2, i) by {
            let k = skip(i);
            assert(linked_at(e0, c, k));
            if j > 0 {
                assert(linked_at(e0, c, j - 1));
            }
            if j + 1 < n {
                assert(linked_at(e0, c, j + 1));
            }
            assert(linked_at(e0, c, j));
            if k > 0 {
                assert(c[k - 1] != c[j] || k - 1 == j);
            }
            assert(c[k] != c[j]);
            if j > 0 {
                assert(c[j - 1] != c[j]);
            }
            if j + 1 < n {
                assert(c[j + 1] != c[j]);
                if j > 0 {
                    assert(c[j + 1] != c[j - 1]);
                }
            }
            if k != j - 1 && k != j + 1 {
                if j > 0 {
                    assert(c[k] != c[j - 1]);
                }
                if j + 1 < n {
                    assert(c[k] != c[j + 1]);
                }
            }
        }
        assert(self@ =~= v0.remove(j));
        assert(self@.no_duplicates()) by {
            assert forall|a: int, b: int| 0 <= a < self@.len() && 0 <= b < self@.len() && a != b implies self@[a] != self@[b] by {
                assert(self@[a] == v0[skip(a)]);
                assert(self@[b] == v0[skip(b)]);
            }
        }
        assert(self.order_node_mapping@.dom() =~= self@.to_set()) by {
            assert forall|x: OrderId| self@.to_set().contains(x) implies self.order_node_mapping@.dom().contains(x) by {
                let i = choose|i: int| 0 <= i < self@.len() && self@[i] == x;
                assert(v0[skip(i)] == x);
                assert(v0.contains(x));
                assert(x != v0[j]);
            }
            assert forall|x: OrderId| self.order_node_mapping@.dom().contains(x) implies self@.to_set().contains(x) by {
                assert(v0.to_set().contains(x));
                let i = choose|i: int| 0 <= i < v0.len() && v0[i] == x;
                assert(i != j);
                if i < j {
                    assert(self@[i] == x);
                } else {
                    assert(self@[i - 1] == x);
                }
            }
        }
        assert forall|i: int| 0 <= i < c2.len() implies self.order_node_mapping@[#[trigger] self@[i]] == c2[i] by {
            assert(self@[i] == v0[skip(i)]);
            assert(self.order_node_mapping@[v0[skip(i)]] == c[skip(i)]);
        }
    }

    fn insert_mapping(&mut self, order_id: OrderId, price_level_node_id: PriceLevelNodeId)
        ensures
            final(self).order_node_mapping@ == old(self).order_node_mapping@.insert(
                order_id,
                price_level_node_id,
            ),
            final(self).head == old(self).head,
            final(self).tail == old(self).tail,
            final(self).nodes == old(self).nodes,
            final(self).chain == old(self).chain,
    {
        self.order_node_mapping.insert(order_id, price_level_node_id);
    }

    fn remove_mapping(&mut self, order_id: OrderId) -> (r: Result<(), PriceLevelError>)
        ensures
            final(self).head == old(self).head,
            final(self).tail == old(self).tail,
            final(self).nodes == old(self).nodes,
            final(self).chain == old(self).chain,
            match r {
                Ok(()) => old(self).order_node_mapping@.contains_key(order_id)
                    && final(self).order_node_mapping@ == old(self).order_node_mapping@.remove(
                    order_id,
                ),
                Err(PriceLevelError::UnknownOrder) => {
                    &&& !old(self).order_node_mapping@.contains_key(order_id)
                    &&& final(self).order_node_mapping@ == old(self).order_node_mapping@
                },
                Err(_) => false,
            },
    {
        match self.order_node_mapping.remove(&order_id) {
            Some(_) => Ok(()),
            None => Err(PriceLevelError::UnknownOrder),
        }
    }
}

} // verus!
