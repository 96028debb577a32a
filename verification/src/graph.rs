//! The layered proximity graph: its state, its invariant and the small
//! operations every algorithm is built from.

use crate::node::{saturate, Node, NodeId};
use std::collections::HashMap;
use vstd::prelude::*;

verus! {

/// What the index knows of one external id.
pub struct Entry {
    pub vector: Seq<u32>,
    pub last_hit: u64,
}

/// What the registries of the graph see of a node: its external id, whether
/// it is deleted, and its top layer.
pub struct Slot {
    pub ext_id: u64,
    pub deleted: bool,
    pub level: int,
}

/// In-memory layered graph.
pub struct Graph {
    pub(crate) nodes: Vec<Node>,
    pub(crate) levels: Vec<Vec<NodeId>>,
    pub(crate) max_level: usize,
    pub(crate) entry: Option<NodeId>,
    /// Mapping from external ids to node ids.
    pub(crate) by_ext: HashMap<u64, NodeId>,
    /// Number of live nodes.
    pub(crate) active: usize,
    /// Sum of the live nodes' footprints, clamped to `usize::MAX`.
    pub(crate) total_bytes: usize,
}

/// An adjacency list of node `owner` in an arena of `n` nodes: every link is
/// in range, none points to the owner, none occurs twice.
pub open spec fn list_ok(adj: Seq<NodeId>, owner: int, n: int) -> bool {
    &&& forall|j: int| 0 <= j < adj.len() ==> 0 <= #[trigger] adj[j] < n && adj[j] != owner
    &&& adj.no_duplicates()
}

/// Sum of the cached footprints.
pub open spec fn bytes_sum(nodes: Seq<Node>) -> nat
    decreases nodes.len(),
{
    if nodes.len() == 0 {
        0
    } else {
        bytes_sum(nodes.drop_last()) + nodes.last().bytes as nat
    }
}

/// Number of slots that are not deleted.
pub open spec fn live_count(slots: Seq<Slot>) -> nat
    decreases slots.len(),
{
    if slots.len() == 0 {
        0
    } else {
        live_count(slots.drop_last()) + if slots.last().deleted {
            0nat
        } else {
            1nat
        }
    }
}

/// Slot `i` exists and is not deleted.
pub open spec fn slot_live(slots: Seq<Slot>, i: int) -> bool {
    0 <= i < slots.len() && !slots[i].deleted
}

/// The external-id index is a bijection between its keys and the live slots.
pub open spec fn ext_index_ok(slots: Seq<Slot>, ext: Map<u64, NodeId>) -> bool {
    &&& ext.dom().finite()
    &&& forall|e: u64| #[trigger]
        ext.contains_key(e) ==> slot_live(slots, ext[e] as int) && slots[ext[e] as int].ext_id == e
    &&& forall|i: int| #[trigger]
        slot_live(slots, i) ==> ext.contains_key(slots[i].ext_id) && ext[slots[i].ext_id] == i
}

/// Every live slot is listed exactly once, under its top layer, and nothing
/// else is listed.
pub open spec fn registry_ok(slots: Seq<Slot>, reg: Seq<Seq<NodeId>>) -> bool {
    &&& forall|l: int, j: int|
        0 <= l < reg.len() && 0 <= j < reg[l].len()
            ==> slot_live(slots, #[trigger] reg[l][j] as int)
            && slots[reg[l][j] as int].level == l
    &&& forall|l: int| 0 <= l < reg.len() ==> (#[trigger] reg[l]).no_duplicates()
    &&& forall|i: int| #[trigger]
        slot_live(slots, i) ==> 0 <= slots[i].level < reg.len() && reg[slots[i].level].contains(
            i as usize,
        )
}

/// The entry point is absent exactly when no node is live, and is live
/// otherwise.
pub open spec fn entry_ok(slots: Seq<Slot>, entry: Option<NodeId>, active: usize) -> bool {
    match entry {
        None => active == 0,
        Some(e) => active > 0 && slot_live(slots, e as int),
    }
}

/// The invariant of everything that is derived from the nodes.
pub open spec fn index_ok(
    slots: Seq<Slot>,
    ext: Map<u64, NodeId>,
    reg: Seq<Seq<NodeId>>,
    max_level: usize,
    entry: Option<NodeId>,
    active: usize,
) -> bool {
    &&& ext_index_ok(slots, ext)
    &&& registry_ok(slots, reg)
    &&& reg.len() == max_level + 1
    &&& entry_ok(slots, entry, active)
    &&& active == live_count(slots)
    &&& active == ext.dom().len()
}

/// The first id of the highest layer that lists one.
pub open spec fn top_listed(reg: Seq<Seq<NodeId>>) -> Option<NodeId>
    decreases reg.len(),
{
    if reg.len() == 0 {
        None
    } else if reg.last().len() > 0 {
        Some(reg.last()[0])
    } else {
        top_listed(reg.drop_last())
    }
}

/// The registry `reg` with node `nid` listed last in layer `level`, and
/// with empty lists for the layers up to `level` that it lacked.
pub open spec fn enlisted(reg: Seq<Seq<NodeId>>, nid: NodeId, level: int) -> Seq<Seq<NodeId>> {
    Seq::new(
        if reg.len() > level {
            reg.len()
        } else {
            (level + 1) as nat
        },
        |l: int|
            (if l < reg.len() {
                reg[l]
            } else {
                Seq::empty()
            }) + (if l == level {
                seq![nid]
            } else {
                Seq::empty()
            }),
    )
}

/// Every live vector has `dims` components.
pub open spec fn vectors_have(slots: Seq<Slot>, entries: Seq<Entry>, dims: nat) -> bool {
    forall|i: int|
        0 <= i < slots.len() && 0 <= i < entries.len() && !(#[trigger] slots[i]).deleted
            ==> entries[i].vector.len() == dims
}

/// The entry of each external id: that of the node the id maps to.
pub open spec fn model_of(ext: Map<u64, NodeId>, entries: Seq<Entry>) -> Map<u64, Entry> {
    Map::new(|e: u64| ext.contains_key(e), |e: u64| entries[ext[e] as int])
}

/// Replacing one node changes the sum by the difference of the footprints.
pub proof fn lemma_bytes_sum_update(nodes: Seq<Node>, i: int, node: Node)
    requires
        0 <= i < nodes.len(),
    ensures
        bytes_sum(nodes.update(i, node)) == bytes_sum(nodes) - nodes[i].bytes + node.bytes,
        bytes_sum(nodes) >= nodes[i].bytes,
    decreases nodes.len(),
{
    if i == nodes.len() - 1 {
        assert(nodes.update(i, node).drop_last() =~= nodes.drop_last());
    } else {
        lemma_bytes_sum_update(nodes.drop_last(), i, node);
        assert(nodes.update(i, node).drop_last() =~= nodes.drop_last().update(i, node));
    }
}

/// Appending a node adds its footprint to the sum.
pub proof fn lemma_bytes_sum_push(nodes: Seq<Node>, node: Node)
    ensures
        bytes_sum(nodes.push(node)) == bytes_sum(nodes) + node.bytes,
{
    assert(nodes.push(node).drop_last() =~= nodes);
}

/// Replacing one slot changes the count by what the slot's liveness changed.
pub proof fn lemma_live_count_update(slots: Seq<Slot>, i: int, slot: Slot)
    requires
        0 <= i < slots.len(),
    ensures
        live_count(slots.update(i, slot)) == live_count(slots) - (if slots[i].deleted {
            0int
        } else {
            1int
        }) + (if slot.deleted {
            0int
        } else {
            1int
        }),
        !slots[i].deleted ==> live_count(slots) >= 1,
        live_count(slots) <= slots.len(),
    decreases slots.len(),
{
    if i == slots.len() - 1 {
        assert(slots.update(i, slot).drop_last() =~= slots.drop_last());
        lemma_live_count_bound(slots.drop_last());
    } else {
        lemma_live_count_update(slots.drop_last(), i, slot);
        assert(slots.update(i, slot).drop_last() =~= slots.drop_last().update(i, slot));
    }
}

/// No more slots are live than there are slots.
pub proof fn lemma_live_count_bound(slots: Seq<Slot>)
    ensures
        live_count(slots) <= slots.len(),
    decreases slots.len(),
{
    if slots.len() > 0 {
        lemma_live_count_bound(slots.drop_last());
    }
}

/// Appending a slot adds one to the count if the slot is live.
pub proof fn lemma_live_count_push(slots: Seq<Slot>, slot: Slot)
    ensures
        live_count(slots.push(slot)) == live_count(slots) + (if slot.deleted {
            0nat
        } else {
            1nat
        }),
{
    assert(slots.push(slot).drop_last() =~= slots);
}

/// No slot is live exactly when the count of live slots is zero.
pub proof fn lemma_live_count_zero(slots: Seq<Slot>)
    ensures
        live_count(slots) == 0 <==> forall|i: int| 0 <= i < slots.len()
            ==> (#[trigger] slots[i]).deleted,
    decreases slots.len(),
{
    if slots.len() > 0 {
        lemma_live_count_zero(slots.drop_last());
        if live_count(slots) == 0 {
            assert forall|i: int| 0 <= i < slots.len() implies (#[trigger] slots[i]).deleted by {
                if i < slots.len() - 1 {
                    assert(slots.drop_last()[i].deleted);
                }
            }
        }
    }
}

impl Default for Graph {
    /// An empty graph.
    fn default() -> (g: Self)
        ensures
            g.wf(),
            g.clean(),
            g.blank(),
            g@ == Map::<u64, Entry>::empty(),
            g.count() == 0,
            g.accounted_bytes() == 0,
            g.slot_count() == 0,
    {
        Graph::new()
    }
}

impl View for Graph {
    type V = Map<u64, Entry>;

    /// The stored vector and last access time of every live external id.
    open(crate) spec fn view(&self) -> Map<u64, Entry> {
        model_of(self.by_ext@, self.entries())
    }
}

impl Graph {
    /// What the registries see of each node.
    pub open(crate) spec fn slots(&self) -> Seq<Slot> {
        Seq::new(
            self.nodes@.len(),
            |i: int|
                Slot {
                    ext_id: self.nodes@[i].ext_id,
                    deleted: self.nodes@[i].deleted,
                    level: self.nodes@[i].level(),
                },
        )
    }

    /// The vector and access time of each node.
    pub open(crate) spec fn entries(&self) -> Seq<Entry> {
        Seq::new(
            self.nodes@.len(),
            |i: int| Entry { vector: self.nodes@[i].vec@, last_hit: self.nodes@[i].last_hit },
        )
    }

    /// The list of node ids of each layer.
    pub open(crate) spec fn registry(&self) -> Seq<Seq<NodeId>> {
        Seq::new(self.levels@.len(), |l: int| self.levels@[l]@)
    }

    /// The node each stored external id maps to.
    pub open(crate) spec fn ext_map(&self) -> Map<u64, NodeId> {
        self.by_ext@
    }

    /// Node `i` exists and is not deleted.
    pub open(crate) spec fn live(&self, i: int) -> bool {
        0 <= i < self.nodes@.len() && !self.nodes@[i].deleted
    }

    /// Adjacency of node `i` on `layer`; empty where the node or the layer
    /// does not exist.
    pub open(crate) spec fn adj(&self, i: int, layer: int) -> Seq<NodeId> {
        if 0 <= i < self.nodes@.len() && 0 <= layer < self.nodes@[i].links@.len() {
            self.nodes@[i].links@[layer]@
        } else {
            Seq::empty()
        }
    }

    /// Each node is well formed and each adjacency list is in range, free of
    /// self links and of duplicates.
    pub open(crate) spec fn nodes_ok(&self) -> bool {
        forall|i: int|
            0 <= i < self.nodes@.len() ==> {
                &&& (#[trigger] self.nodes@[i]).wf()
                &&& forall|l: int|
                    0 <= l < self.nodes@[i].links@.len() ==> list_ok(
                        #[trigger] self.nodes@[i].links@[l]@,
                        i,
                        self.nodes@.len() as int,
                    )
            }
    }

    /// Every link of a live node points to a live node.
    pub open(crate) spec fn clean(&self) -> bool {
        forall|i: int, l: int, x: NodeId|
            self.live(i) && #[trigger] self.adj(i, l).contains(x) ==> self.live(x as int)
    }

    /// Every link of a live node points to a live node or to slot `t`.
    pub open(crate) spec fn tidy(&self, t: int) -> bool {
        forall|i: int, l: int, x: NodeId|
            self.live(i) && #[trigger] self.adj(i, l).contains(x) ==> self.live(x as int) || x == t
    }

    /// Whatever links to node `nid` is linked from it on the same layer.
    pub open(crate) spec fn linked_back(&self, nid: int) -> bool {
        forall|i: int, l: int|
            self.live(i) && (#[trigger] self.adj(i, l)).contains(nid as NodeId) ==> self.adj(
                nid,
                l,
            ).contains(i as NodeId)
    }

    /// Nothing but adjacency lists and cached footprints differs between
    /// `self` and `prev`.
    pub open(crate) spec fn same_frame(&self, prev: &Graph) -> bool {
        &&& self.slots() == prev.slots()
        &&& self.entries() == prev.entries()
        &&& self.by_ext == prev.by_ext
        &&& self.levels == prev.levels
        &&& self.max_level == prev.max_level
        &&& self.entry == prev.entry
        &&& self.active == prev.active
        &&& self.nodes@.len() == prev.nodes@.len()
        &&& forall|i: int|
            0 <= i < prev.nodes@.len() ==> (#[trigger] self.nodes@[i]).links@.len()
                == prev.nodes@[i].links@.len()
        &&& forall|i: int| self.live(i) == prev.live(i)
    }

    /// The accounted total is the sum of the cached footprints, clamped.
    pub open(crate) spec fn bytes_ok(&self) -> bool {
        self.total_bytes == saturate(bytes_sum(self.nodes@) as int)
    }

    /// The invariant of the graph.
    pub open(crate) spec fn inv(&self) -> bool {
        &&& self.nodes_ok()
        &&& self.bytes_ok()
        &&& index_ok(
            self.slots(),
            self.by_ext@,
            self.registry(),
            self.max_level,
            self.entry,
            self.active,
        )
    }

    /// The graph is well formed: its links are sound, and its registries and
    /// counters agree with its nodes.
    pub open(crate) spec fn wf(&self) -> bool {
        self.inv()
    }

    /// Every live vector has `dims` components.
    pub open(crate) spec fn uniform(&self, dims: nat) -> bool {
        vectors_have(self.slots(), self.entries(), dims)
    }

    /// Number of live nodes, as the graph counts them.
    pub open(crate) spec fn count(&self) -> nat {
        self.active as nat
    }

    /// Total footprint, as the graph accounts it.
    pub open(crate) spec fn accounted_bytes(&self) -> usize {
        self.total_bytes
    }

    /// Sum of the footprints of all nodes.
    pub open(crate) spec fn footprint_sum(&self) -> nat {
        bytes_sum(self.nodes@)
    }

    /// The cached footprint of node `i`.
    pub open(crate) spec fn node_bytes(&self, i: int) -> usize {
        self.nodes@[i].bytes
    }

    /// Number of links of node `i`, over all its layers.
    pub open(crate) spec fn node_links(&self, i: int) -> nat {
        crate::node::link_count(self.nodes@[i].links@)
    }

    /// The entry point of searches.
    pub open(crate) spec fn spec_entry(&self) -> Option<NodeId> {
        self.entry
    }

    /// The highest layer of the registry.
    pub open(crate) spec fn spec_max_level(&self) -> usize {
        self.max_level
    }

    /// Number of arena slots, deleted ones included.
    pub open(crate) spec fn slot_count(&self) -> nat {
        self.nodes@.len()
    }

    /// The graph holds nothing: no slot, no id, one empty layer list, no
    /// entry point, and counters at zero.
    pub open(crate) spec fn blank(&self) -> bool {
        &&& self.slot_count() == 0
        &&& self.ext_map() == Map::<u64, NodeId>::empty()
        &&& self.registry() == seq![Seq::<NodeId>::empty()]
        &&& self.spec_max_level() == 0
        &&& self.spec_entry() is None
        &&& self.count() == 0
        &&& self.accounted_bytes() == 0
    }

    /// An empty graph.
    pub fn new() -> (g: Self)
        ensures
            g.wf(),
            g.clean(),
            g.blank(),
            forall|dims: nat| g.uniform(dims),
            g@ == Map::<u64, Entry>::empty(),
            g.count() == 0,
            g.accounted_bytes() == 0,
            g.slot_count() == 0,
    {
        let mut levels: Vec<Vec<NodeId>> = Vec::new();
        levels.push(Vec::new());
        let g = Graph {
            nodes: Vec::new(),
            levels,
            max_level: 0,
            entry: None,
            by_ext: HashMap::new(),
            active: 0,
            total_bytes: 0,
        };
        proof {
            assert(g.ext_map() =~= Map::<u64, NodeId>::empty());
            assert(g.registry() =~= seq![Seq::<NodeId>::empty()]);
        }
        g
    }
}

impl Graph {
    /// The stored vector of node `i`.
    pub open(crate) spec fn vector(&self, i: int) -> Seq<u32> {
        self.nodes@[i].vec@
    }

    /// In a uniform graph a live node's vector has the common length.
    pub(crate) proof fn lemma_uniform(&self, i: int, dims: nat)
        requires
            self.uniform(dims),
            self.live(i),
        ensures
            self.vector(i).len() == dims,
    {
        assert(!self.slots()[i].deleted);
    }

    /// The stored vector of node `nid`.
    pub(crate) fn vec_of(&self, nid: NodeId) -> (r: &[u32])
        requires
            nid < self.nodes@.len(),
        ensures
            r@ == self.vector(nid as int),
            forall|dims: nat| self.uniform(dims) && self.live(nid as int) ==> r@.len() == dims,
    {
        proof {
            assert forall|dims: nat| self.uniform(dims) && self.live(nid as int)
                implies self.vector(
                nid as int,
            ).len() == dims by {
                self.lemma_uniform(nid as int, dims);
            }
        }
        self.nodes[nid].vec.as_slice()
    }

    /// Neighbours of `nid` on `layer`; empty where the node or the layer does
    /// not exist.
    pub(crate) fn neighbors(&self, nid: NodeId, layer: usize) -> (r: &[NodeId])
        ensures
            r@ == self.adj(nid as int, layer as int),
    {
        if nid >= self.nodes.len() {
            return &[];
        }
        let links = &self.nodes[nid].links;
        if layer >= links.len() {
            return &[];
        }
        links[layer].as_slice()
    }

    /// Whether `nid` names a live node.
    pub(crate) fn is_valid_nid(&self, nid: NodeId) -> (r: bool)
        ensures
            r == self.live(nid as int),
    {
        nid < self.nodes.len() && !self.nodes[nid].is_deleted()
    }

    /// Whether an external id is stored.
    pub fn contains_ext(&self, ext_id: u64) -> (r: bool)
        ensures
            r == self@.contains_key(ext_id),
    {
        self.by_ext.contains_key(&ext_id)
    }

    /// Number of live vectors and their accounted footprint.
    pub fn stats(&self) -> (r: (usize, usize))
        ensures
            r.0 == self.count(),
            r.1 == self.accounted_bytes(),
    {
        (self.active, self.total_bytes)
    }

    /// Sum of the footprints of all nodes, clamped to `usize::MAX`, counted
    /// afresh.
    pub fn recount_bytes(&self) -> (b: usize)
        ensures
            b == saturate(self.footprint_sum() as int),
            self.wf() ==> b == self.accounted_bytes(),
    {
        let mut b: usize = 0;
        let n = self.nodes.len();
        let mut i: usize = 0;
        while i < n
            invariant
                n == self.nodes@.len(),
                i <= n,
                b == saturate(bytes_sum(self.nodes@.take(i as int)) as int),
            decreases n - i,
        {
            proof {
                assert(self.nodes@.take(i + 1).drop_last() =~= self.nodes@.take(i as int));
            }
            b = b.saturating_add(self.nodes[i].bytes);
            i += 1;
        }
        proof {
            assert(self.nodes@.take(n as int) =~= self.nodes@);
        }
        b
    }

    /// Brings the accounted total up to date after one node's footprint went
    /// from `before` to `after`. While the total is below `usize::MAX` it is
    /// exact and is adjusted in place; a clamped total is recounted.
    pub(crate) fn settle_total(&mut self, before: usize, after: usize)
        requires
            bytes_sum(old(self).nodes@) >= after,
            old(self).total_bytes == saturate(bytes_sum(old(self).nodes@) + before - after),
        ensures
            final(self).bytes_ok(),
            final(self).nodes == old(self).nodes,
            final(self).by_ext == old(self).by_ext,
            final(self).levels == old(self).levels,
            final(self).max_level == old(self).max_level,
            final(self).entry == old(self).entry,
            final(self).active == old(self).active,
    {
        if self.total_bytes < usize::MAX {
            self.total_bytes = (self.total_bytes - before).saturating_add(after);
        } else {
            self.total_bytes = self.recount_bytes();
        }
    }

    /// Replaces the adjacency of `nid` on `layer` and brings the cached
    /// footprints up to date. Nothing else changes.
    pub(crate) fn replace_links(&mut self, nid: NodeId, layer: usize, adj: Vec<NodeId>)
        requires
            old(self).nodes_ok(),
            old(self).bytes_ok(),
            nid < old(self).nodes@.len(),
            layer < old(self).nodes@[nid as int].links@.len(),
            list_ok(adj@, nid as int, old(self).nodes@.len() as int),
            old(self).nodes@[nid as int].deleted ==> adj@.len() == 0,
        ensures
            final(self).nodes_ok(),
            final(self).bytes_ok(),
            final(self).same_frame(old(self)),
            old(self).clean() && (forall|k: int|
                0 <= k < adj@.len() ==> old(self).live(#[trigger] adj@[k] as int))
                ==> final(self).clean(),
            forall|t: int|
                old(self).tidy(t) && (forall|k: int|
                    0 <= k < adj@.len() ==> old(self).live(#[trigger] adj@[k] as int))
                    ==> #[trigger] final(self).tidy(t),
            final(self).adj(nid as int, layer as int) == adj@,
            forall|i: int, l: int|
                !(i == nid && l == layer) ==> #[trigger] final(self).adj(i, l) == old(self).adj(
                    i,
                    l,
                ),
            adj@.len() <= old(self).adj(nid as int, layer as int).len() ==> final(self).total_bytes
                <= old(self).total_bytes,
    {
        let before = self.nodes[nid].bytes;
        proof {
            crate::node::lemma_link_count_update(
                self.nodes@[nid as int].links@,
                layer as int,
                adj,
            );
        }
        self.nodes[nid].links[layer] = adj;
        let after = self.nodes[nid].recompute_bytes();
        proof {
            lemma_bytes_sum_update(old(self).nodes@, nid as int, self.nodes@[nid as int]);
            assert(self.nodes@ =~= old(self).nodes@.update(nid as int, self.nodes@[nid as int]));
            lemma_bytes_sum_update(self.nodes@, nid as int, self.nodes@[nid as int]);
        }
        self.settle_total(before, after);
        proof {
            assert(self.slots() =~= old(self).slots());
            assert(self.entries() =~= old(self).entries());
            assert forall|i: int, l: int| !(i == nid && l == layer) implies #[trigger] self.adj(
                i,
                l,
            ) == old(self).adj(i, l) by {}
            assert forall|t: int|
                old(self).tidy(t) && (forall|k: int|
                    0 <= k < adj@.len() ==> old(self).live(#[trigger] adj@[k] as int))
                    implies #[trigger] self.tidy(t) by {
                assert forall|i: int, l: int, x: NodeId|
                    self.live(i) && #[trigger] self.adj(i, l).contains(x) implies self.live(
                    x as int,
                ) || x == t by {
                    if i == nid && l == layer {
                        let k = choose|k: int| 0 <= k < adj@.len() && adj@[k] == x;
                        assert(old(self).live(adj@[k] as int));
                    } else {
                        assert(old(self).adj(i, l).contains(x));
                        assert(old(self).live(i));
                    }
                }
            }
            if old(self).clean() && (forall|k: int|
                0 <= k < adj@.len() ==> old(self).live(#[trigger] adj@[k] as int)) {
                assert forall|i: int, l: int, x: NodeId|
                    self.live(i) && #[trigger] self.adj(i, l).contains(x) implies self.live(
                    x as int,
                ) by {
                    if i == nid && l == layer {
                        let k = choose|k: int| 0 <= k < adj@.len() && adj@[k] == x;
                    }
                }
            }
        }
    }
}

impl Graph {
    /// Some layer's list names node `i`.
    pub open(crate) spec fn listed(&self, i: NodeId) -> bool {
        exists|l: int, j: int|
            0 <= l < self.levels@.len() && 0 <= j < self.levels@[l]@.len()
                && #[trigger] self.levels@[l]@[j]
                == i
    }

    /// A live node from the highest layer that lists one.
    pub(crate) fn pick_entry(&self) -> (r: Option<NodeId>)
        ensures
            match r {
                Some(e) => self.live(e as int) && self.listed(e),
                None => forall|l: int, j: int|
                    0 <= l < self.levels@.len() && 0 <= j < self.levels@[l]@.len() ==> !self.live(
                        #[trigger] self.levels@[l]@[j] as int,
                    ),
            },
    {
        let mut lvl = self.levels.len();
        while lvl > 0
            invariant
                lvl <= self.levels@.len(),
                forall|l: int, j: int|
                    lvl <= l < self.levels@.len() && 0 <= j < self.levels@[l]@.len() ==> !self.live(
                        #[trigger] self.levels@[l]@[j] as int,
                    ),
            decreases lvl,
        {
            lvl -= 1;
            let list = &self.levels[lvl];
            let mut j: usize = 0;
            while j < list.len()
                invariant
                    lvl < self.levels@.len(),
                    list@ == self.levels@[lvl as int]@,
                    j <= list@.len(),
                    forall|k: int| 0 <= k < j ==> !self.live(#[trigger] list@[k] as int),
                decreases list@.len() - j,
            {
                let nid = list[j];
                if self.is_valid_nid(nid) {
                    return Some(nid);
                }
                j += 1;
            }
        }
        None
    }
}

} // verus!
