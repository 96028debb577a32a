//! A defensive pass that restores the invariant of a graph whose nodes were
//! loaded from outside: it resolves clashing external ids, scrubs the
//! adjacency lists and rebuilds every registry and counter from the nodes.

use crate::graph::{
    bytes_sum, lemma_live_count_push, lemma_live_count_update, lemma_live_count_zero, list_ok,
    live_count, registry_ok, slot_live, Graph, Slot,
};
use crate::idlist::increasing;
use crate::node::{
    lemma_link_count_all_empty, lemma_link_count_push, link_count, saturate, Node, NodeId,
};
use vstd::prelude::*;

verus! {

/// A later live node carries the same external id as the live node `i`.
pub open spec fn shadowed(slots: Seq<Slot>, i: int) -> bool {
    exists|j: int| i < j < slots.len() && !(#[trigger] slots[j]).deleted
        && slots[j].ext_id == slots[i].ext_id
}

/// Number of links over all nodes and layers.
pub open spec fn total_links(nodes: Seq<Node>) -> nat
    decreases nodes.len(),
{
    if nodes.len() == 0 {
        0
    } else {
        total_links(nodes.drop_last()) + link_count(nodes.last().links@)
    }
}

/// Number of nodes without any layer.
pub open spec fn layerless(nodes: Seq<Node>) -> nat
    decreases nodes.len(),
{
    if nodes.len() == 0 {
        0
    } else {
        layerless(nodes.drop_last()) + if nodes.last().links@.len() == 0 {
            1nat
        } else {
            0nat
        }
    }
}

impl Graph {
    /// Turns node `nid` into a tombstone: deleted, without vector, every
    /// adjacency list empty. Nothing else changes.
    pub(crate) fn bury(&mut self, nid: NodeId) -> (dropped: usize)
        requires
            nid < old(self).nodes@.len(),
        ensures
            dropped == saturate(link_count(old(self).nodes@[nid as int].links@) as int),
            final(self).nodes@.len() == old(self).nodes@.len(),
            forall|i: int|
                0 <= i < old(self).nodes@.len() && i != nid
                    ==> #[trigger] final(self).nodes@[i] == old(self).nodes@[i],
            final(self).nodes@[nid as int].deleted,
            final(self).nodes@[nid as int].vec@.len() == 0,
            final(self).nodes@[nid as int].ext_id == old(self).nodes@[nid as int].ext_id,
            final(self).nodes@[nid as int].last_hit == old(self).nodes@[nid as int].last_hit,
            final(self).nodes@[nid as int].links@.len()
                == old(self).nodes@[nid as int].links@.len(),
            forall|l: int|
                0 <= l < final(self).nodes@[nid as int].links@.len()
                    ==> (#[trigger] final(self).nodes@[nid as int].links@[l])@.len() == 0,
            final(self).by_ext == old(self).by_ext,
            final(self).levels == old(self).levels,
            final(self).max_level == old(self).max_level,
            final(self).entry == old(self).entry,
            final(self).active == old(self).active,
            final(self).total_bytes == old(self).total_bytes,
    {
        let dropped = self.nodes[nid].count_links();
        self.nodes[nid].vec = Vec::new();
        self.nodes[nid].deleted = true;
        let layers = self.nodes[nid].links.len();
        let mut l: usize = 0;
        while l < layers
            invariant
                nid < self.nodes@.len(),
                self.nodes@.len() == old(self).nodes@.len(),
                layers == self.nodes@[nid as int].links@.len(),
                layers == old(self).nodes@[nid as int].links@.len(),
                l <= layers,
                forall|i: int|
                    0 <= i < old(self).nodes@.len() && i != nid
                        ==> #[trigger] self.nodes@[i] == old(self).nodes@[i],
                self.nodes@[nid as int].deleted,
                self.nodes@[nid as int].vec@.len() == 0,
                self.nodes@[nid as int].ext_id == old(self).nodes@[nid as int].ext_id,
                self.nodes@[nid as int].last_hit == old(self).nodes@[nid as int].last_hit,
                forall|k: int| 0 <= k < l
                    ==> (#[trigger] self.nodes@[nid as int].links@[k])@.len() == 0,
                self.by_ext == old(self).by_ext,
                self.levels == old(self).levels,
                self.max_level == old(self).max_level,
                self.entry == old(self).entry,
                self.active == old(self).active,
                self.total_bytes == old(self).total_bytes,
            decreases layers - l,
        {
            self.nodes[nid].links[l] = Vec::new();
            l += 1;
        }
        dropped
    }
}

/// Within the first `upto` slots a later live slot carries the same
/// external id as the live slot `i`.
pub open spec fn shadowed_before(slots: Seq<Slot>, i: int, upto: int) -> bool {
    exists|j: int| i < j < upto && !(#[trigger] slots[j]).deleted
        && slots[j].ext_id == slots[i].ext_id
}

impl Graph {
    /// Node `i` is as it was in `prev`, or — if it was live there and is not
    /// any more — it is the tombstone of what it was.
    pub open(crate) spec fn kept_or_buried(&self, prev: &Graph, i: int) -> bool {
        &&& self.nodes@[i].ext_id == prev.nodes@[i].ext_id
        &&& self.nodes@[i].last_hit == prev.nodes@[i].last_hit
        &&& self.nodes@[i].links@.len() == prev.nodes@[i].links@.len()
        &&& self.live(i) ==> self.nodes@[i] == prev.nodes@[i]
        &&& !prev.live(i) ==> self.nodes@[i] == prev.nodes@[i]
        &&& !self.live(i) && prev.live(i) ==> self.nodes@[i].vec@.len() == 0 && forall|l: int|
            0 <= l < self.nodes@[i].links@.len() ==> (#[trigger] self.nodes@[i].links@[l])@.len()
                == 0
    }

    /// Rebuilds the external-id index from the nodes, in arena order. Where
    /// two live nodes carry the same external id the later one wins and the
    /// earlier one becomes a tombstone.
    pub(crate) fn reindex(&mut self) -> (buried: usize)
        ensures
            total_links(final(self).nodes@) <= total_links(old(self).nodes@),
            layerless(final(self).nodes@) == layerless(old(self).nodes@),
            buried == saturate(total_links(old(self).nodes@) - total_links(final(self).nodes@)),
            final(self).nodes@.len() == old(self).nodes@.len(),
            crate::graph::ext_index_ok(final(self).slots(), final(self).by_ext@),
            final(self).by_ext@.dom().len() == live_count(final(self).slots()),
            forall|i: int|
                0 <= i < old(self).nodes@.len()
                    ==> #[trigger] final(self).kept_or_buried(old(self), i),
            forall|i: int|
                0 <= i < old(self).nodes@.len()
                    ==> (#[trigger] final(self).live(i) <==> old(self).live(i)
                    && !shadowed(old(self).slots(), i)),
    {
        self.by_ext.clear();
        let n = self.nodes.len();
        let mut buried: usize = 0;
        let mut i: usize = 0;
        while i < n
            invariant
                n == self.nodes@.len(),
                n == old(self).nodes@.len(),
                i <= n,
                total_links(self.nodes@) <= total_links(old(self).nodes@),
                layerless(self.nodes@) == layerless(old(self).nodes@),
                buried == saturate(total_links(old(self).nodes@) - total_links(self.nodes@)),
                forall|j: int| i <= j < n ==> #[trigger] self.nodes@[j] == old(self).nodes@[j],
                forall|j: int| 0 <= j < n ==> #[trigger] self.kept_or_buried(old(self), j),
                forall|j: int|
                    0 <= j < i
                        ==> (#[trigger] self.live(j) <==> old(self).live(j) && !shadowed_before(
                        old(self).slots(),
                        j,
                        i as int,
                    )),
                self.by_ext@.dom().finite(),
                forall|e: u64| #[trigger]
                    self.by_ext@.contains_key(e) ==> self.by_ext@[e] < i && self.live(
                        self.by_ext@[e] as int,
                    ) && self.nodes@[self.by_ext@[e] as int].ext_id == e,
                forall|j: int|
                    0 <= j < i && #[trigger] self.live(j) ==> self.by_ext@.contains_key(
                        self.nodes@[j].ext_id,
                    ) && self.by_ext@[self.nodes@[j].ext_id] == j,
                self.by_ext@.dom().len() == live_count(self.slots().take(i as int)),
            decreases n - i,
        {
            let ghost before = *self;
            if !self.nodes[i].is_deleted() {
                let e = self.nodes[i].ext_id;
                let prev = self.by_ext.insert(e, i);
                if let Some(p) = prev {
                    let d = self.bury(p);
                    buried = buried.saturating_add(d);
                    proof {
                        lemma_total_links_update(before.nodes@, p as int, self.nodes@[p as int]);
                        assert(self.nodes@ =~= before.nodes@.update(p as int,
                            self.nodes@[p as int]));
                        lemma_link_count_all_empty(self.nodes@[p as int].links@);
                        assert(self.slots().take(i as int) =~= before.slots().take(i as int).update(
                            p as int,
                            Slot { ext_id: e, deleted: true,
                                level: before.nodes@[p as int].level() },
                        ));
                        lemma_live_count_update(
                            before.slots().take(i as int),
                            p as int,
                            Slot { ext_id: e, deleted: true,
                                level: before.nodes@[p as int].level() },
                        );
                    }
                }
                proof {
                    assert(self.slots().take(i + 1) =~= self.slots().take(i as int).push(
                        self.slots()[i as int],
                    ));
                    lemma_live_count_push(self.slots().take(i as int), self.slots()[i as int]);
                    assert forall|j: int| 0 <= j < n
                        implies #[trigger] self.kept_or_buried(old(self), j) by {
                        assert(before.kept_or_buried(old(self), j));
                    }
                    assert forall|j: int| 0 <= j < i + 1
                        implies (#[trigger] self.live(j)
                            <==> old(self).live(j)
                                && !shadowed_before(old(self).slots(), j, i + 1)) by {
                        let s0 = old(self).slots();
                        assert(before.kept_or_buried(old(self), j));
                        if j < i {
                            if shadowed_before(s0, j, i as int) {
                                let k = choose|k: int|
                                    j < k < i && !(#[trigger] s0[k]).deleted && s0[k].ext_id
                                        == s0[j].ext_id;
                            }
                            if before.live(j) {
                                if s0[j].ext_id == e {
                                    assert(j < i < i + 1 && !s0[i as int].deleted
                                        && s0[i as int].ext_id
                                        == s0[j].ext_id);
                                }
                            }
                        }
                    }
                    assert forall|x: u64| #[trigger] self.by_ext@.contains_key(x)
                        implies self.by_ext@[x]
                        < i + 1 && self.live(self.by_ext@[x] as int)
                            && self.nodes@[self.by_ext@[x] as int].ext_id
                        == x by {}
                    assert forall|j: int| 0 <= j < i + 1 && #[trigger] self.live(j)
                        implies self.by_ext@.contains_key(
                        self.nodes@[j].ext_id,
                    ) && self.by_ext@[self.nodes@[j].ext_id] == j by {
                        if j < i {
                            assert(before.live(j));
                        }
                    }
                }
            } else {
                proof {
                    assert(self.slots().take(i + 1) =~= self.slots().take(i as int).push(
                        self.slots()[i as int],
                    ));
                    lemma_live_count_push(self.slots().take(i as int), self.slots()[i as int]);
                    assert forall|j: int| 0 <= j < i + 1
                        implies (#[trigger] self.live(j)
                            <==> old(self).live(j)
                                && !shadowed_before(old(self).slots(), j, i + 1)) by {
                        let s0 = old(self).slots();
                    }
                }
            }
            i += 1;
        }
        proof {
            assert(self.slots().take(n as int) =~= self.slots());
            let s0 = old(self).slots();
            assert forall|j: int| 0 <= j < n implies (shadowed(s0, j) <==> shadowed_before(
                s0,
                j,
                n as int,
            )) by {}
            let s1 = self.slots();
            assert forall|j: int| #[trigger] slot_live(s1, j)
                implies self.by_ext@.contains_key(s1[j].ext_id)
                && self.by_ext@[s1[j].ext_id] == j by {
                assert(self.live(j));
            }
        }
        buried
    }
}

/// Replacing one node changes the totals by what the node's links and
/// layers changed.
pub proof fn lemma_total_links_update(nodes: Seq<Node>, i: int, node: Node)
    requires
        0 <= i < nodes.len(),
    ensures
        total_links(nodes.update(i, node)) == total_links(nodes) - link_count(nodes[i].links@)
            + link_count(node.links@),
        layerless(nodes.update(i, node)) == layerless(nodes) - (if nodes[i].links@.len() == 0 {
            1int
        } else {
            0int
        }) + (if node.links@.len() == 0 {
            1int
        } else {
            0int
        }),
        total_links(nodes) >= link_count(nodes[i].links@),
    decreases nodes.len(),
{
    if i == nodes.len() - 1 {
        assert(nodes.update(i, node).drop_last() =~= nodes.drop_last());
    } else {
        lemma_total_links_update(nodes.drop_last(), i, node);
        assert(nodes.update(i, node).drop_last() =~= nodes.drop_last().update(i, node));
    }
}

/// One more node adds its links, and one if it has no layer.
pub proof fn lemma_total_links_take(nodes: Seq<Node>, i: int)
    requires
        0 <= i < nodes.len(),
    ensures
        total_links(nodes.take(i + 1)) == total_links(nodes.take(i)) + link_count(nodes[i].links@),
        layerless(nodes.take(i + 1)) == layerless(nodes.take(i)) + (if nodes[i].links@.len() == 0 {
            1nat
        } else {
            0nat
        }),
        layerless(nodes.take(i)) <= i,
{
    assert(nodes.take(i + 1).drop_last() =~= nodes.take(i));
    lemma_layerless_bound(nodes.take(i));
}

/// No more nodes are without a layer than there are nodes.
pub proof fn lemma_layerless_bound(nodes: Seq<Node>)
    ensures
        layerless(nodes) <= nodes.len(),
    decreases nodes.len(),
{
    if nodes.len() > 0 {
        lemma_layerless_bound(nodes.drop_last());
    }
}

impl Graph {
    /// What scrubbing makes of node `i` of `prev`: at least one layer, each
    /// list increasing and holding exactly the links of the old list that
    /// point to another, live node; a tombstone holds nothing.
    pub open(crate) spec fn scrubbed(&self, prev: &Graph, i: int) -> bool {
        let now = self.nodes@[i];
        let was = prev.nodes@[i];
        &&& now.ext_id == was.ext_id
        &&& now.last_hit == was.last_hit
        &&& now.deleted == was.deleted
        &&& !was.deleted ==> now.vec == was.vec
        &&& now.wf()
        &&& now.links@.len() == (if was.links@.len() == 0 {
            1
        } else {
            was.links@.len()
        })
        &&& forall|l: int|
            0 <= l < now.links@.len() ==> list_ok(
                #[trigger] now.links@[l]@,
                i,
                prev.nodes@.len() as int,
            ) && increasing(now.links@[l]@)
        &&& forall|l: int, x: NodeId|
            0 <= l < was.links@.len() ==> (#[trigger] now.links@[l]@.contains(x) <==> !was.deleted
                && was.links@[l]@.contains(x) && x != i && prev.live(x as int))
        &&& was.links@.len() == 0 ==> now.links@[0]@.len() == 0
        &&& link_count(now.links@) <= link_count(was.links@)
    }

    /// Scrubs the adjacency of node `i`. Returns how many links were dropped
    /// and whether the node had no layer.
    pub(crate) fn scrub_node(&mut self, i: NodeId) -> (r: (usize, bool))
        requires
            i < old(self).nodes@.len(),
        ensures
            final(self).nodes@.len() == old(self).nodes@.len(),
            forall|j: int|
                0 <= j < old(self).nodes@.len() && j != i
                    ==> #[trigger] final(self).nodes@[j] == old(self).nodes@[j],
            final(self).scrubbed(old(self), i as int),
            r.0 == saturate(
                link_count(old(self).nodes@[i as int].links@) - link_count(
                    final(self).nodes@[i as int].links@,
                ),
            ),
            r.1 == (old(self).nodes@[i as int].links@.len() == 0),
            final(self).by_ext == old(self).by_ext,
            final(self).levels == old(self).levels,
            final(self).max_level == old(self).max_level,
            final(self).entry == old(self).entry,
            final(self).active == old(self).active,
            final(self).total_bytes == old(self).total_bytes,
    {
        let fixed = self.nodes[i].links.len() == 0;
        let mut dropped: usize = 0;
        if self.nodes[i].is_deleted() {
            dropped = self.nodes[i].count_links();
            self.bury(i);
            proof {
                lemma_link_count_all_empty(self.nodes@[i as int].links@);
            }
        } else {
            let layers = self.nodes[i].links.len();
            let mut l: usize = 0;
            while l < layers
                invariant
                    i < self.nodes@.len(),
                    self.nodes@.len() == old(self).nodes@.len(),
                    layers == self.nodes@[i as int].links@.len(),
                    layers == old(self).nodes@[i as int].links@.len(),
                    l <= layers,
                    forall|j: int|
                        0 <= j < old(self).nodes@.len() && j != i
                            ==> #[trigger] self.nodes@[j] == old(self).nodes@[j],
                    self.nodes@[i as int].ext_id == old(self).nodes@[i as int].ext_id,
                    self.nodes@[i as int].last_hit == old(self).nodes@[i as int].last_hit,
                    self.nodes@[i as int].vec == old(self).nodes@[i as int].vec,
                    !self.nodes@[i as int].deleted,
                    !old(self).nodes@[i as int].deleted,
                    forall|k: int|
                        l <= k < layers
                            ==> #[trigger] self.nodes@[i as int].links@[k]
                                == old(self).nodes@[i as int].links@[k],
                    forall|k: int|
                        0 <= k < l ==> list_ok(
                            #[trigger] self.nodes@[i as int].links@[k]@,
                            i as int,
                            self.nodes@.len() as int,
                        ) && increasing(self.nodes@[i as int].links@[k]@),
                    forall|k: int, x: NodeId|
                        0 <= k < l
                            ==> (#[trigger] self.nodes@[i as int].links@[k]@.contains(x)
                                <==> old(self).nodes@[i as int].links@[k]@.contains(x) && x != i
                                    && old(self).live(
                            x as int,
                        )),
                    link_count(self.nodes@[i as int].links@.take(l as int)) <= link_count(
                        old(self).nodes@[i as int].links@.take(l as int),
                    ),
                    dropped == saturate(
                        link_count(old(self).nodes@[i as int].links@.take(l as int)) - link_count(
                            self.nodes@[i as int].links@.take(l as int),
                        ),
                    ),
                    self.by_ext == old(self).by_ext,
                    self.levels == old(self).levels,
                    self.max_level == old(self).max_level,
                    self.entry == old(self).entry,
                    self.active == old(self).active,
                    self.total_bytes == old(self).total_bytes,
                decreases layers - l,
            {
                let ghost before = *self;
                let empty: Vec<NodeId> = Vec::new();
                let list = self.neighbors(i, l);
                let had = list.len();
                let kept = self.merged_links(i, list, empty.as_slice());
                let has = kept.len();
                self.nodes[i].links[l] = kept;
                dropped = dropped.saturating_add(had - has);
                proof {
                    let a = old(self).nodes@[i as int].links@;
                    let b = self.nodes@[i as int].links@;
                    assert(a.take(l + 1).drop_last() =~= a.take(l as int));
                    assert(b.take(l + 1).drop_last() =~= b.take(l as int));
                    assert(b.take(l as int) =~= before.nodes@[i as int].links@.take(l as int));
                }
                l += 1;
            }
            proof {
                let a = old(self).nodes@[i as int].links@;
                let b = self.nodes@[i as int].links@;
                assert(a.take(layers as int) =~= a);
                assert(b.take(layers as int) =~= b);
            }
        }
        if fixed {
            let ghost before = *self;
            self.nodes[i].links.push(Vec::new());
            proof {
                lemma_link_count_push(before.nodes@[i as int].links@,
                    self.nodes@[i as int].links@[0]);
            }
        }
        let ghost before = *self;
        self.nodes[i].recompute_bytes();
        proof {
            if self.nodes@[i as int].deleted {
                lemma_link_count_all_empty(self.nodes@[i as int].links@);
            }
        }
        (dropped, fixed)
    }
}

impl Graph {
    /// Rebuilds the layer registry, the top layer, the entry point and the
    /// counters from the nodes.
    pub(crate) fn rebuild(&mut self)
        requires
            old(self).nodes_ok(),
            crate::graph::ext_index_ok(old(self).slots(), old(self).by_ext@),
            old(self).by_ext@.dom().len() == live_count(old(self).slots()),
        ensures
            final(self).wf(),
            final(self).canonical(),
            final(self).nodes == old(self).nodes,
            final(self).by_ext == old(self).by_ext,
    {
        let n = self.nodes.len();
        let mut top: usize = 0;
        let mut i: usize = 0;
        while i < n
            invariant
                self.nodes_ok(),
                n == self.nodes@.len(),
                i <= n,
                self.nodes == old(self).nodes,
                self.by_ext == old(self).by_ext,
                top < usize::MAX,
                forall|j: int| 0 <= j < i && self.live(j) ==> (#[trigger] self.nodes@[j]).level()
                    <= top,
                top > 0 ==> exists|j: int| 0 <= j < i && self.live(j)
                    && (#[trigger] self.nodes@[j]).level() == top,
            decreases n - i,
        {
            if !self.nodes[i].is_deleted() {
                let lvl = self.nodes[i].links.len() - 1;
                if lvl > top {
                    top = lvl;
                    proof {
                        assert(self.live(i as int) && self.nodes@[i as int].level() == top);
                    }
                }
            }
            i += 1;
        }
        let ghost peak: int = if top > 0 {
            choose|j: int| 0 <= j < n && self.live(j) && (#[trigger] self.nodes@[j]).level() == top
        } else {
            0
        };
        self.max_level = top;
        let mut levels: Vec<Vec<NodeId>> = Vec::new();
        let mut l: usize = 0;
        while l <= top
            invariant
                top < usize::MAX,
                l <= top + 1,
                levels@.len() == l,
                forall|k: int| 0 <= k < l ==> (#[trigger] levels@[k])@.len() == 0,
            decreases top + 1 - l,
        {
            levels.push(Vec::new());
            l += 1;
        }
        self.levels = levels;
        let mut count: usize = 0;
        let mut i: usize = 0;
        while i < n
            invariant
                self.nodes_ok(),
                n == self.nodes@.len(),
                i <= n,
                self.nodes == old(self).nodes,
                self.by_ext == old(self).by_ext,
                self.max_level == top,
                self.levels@.len() == top + 1,
                forall|j: int| 0 <= j < n && self.live(j) ==> (#[trigger] self.nodes@[j]).level()
                    <= top,
                count == live_count(self.slots().take(i as int)),
                count <= i,
                forall|k: int, t: int|
                    0 <= k < self.levels@.len() && 0 <= t < self.levels@[k]@.len() ==> (
                    #[trigger] self.levels@[k]@[t]) < i && self.live(self.levels@[k]@[t] as int)
                        && self.nodes@[self.levels@[k]@[t] as int].level() == k,
                forall|k: int| 0 <= k < self.levels@.len()
                    ==> increasing(#[trigger] self.levels@[k]@),
                forall|j: int|
                    0 <= j < i && #[trigger] self.live(j)
                        ==> self.levels@[self.nodes@[j].level()]@.contains(
                        j as usize,
                    ),
            decreases n - i,
        {
            proof {
                assert(self.slots().take(i + 1) =~= self.slots().take(i as int).push(
                    self.slots()[i as int],
                ));
                lemma_live_count_push(self.slots().take(i as int), self.slots()[i as int]);
            }
            if !self.nodes[i].is_deleted() {
                let lvl = self.nodes[i].links.len() - 1;
                let ghost before = *self;
                self.levels[lvl].push(i);
                count += 1;
                proof {
                    assert forall|j: int| 0 <= j < i + 1 && #[trigger] self.live(j)
                        implies self.levels@[self.nodes@[j].level()]@.contains(
                        j as usize,
                    ) by {
                        if j < i {
                            assert(before.live(j));
                            let lj = before.nodes@[j].level();
                            let w = choose|w: int|
                                0 <= w < before.levels@[lj]@.len()
                                    && before.levels@[lj]@[w] == j as usize;
                            assert(self.levels@[lj]@[w] == j as usize);
                        } else {
                            assert(self.levels@[lvl as int]@[self.levels@[lvl as int]@.len() - 1]
                                == i);
                        }
                    }
                }
            }
            i += 1;
        }
        let ghost built = *self;
        self.active = count;
        self.total_bytes = self.recount_bytes();
        self.entry = self.first_listed();
        proof {
            assert(self.slots().take(n as int) =~= self.slots());
            let s = self.slots();
            let r = self.registry();
            assert forall|l: int| 0 <= l < r.len() implies increasing(#[trigger] r[l]) by {
                assert(increasing(built.levels@[l]@));
            }
            if top > 0 {
                assert(built.live(peak));
                assert(built.levels@[built.nodes@[peak].level()]@.contains(peak as usize));
                assert(r[top as int] == built.levels@[top as int]@);
            }
            if self.entry is Some {
                let e = self.entry->0;
                let (l, j) = choose|l: int, j: int|
                    0 <= l < self.levels@.len() && 0 <= j < self.levels@[l]@.len()
                        && #[trigger] self.levels@[l]@[j] == e;
                assert(built.live(built.levels@[l]@[j] as int));
            }
            assert forall|k: int| 0 <= k < r.len() implies (#[trigger] r[k]).no_duplicates() by {
                crate::idlist::lemma_increasing_distinct(r[k]);
            }
            assert forall|j: int| #[trigger] slot_live(s, j) implies 0 <= s[j].level < r.len()
                && r[s[j].level].contains(j as usize) by {
                assert(built.live(j));
            }
            lemma_live_count_zero(s);
            match self.entry {
                Some(e) => {},
                None => {
                    assert forall|j: int| 0 <= j < s.len() implies (#[trigger] s[j]).deleted by {
                        if !s[j].deleted {
                            assert(slot_live(s, j));
                            assert(built.live(j));
                            assert(built.levels@[built.nodes@[j].level()]@.contains(j as usize));
                        }
                    }
                },
            }
            assert(crate::graph::registry_ok(s, r));
            assert(crate::graph::entry_ok(s, self.entry, self.active));
            assert(self.canonical());
            assert(self.wf());
        }
    }

    /// The registry is in its canonical form: each layer lists its nodes in
    /// arena order, the top layer lists a node unless it is the base layer,
    /// and the entry point is the first node of the highest layer that lists
    /// one.
    pub open(crate) spec fn canonical(&self) -> bool {
        &&& forall|l: int| 0 <= l < self.registry().len()
            ==> increasing(#[trigger] self.registry()[l])
        &&& self.trimmed()
        &&& self.spec_entry() == crate::graph::top_listed(self.registry())
    }

    /// Every adjacency list is increasing.
    pub open(crate) spec fn sorted(&self) -> bool {
        forall|i: int, l: int| increasing(#[trigger] self.adj(i, l))
    }

    /// `self` and `prev` hold the same slots, vectors, access times, ids,
    /// links, layer lists, top layer, entry point and counters.
    pub open(crate) spec fn agrees(&self, prev: &Graph) -> bool {
        &&& self.slots() == prev.slots()
        &&& self.entries() == prev.entries()
        &&& self.ext_map() == prev.ext_map()
        &&& self.registry() == prev.registry()
        &&& self.spec_max_level() == prev.spec_max_level()
        &&& self.spec_entry() == prev.spec_entry()
        &&& self.count() == prev.count()
        &&& self.accounted_bytes() == prev.accounted_bytes()
        &&& forall|i: int, l: int| #[trigger] self.adj(i, l) == prev.adj(i, l)
    }

    /// Number of links over all nodes and layers.
    pub open(crate) spec fn link_total(&self) -> nat {
        total_links(self.nodes@)
    }

    /// Number of nodes without any layer.
    pub open(crate) spec fn layerless_count(&self) -> nat {
        layerless(self.nodes@)
    }

    /// Restores the invariant from the nodes alone. Of two live nodes with
    /// one external id the earlier becomes a tombstone; every node gets at
    /// least one layer; every adjacency list keeps exactly its links to other
    /// live nodes, sorted and without duplicates; the external-id index, the
    /// layer registry, the entry point and the counters are rebuilt. Returns
    /// the number of links dropped and the number of nodes that had no layer.
    /// A graph that is well formed, clean, sorted and canonical already is
    /// left as it is, and both counts are zero.
    pub fn sanitize(&mut self) -> (r: (usize, usize))
        ensures
            final(self).wf(),
            final(self).clean(),
            final(self).canonical(),
            final(self).slot_count() == old(self).slot_count(),
            forall|i: int|
                0 <= i < old(self).slot_count()
                    ==> (#[trigger] final(self).live(i) <==> old(self).live(
                    i,
                ) && !shadowed(old(self).slots(), i)),
            forall|i: int|
                0 <= i < old(self).slot_count()
                    ==> (#[trigger] final(self).slots()[i]).ext_id == old(self).slots()[i].ext_id
                    && final(self).slots()[i].level == (if old(self).slots()[i].level < 0 {
                    0
                } else {
                    old(self).slots()[i].level
                }),
            forall|i: int|
                0 <= i < old(self).slot_count() && final(self).live(i)
                    ==> #[trigger] final(self).entries()[i] == old(self).entries()[i],
            forall|i: int|
                0 <= i < old(self).slot_count() && !final(self).live(i)
                    ==> (#[trigger] final(self).entries()[i]).last_hit == old(
                    self,
                ).entries()[i].last_hit && final(self).entries()[i].vector.len() == 0,
            forall|i: int, l: int, x: NodeId|
                0 <= i < old(self).slot_count() ==> (#[trigger] final(self).adj(i, l).contains(x)
                    <==> final(self).live(i) && old(self).adj(i, l).contains(x) && x != i
                        && final(self).live(x as int)),
            final(self).sorted(),
            r.0 == saturate(old(self).link_total() - final(self).link_total()),
            r.1 == old(self).layerless_count(),
            old(self).wf()
                ==> final(self)@ == old(self)@ && final(self).count() == old(self).count(),
            forall|d: nat| old(self).uniform(d) ==> final(self).uniform(d),
            old(self).wf() && old(self).clean() && old(self).sorted() && old(self).canonical()
                ==> final(self).agrees(old(self)) && r == (0usize, 0usize),
    {
        let mut dropped = self.reindex();
        let ghost mid = *self;
        let ghost buried = total_links(old(self).nodes@) - total_links(mid.nodes@);
        let n = self.nodes.len();
        let mut fixed: usize = 0;
        let mut i: usize = 0;
        while i < n
            invariant
                n == self.nodes@.len(),
                n == mid.nodes@.len(),
                i <= n,
                self.by_ext == mid.by_ext,
                forall|j: int| i <= j < n ==> #[trigger] self.nodes@[j] == mid.nodes@[j],
                forall|j: int| 0 <= j < i ==> #[trigger] self.scrubbed(&mid, j),
                forall|j: int| 0 <= j < n
                    ==> (#[trigger] self.nodes@[j]).deleted == mid.nodes@[j].deleted,
                total_links(self.nodes@.take(i as int)) <= total_links(mid.nodes@.take(i as int)),
                buried >= 0,
                dropped == saturate(
                    buried + total_links(mid.nodes@.take(i as int)) - total_links(
                        self.nodes@.take(i as int),
                    ),
                ),
                fixed == layerless(mid.nodes@.take(i as int)),
                fixed <= i,
            decreases n - i,
        {
            let ghost before = *self;
            let (d, f) = self.scrub_node(i);
            dropped = dropped.saturating_add(d);
            proof {
                lemma_total_links_take(mid.nodes@, i as int);
                lemma_total_links_take(self.nodes@, i as int);
                assert(self.nodes@.take(i as int) =~= before.nodes@.take(i as int));
            }
            if f {
                fixed += 1;
            }
            proof {
                assert forall|j: int| 0 <= j < i + 1 implies #[trigger] self.scrubbed(&mid, j) by {
                    if j < i {
                        assert(before.scrubbed(&mid, j));
                    }
                }
            }
            i += 1;
        }
        let ghost scrubbed = *self;
        proof {
            assert(self.nodes@.take(n as int) =~= self.nodes@);
            assert(mid.nodes@.take(n as int) =~= mid.nodes@);
            // The nodes are sound.
            assert forall|j: int| 0 <= j < self.nodes@.len() implies {
                &&& (#[trigger] self.nodes@[j]).wf()
                &&& forall|l: int|
                    0 <= l < self.nodes@[j].links@.len() ==> list_ok(
                        #[trigger] self.nodes@[j].links@[l]@,
                        j,
                        self.nodes@.len() as int,
                    )
            } by {
                assert(self.scrubbed(&mid, j));
            }
            // The external-id index still fits.
            let s1 = self.slots();
            let sm = mid.slots();
            assert forall|j: int| 0 <= j < n implies (#[trigger] s1[j]).ext_id == sm[j].ext_id
                && s1[j].deleted == sm[j].deleted by {
                assert(self.scrubbed(&mid, j));
            }
            assert forall|j: int| #[trigger] slot_live(s1, j)
                implies self.by_ext@.contains_key(s1[j].ext_id)
                && self.by_ext@[s1[j].ext_id] == j by {
                assert(slot_live(sm, j));
            }
            lemma_live_count_same(s1, sm);
        }
        self.rebuild();
        proof {
            let s0 = old(self).slots();
            assert forall|j: int| 0 <= j < n implies (#[trigger] self.live(j) <==> old(self).live(j)
                && !shadowed(s0, j)) by {
                assert(mid.live(j) <==> old(self).live(j) && !shadowed(s0, j));
            }
            assert forall|j: int| 0 <= j < n
                implies (#[trigger] self.slots()[j]).ext_id == old(self).slots()[j].ext_id
                && self.slots()[j].level == (if old(self).slots()[j].level < 0 {
                0
            } else {
                old(self).slots()[j].level
            }) by {
                assert(scrubbed.scrubbed(&mid, j));
                assert(mid.kept_or_buried(old(self), j));
            }
            assert forall|j: int| 0 <= j < n && !self.live(j)
                implies (#[trigger] self.entries()[j]).last_hit == old(self).entries()[j].last_hit
                && self.entries()[j].vector.len() == 0 by {
                assert(scrubbed.scrubbed(&mid, j));
                assert(mid.kept_or_buried(old(self), j));
            }
            assert forall|j: int| 0 <= j < n && self.live(j)
                implies #[trigger] self.entries()[j] == old(self).entries()[j] by {
                assert(scrubbed.scrubbed(&mid, j));
                assert(mid.kept_or_buried(old(self), j));
            }
            assert forall|j: int, l: int, x: NodeId| 0 <= j < n implies (#[trigger] self.adj(
                j,
                l,
            ).contains(x)
                <==> self.live(j) && old(self).adj(j, l).contains(x) && x != j && self.live(
                x as int,
            )) by {
                assert(scrubbed.scrubbed(&mid, j));
                assert(mid.kept_or_buried(old(self), j));
            }
            assert forall|j: int, l: int| increasing(#[trigger] self.adj(j, l)) by {
                if 0 <= j < n && 0 <= l < self.nodes@[j].links@.len() {
                    assert(scrubbed.scrubbed(&mid, j));
                }
            }
            assert(self.clean()) by {
                assert forall|j: int, l: int, x: NodeId|
                    self.live(j) && #[trigger] self.adj(j, l).contains(x) implies self.live(
                    x as int,
                ) by {}
            }
            if old(self).wf() {
                assert forall|j: int| 0 <= j < n implies !shadowed(s0, j) || !old(self).live(j) by {
                    if shadowed(s0, j) && old(self).live(j) {
                        let k = choose|k: int|
                            j < k < s0.len() && !(#[trigger] s0[k]).deleted && s0[k].ext_id
                                == s0[j].ext_id;
                        assert(slot_live(s0, j));
                        assert(slot_live(s0, k));
                    }
                }
                assert(self.by_ext@ =~= old(self).by_ext@) by {
                    assert forall|e: u64| self.by_ext@.contains_key(e)
                        implies old(self).by_ext@.contains_key(
                        e,
                    ) && #[trigger] self.by_ext@[e] == old(self).by_ext@[e] by {
                        let j = self.by_ext@[e] as int;
                        assert(self.live(j));
                        assert(slot_live(s0, j));
                    }
                    assert forall|e: u64| old(self).by_ext@.contains_key(e)
                        implies #[trigger] self.by_ext@.contains_key(
                        e,
                    ) by {
                        let j = old(self).by_ext@[e] as int;
                        assert(self.live(j));
                        assert(slot_live(self.slots(), j));
                    }
                }
                assert(self@ =~= old(self)@) by {
                    assert forall|e: u64| self@.contains_key(e)
                        implies #[trigger] self@[e] == old(self)@[e] by {
                        let j = self.by_ext@[e] as int;
                    }
                }
            }
            if old(self).wf() && old(self).clean() && old(self).sorted() && old(self).canonical() {
                lemma_settled(old(self), self);
            }
            assert forall|d: nat| old(self).uniform(d) implies self.uniform(d) by {
                assert forall|j: int|
                    0 <= j < self.slots().len() && 0 <= j < self.entries().len() && !(
                    #[trigger] self.slots()[j]).deleted implies self.entries()[j].vector.len()
                    == d by {}
            }
        }
        (dropped, fixed)
    }
}

/// Two increasing lists that hold the same ids are the same list.
pub proof fn lemma_increasing_same(a: Seq<NodeId>, b: Seq<NodeId>)
    requires
        increasing(a),
        increasing(b),
        forall|x: NodeId| a.contains(x) <==> b.contains(x),
    ensures
        a == b,
    decreases a.len(),
{
    if a.len() == 0 {
        if b.len() > 0 {
            assert(b.contains(b[0]));
            let k = choose|k: int| 0 <= k < a.len() && a[k] == b[0];
        }
        assert(a =~= b);
    } else {
        let x = a.last();
        assert(a.contains(x));
        let k = choose|k: int| 0 <= k < b.len() && b[k] == x;
        let y = b.last();
        assert(b.contains(y));
        let j = choose|j: int| 0 <= j < a.len() && a[j] == y;
        assert(x == y);
        let a0 = a.drop_last();
        let b0 = b.drop_last();
        assert forall|z: NodeId| a0.contains(z) <==> b0.contains(z) by {
            if a0.contains(z) {
                let i = choose|i: int| 0 <= i < a0.len() && a0[i] == z;
                assert(a[i] == z);
                assert(a.contains(z));
                let t = choose|t: int| 0 <= t < b.len() && b[t] == z;
                assert(b0[t] == z);
            }
            if b0.contains(z) {
                let i = choose|i: int| 0 <= i < b0.len() && b0[i] == z;
                assert(b[i] == z);
                assert(b.contains(z));
                let t = choose|t: int| 0 <= t < a.len() && a[t] == z;
                assert(a0[t] == z);
            }
        }
        lemma_increasing_same(a0, b0);
        assert(a =~= a0.push(x));
        assert(b =~= b0.push(y));
    }
}

/// Two arenas whose nodes cache the same footprints and hold the same
/// numbers of links have the same sums.
pub proof fn lemma_sums_same(a: Seq<Node>, b: Seq<Node>)
    requires
        a.len() == b.len(),
        forall|i: int| 0 <= i < a.len() ==> (#[trigger] a[i]).bytes == b[i].bytes && link_count(
            a[i].links@,
        ) == link_count(b[i].links@),
    ensures
        bytes_sum(a) == bytes_sum(b),
        total_links(a) == total_links(b),
    decreases a.len(),
{
    if a.len() > 0 {
        assert(a.last().bytes == b[b.len() - 1].bytes);
        lemma_sums_same(a.drop_last(), b.drop_last());
    }
}

/// An arena in which every node has a layer has no node without one.
pub proof fn lemma_none_layerless(nodes: Seq<Node>)
    requires
        forall|i: int| 0 <= i < nodes.len() ==> (#[trigger] nodes[i]).links@.len() >= 1,
    ensures
        layerless(nodes) == 0,
    decreases nodes.len(),
{
    if nodes.len() > 0 {
        lemma_none_layerless(nodes.drop_last());
    }
}

/// Over the same slots there is one registry whose lists are increasing and
/// whose top layer lists a node or is the base layer.
pub proof fn lemma_registry_unique(slots: Seq<Slot>, a: Seq<Seq<NodeId>>, b: Seq<Seq<NodeId>>)
    requires
        registry_ok(slots, a),
        registry_ok(slots, b),
        a.len() >= 1,
        b.len() >= 1,
        a.len() == 1 || a.last().len() > 0,
        b.len() == 1 || b.last().len() > 0,
        forall|l: int| 0 <= l < a.len() ==> increasing(#[trigger] a[l]),
        forall|l: int| 0 <= l < b.len() ==> increasing(#[trigger] b[l]),
    ensures
        a == b,
{
    if a.len() > 1 {
        let x = a[a.len() - 1][0];
        assert(slot_live(slots, x as int));
    }
    if b.len() > 1 {
        let x = b[b.len() - 1][0];
        assert(slot_live(slots, x as int));
    }
    assert(a.len() == b.len());
    assert forall|l: int| 0 <= l < a.len() implies a[l] == b[l] by {
        assert forall|x: NodeId| a[l].contains(x) <==> b[l].contains(x) by {
            if a[l].contains(x) {
                let j = choose|j: int| 0 <= j < a[l].len() && a[l][j] == x;
                assert(slot_live(slots, a[l][j] as int));
            }
            if b[l].contains(x) {
                let j = choose|j: int| 0 <= j < b[l].len() && b[l][j] == x;
                assert(slot_live(slots, b[l][j] as int));
            }
        }
        lemma_increasing_same(a[l], b[l]);
    }
    assert(a =~= b);
}

/// A graph that is well formed, clean, sorted and canonical is what
/// sanitizing makes of it.
pub(crate) proof fn lemma_settled(g: &Graph, h: &Graph)
    requires
        g.wf(),
        g.clean(),
        g.sorted(),
        g.canonical(),
        h.wf(),
        h.sorted(),
        h.canonical(),
        h.slot_count() == g.slot_count(),
        h.ext_map() == g.ext_map(),
        forall|i: int| 0 <= i < g.slot_count() ==> (#[trigger] h.live(i) <==> g.live(i)),
        forall|i: int|
            0 <= i < g.slot_count() ==> (#[trigger] h.slots()[i]).ext_id == g.slots()[i].ext_id
                && h.slots()[i].level == g.slots()[i].level,
        forall|i: int|
            0 <= i < g.slot_count() && h.live(i) ==> #[trigger] h.entries()[i] == g.entries()[i],
        forall|i: int|
            0 <= i < g.slot_count() && !h.live(i) ==> (#[trigger] h.entries()[i]).last_hit
                == g.entries()[i].last_hit && h.entries()[i].vector.len() == 0,
        forall|i: int, l: int, x: NodeId|
            0 <= i < g.slot_count() ==> (#[trigger] h.adj(i, l).contains(x) <==> h.live(i) && g.adj(
                i,
                l,
            ).contains(x) && x != i && h.live(x as int)),
    ensures
        h.agrees(g),
        h.link_total() == g.link_total(),
        g.layerless_count() == 0,
{
    let n = g.slot_count() as int;
    assert(h.slots() =~= g.slots()) by {
        assert forall|i: int| 0 <= i < n implies h.slots()[i] == g.slots()[i] by {
            assert(h.live(i) <==> g.live(i));
        }
    }
    assert(h.entries() =~= g.entries()) by {
        assert forall|i: int| 0 <= i < n implies h.entries()[i] == g.entries()[i] by {
            if !h.live(i) {
                assert(!g.live(i));
                assert(g.nodes@[i].wf());
                assert(h.entries()[i].vector =~= g.entries()[i].vector);
            }
        }
    }
    assert forall|i: int, l: int| #[trigger] h.adj(i, l) == g.adj(i, l) by {
        if 0 <= i < n {
            assert(h.slots()[i].level == g.slots()[i].level);
            assert(g.nodes@[i].wf());
            assert forall|x: NodeId| h.adj(i, l).contains(x) <==> g.adj(i, l).contains(x) by {
                if g.adj(i, l).contains(x) {
                    let k = choose|k: int| 0 <= k < g.adj(i, l).len() && g.adj(i, l)[k] == x;
                    assert(list_ok(g.nodes@[i].links@[l]@, i, n));
                    assert(h.live(i) <==> g.live(i));
                    assert(h.live(x as int) <==> g.live(x as int));
                }
            }
            assert(increasing(h.adj(i, l)));
            assert(increasing(g.adj(i, l)));
            lemma_increasing_same(h.adj(i, l), g.adj(i, l));
        }
    }
    lemma_registry_unique(g.slots(), h.registry(), g.registry());
    assert forall|i: int| 0 <= i < n implies (#[trigger] h.nodes@[i]).bytes == g.nodes@[i].bytes
        && link_count(h.nodes@[i].links@) == link_count(g.nodes@[i].links@) by {
        assert(h.slots()[i].level == g.slots()[i].level);
        assert(h.entries()[i] == g.entries()[i]);
        assert(h.nodes@[i].wf());
        assert(g.nodes@[i].wf());
        assert forall|l: int| 0 <= l < h.nodes@[i].links@.len() implies (
        #[trigger] h.nodes@[i].links@[l])@ == g.nodes@[i].links@[l]@ by {
            assert(h.adj(i, l) == g.adj(i, l));
        }
        crate::serialize::lemma_link_count_same(h.nodes@[i].links@, g.nodes@[i].links@);
    }
    lemma_sums_same(h.nodes@, g.nodes@);
    assert forall|i: int| 0 <= i < n implies (#[trigger] g.nodes@[i]).links@.len() >= 1 by {
        assert(g.nodes@[i].wf());
    }
    lemma_none_layerless(g.nodes@);
}

/// Two slot sequences with the same deletion flags count the same number of
/// live slots.
pub proof fn lemma_live_count_same(a: Seq<Slot>, b: Seq<Slot>)
    requires
        a.len() == b.len(),
        forall|i: int| 0 <= i < a.len() ==> (#[trigger] a[i]).deleted == b[i].deleted,
    ensures
        live_count(a) == live_count(b),
    decreases a.len(),
{
    if a.len() > 0 {
        lemma_live_count_same(a.drop_last(), b.drop_last());
    }
}

} // verus!
