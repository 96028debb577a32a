//! Snapshots: a plain record of an index that can be stored and loaded
//! again. Deleted nodes are left out and the remaining nodes are numbered
//! densely, in arena order; links are written in that numbering.

use crate::clock::unix_now;
use crate::errors::VcalError;
use crate::graph::{lemma_live_count_push, live_count, slot_live, Entry, Graph, Slot};
use crate::idlist::copy_of;
use crate::math::Metric;
use crate::node::{link_count, saturate, Node, NodeId};
use crate::sanitize::{layerless, shadowed, total_links};
use crate::params::at_least;
use crate::Hnsw;
use vstd::prelude::*;

verus! {

/// One stored vector of a snapshot.
pub struct SerNode {
    pub ext_id: u64,
    pub vec: Vec<u32>,
    /// Per-layer adjacency; the node's top layer is the number of lists
    /// minus one.
    pub links: Vec<Vec<NodeId>>,
    pub last_hit: Option<u64>,
}

/// The stored vectors of a snapshot, in dense numbering.
pub struct SerGraph {
    pub nodes: Vec<SerNode>,
}

/// A snapshot of an index.
pub struct SerIndex {
    pub dims: usize,
    pub m: usize,
    pub ef: usize,
    pub efc: Option<usize>,
    pub graph: SerGraph,
}

/// The links of `adj` that point to live slots, each replaced by the number
/// of live slots before it.
pub open spec fn dense_links(adj: Seq<NodeId>, slots: Seq<Slot>) -> Seq<NodeId>
    decreases adj.len(),
{
    if adj.len() == 0 {
        Seq::empty()
    } else if slot_live(slots, adj.last() as int) {
        dense_links(adj.drop_last(),
            slots).push(live_count(slots.take(adj.last() as int)) as NodeId)
    } else {
        dense_links(adj.drop_last(), slots)
    }
}

/// Every vector of the snapshot has `dims` components.
pub open spec fn fits(nodes: Seq<SerNode>, dims: usize) -> bool {
    forall|i: int| 0 <= i < nodes.len() ==> (#[trigger] nodes[i]).vec@.len() == dims
}

/// Node `i` is the first of the snapshot whose vector does not have `dims`
/// components.
pub open spec fn first_misfit(nodes: Seq<SerNode>, dims: usize, i: int) -> bool {
    &&& 0 <= i < nodes.len()
    &&& nodes[i].vec@.len() != dims
    &&& forall|j: int| 0 <= j < i ==> (#[trigger] nodes[j]).vec@.len() == dims
}

/// No later node of the snapshot carries the external id of node `i`.
pub open spec fn last_of_its_id(nodes: Seq<SerNode>, i: int) -> bool {
    forall|j: int| i < j < nodes.len() ==> (#[trigger] nodes[j]).ext_id != nodes[i].ext_id
}

impl Graph {
    /// The dense number of slot `i`: the number of live slots before it.
    pub open(crate) spec fn dense_id(&self, i: int) -> nat {
        live_count(self.slots().take(i))
    }

    /// The links of node `i` on `layer`, in dense numbering.
    pub open(crate) spec fn dense_adj(&self, i: int, layer: int) -> Seq<NodeId> {
        dense_links(self.adj(i, layer), self.slots())
    }

    /// Number of layers of node `i`.
    pub open(crate) spec fn layers(&self, i: int) -> nat {
        self.nodes@[i].links@.len()
    }

    /// The snapshot nodes of the live nodes, in arena order.
    pub(crate) fn export_nodes(&self) -> (out: Vec<SerNode>)
        requires
            self.wf(),
        ensures
            out@.len() == self.count(),
            forall|i: int| #[trigger]
                self.live(i) ==> {
                    let p = self.dense_id(i) as int;
                    &&& 0 <= p < out@.len()
                    &&& out@[p].ext_id == self.slots()[i].ext_id
                    &&& out@[p].vec@ == self.entries()[i].vector
                    &&& out@[p].last_hit == Some(self.entries()[i].last_hit)
                    &&& out@[p].links@.len() == self.layers(i)
                    &&& forall|l: int|
                        0 <= l < self.layers(i)
                            ==> (#[trigger] out@[p].links@[l])@ == self.dense_adj(
                            i,
                            l,
                        )
                },
    {
        let n = self.nodes.len();
        // Dense numbers of all slots.
        let mut dense: Vec<usize> = Vec::new();
        let mut seen: usize = 0;
        let mut i: usize = 0;
        while i < n
            invariant
                n == self.nodes@.len(),
                i <= n,
                dense@.len() == i,
                seen == live_count(self.slots().take(i as int)),
                seen <= i,
                forall|j: int| 0 <= j < i ==> #[trigger] dense@[j] == self.dense_id(j),
            decreases n - i,
        {
            dense.push(seen);
            proof {
                assert(self.slots().take(i + 1) =~= self.slots().take(i as int).push(
                    self.slots()[i as int],
                ));
                lemma_live_count_push(self.slots().take(i as int), self.slots()[i as int]);
            }
            if !self.nodes[i].is_deleted() {
                seen += 1;
            }
            i += 1;
        }
        proof {
            assert(self.slots().take(n as int) =~= self.slots());
        }
        let mut out: Vec<SerNode> = Vec::new();
        let mut i: usize = 0;
        while i < n
            invariant
                self.wf(),
                n == self.nodes@.len(),
                i <= n,
                dense@.len() == n,
                forall|j: int| 0 <= j < n ==> #[trigger] dense@[j] == self.dense_id(j),
                out@.len() == self.dense_id(i as int),
                forall|j: int|
                    0 <= j < i && #[trigger] self.live(j) ==> {
                        let p = self.dense_id(j) as int;
                        &&& 0 <= p < out@.len()
                        &&& out@[p].ext_id == self.slots()[j].ext_id
                        &&& out@[p].vec@ == self.entries()[j].vector
                        &&& out@[p].last_hit == Some(self.entries()[j].last_hit)
                        &&& out@[p].links@.len() == self.layers(j)
                        &&& forall|l: int|
                            0 <= l < self.layers(j) ==> (#[trigger] out@[p].links@[l])@
                                == self.dense_adj(j, l)
                    },
            decreases n - i,
        {
            proof {
                assert(self.slots().take(i + 1) =~= self.slots().take(i as int).push(
                    self.slots()[i as int],
                ));
                lemma_live_count_push(self.slots().take(i as int), self.slots()[i as int]);
            }
            if !self.nodes[i].is_deleted() {
                let layers = self.nodes[i].links.len();
                let mut links: Vec<Vec<NodeId>> = Vec::new();
                let mut l: usize = 0;
                while l < layers
                    invariant
                        self.wf(),
                        n == self.nodes@.len(),
                        i < n,
                        layers == self.nodes@[i as int].links@.len(),
                        l <= layers,
                        dense@.len() == n,
                        forall|j: int| 0 <= j < n ==> #[trigger] dense@[j] == self.dense_id(j),
                        links@.len() == l,
                        forall|k: int| 0 <= k < l
                            ==> (#[trigger] links@[k])@ == self.dense_adj(i as int, k),
                    decreases layers - l,
                {
                    let adj = self.neighbors(i, l);
                    let mut list: Vec<NodeId> = Vec::new();
                    let mut t: usize = 0;
                    while t < adj.len()
                        invariant
                            n == self.nodes@.len(),
                            t <= adj@.len(),
                            dense@.len() == n,
                            forall|j: int| 0 <= j < n ==> #[trigger] dense@[j] == self.dense_id(j),
                            list@ == dense_links(adj@.take(t as int), self.slots()),
                        decreases adj@.len() - t,
                    {
                        let x = adj[t];
                        proof {
                            assert(adj@.take(t + 1).drop_last() =~= adj@.take(t as int));
                        }
                        if self.is_valid_nid(x) {
                            list.push(dense[x]);
                        }
                        t += 1;
                    }
                    proof {
                        assert(adj@.take(adj@.len() as int) =~= adj@);
                    }
                    links.push(list);
                    l += 1;
                }
                out.push(
                    SerNode {
                        ext_id: self.nodes[i].ext_id,
                        vec: copy_of(self.nodes[i].vec.as_slice()),
                        links,
                        last_hit: Some(self.nodes[i].last_hit),
                    },
                );
                proof {
                    assert forall|j: int| 0 <= j < i + 1 && #[trigger] self.live(j) implies {
                        let p = self.dense_id(j) as int;
                        &&& 0 <= p < out@.len()
                        &&& out@[p].ext_id == self.slots()[j].ext_id
                        &&& out@[p].vec@ == self.entries()[j].vector
                        &&& out@[p].last_hit == Some(self.entries()[j].last_hit)
                        &&& out@[p].links@.len() == self.layers(j)
                        &&& forall|l: int|
                            0 <= l < self.layers(j) ==> (#[trigger] out@[p].links@[l])@
                                == self.dense_adj(j, l)
                    } by {
                        if j < i {
                            let p = self.dense_id(j) as int;
                        }
                    }
                }
            }
            i += 1;
        }
        out
    }
}

impl<M: Metric> Hnsw<M> {
    /// Node `p` of `snap` records the live node `i`: its id, vector and
    /// access time, and its links in dense numbering.
    pub open(crate) spec fn recorded(&self, snap: &SerIndex, i: int, p: int) -> bool {
        &&& 0 <= p < snap.graph.nodes@.len()
        &&& snap.graph.nodes@[p].ext_id == self.graph.slots()[i].ext_id
        &&& snap.graph.nodes@[p].vec@ == self.graph.entries()[i].vector
        &&& snap.graph.nodes@[p].last_hit == Some(self.graph.entries()[i].last_hit)
        &&& snap.graph.nodes@[p].links@.len() == self.graph.layers(i)
        &&& forall|l: int|
            0 <= l < self.graph.layers(i) ==> (#[trigger] snap.graph.nodes@[p].links@[l])@
                == self.graph.dense_adj(i, l)
    }

    /// A snapshot of the index: its parameters and its live nodes in arena
    /// order, numbered densely.
    pub fn to_snapshot(&self) -> (snap: SerIndex)
        requires
            self.wf(),
        ensures
            snap.dims == self.spec_dims(),
            snap.m == self.spec_m(),
            snap.ef == self.spec_ef(),
            snap.efc == Some(self.spec_efc()),
            snap.graph.nodes@.len() == self.spec_len(),
            forall|i: int| #[trigger]
                self.spec_graph().live(i) ==> self.recorded(
                    &snap,
                    i,
                    self.spec_graph().dense_id(i) as int,
                ),
    {
        let nodes = self.graph.export_nodes();
        SerIndex {
            dims: self.dims,
            m: self.m,
            ef: self.ef,
            efc: Some(self.efc),
            graph: SerGraph { nodes },
        }
    }
}

/// What the index knows of a snapshot node that is loaded at `now`: its
/// vector, and its recorded access time or else `now`.
pub open spec fn loaded_entry(node: SerNode, now: u64) -> Entry {
    Entry {
        vector: node.vec@,
        last_hit: match node.last_hit {
            Some(t) => t,
            None => now,
        },
    }
}

/// The first node whose vector does not have `dims` components.
pub fn find_misfit(nodes: &Vec<SerNode>, dims: usize) -> (r: Option<usize>)
    ensures
        match r {
            Some(i) => first_misfit(nodes@, dims, i as int),
            None => fits(nodes@, dims),
        },
{
    let mut i: usize = 0;
    while i < nodes.len()
        invariant
            i <= nodes@.len(),
            forall|j: int| 0 <= j < i ==> (#[trigger] nodes@[j]).vec@.len() == dims,
        decreases nodes@.len() - i,
    {
        if nodes[i].vec.len() != dims {
            return Some(i);
        }
        i += 1;
    }
    None
}

impl Graph {
    /// Slot `i` holds what snapshot node `i` records, as a live node.
    pub open(crate) spec fn loaded(&self, nodes: Seq<SerNode>, now: u64, i: int) -> bool {
        &&& self.nodes@[i].ext_id == nodes[i].ext_id
        &&& self.nodes@[i].vec@ == nodes[i].vec@
        &&& self.nodes@[i].last_hit == loaded_entry(nodes[i], now).last_hit
        &&& !self.nodes@[i].deleted
        &&& self.nodes@[i].links@.len() == nodes[i].links@.len()
        &&& forall|l: int|
            0 <= l < nodes[i].links@.len() ==> (#[trigger] self.nodes@[i].links@[l])@
                == nodes[i].links@[l]@
    }

    /// The nodes of a snapshot as an arena, one live node for each, with no
    /// registry built yet.
    pub(crate) fn load_raw(nodes: &Vec<SerNode>, now: u64) -> (graph: Graph)
        ensures
            graph.nodes@.len() == nodes@.len(),
            forall|i: int| 0 <= i < nodes@.len() ==> #[trigger] graph.loaded(nodes@, now, i),
    {
        let mut graph = Graph::new();
        let n = nodes.len();
        let mut i: usize = 0;
        while i < n
            invariant
                n == nodes@.len(),
                i <= n,
                graph.nodes@.len() == i,
                forall|j: int| 0 <= j < i ==> #[trigger] graph.loaded(nodes@, now, j),
            decreases n - i,
        {
            let sn = &nodes[i];
            let mut links: Vec<Vec<NodeId>> = Vec::new();
            let mut l: usize = 0;
            while l < sn.links.len()
                invariant
                    l <= sn.links@.len(),
                    links@.len() == l,
                    forall|k: int| 0 <= k < l ==> (#[trigger] links@[k])@ == sn.links@[k]@,
                decreases sn.links@.len() - l,
            {
                links.push(copy_of(sn.links[l].as_slice()));
                l += 1;
            }
            let last_hit = match sn.last_hit {
                Some(t) => t,
                None => now,
            };
            let node = Node {
                ext_id: sn.ext_id,
                vec: copy_of(sn.vec.as_slice()),
                links,
                last_hit,
                deleted: false,
                bytes: 0,
            };
            let ghost before = graph;
            graph.nodes.push(node);
            proof {
                assert forall|j: int| 0 <= j < i + 1
                    implies #[trigger] graph.loaded(nodes@, now, j) by {
                    if j < i {
                        assert(before.loaded(nodes@, now, j));
                    }
                }
            }
            i += 1;
        }
        graph
    }

    /// The graph holds exactly the external ids of `nodes`, each with the
    /// vector and access time of the last node that carries it.
    pub open(crate) spec fn holds(&self, nodes: Seq<SerNode>, now: u64) -> bool {
        &&& forall|i: int|
            0 <= i < nodes.len() && last_of_its_id(nodes, i) ==> self@.contains_key(
                (#[trigger] nodes[i]).ext_id,
            ) && self@[nodes[i].ext_id] == loaded_entry(nodes[i], now)
        &&& forall|e: u64| #[trigger]
            self@.contains_key(e) ==> exists|i: int|
                0 <= i < nodes.len() && (#[trigger] nodes[i]).ext_id == e
    }

    /// Slot `i` is live exactly if snapshot node `i` is the last of its id,
    /// and then it holds, on each layer, the links of that node to other
    /// live slots.
    pub open(crate) spec fn linked_as(&self, nodes: Seq<SerNode>) -> bool {
        &&& forall|i: int| 0 <= i < nodes.len()
            ==> (#[trigger] self.slots()[i]).ext_id == nodes[i].ext_id
        &&& forall|i: int| 0 <= i < nodes.len()
            ==> (#[trigger] self.live(i) <==> last_of_its_id(nodes, i))
        &&& forall|i: int, l: int, x: NodeId|
            0 <= i < nodes.len() ==> (#[trigger] self.adj(i, l).contains(x) <==> self.live(i) && 0
                <= l < nodes[i].links@.len() && nodes[i].links@[l]@.contains(x) && x != i
                && self.live(x as int))
    }

    /// A well-formed graph of the nodes of a snapshot.
    pub(crate) fn load(nodes: &Vec<SerNode>, now: u64, Ghost(dims): Ghost<usize>) -> (r: (
        Graph,
        (usize, usize),
    ))
        requires
            fits(nodes@, dims),
        ensures
            r.0.wf(),
            r.0.clean(),
            r.0.canonical(),
            r.0.uniform(dims as nat),
            r.0.slot_count() == nodes@.len(),
            r.0.holds(nodes@, now),
            r.0.linked_as(nodes@),
            r.0.repaired(nodes@, r.1),
    {
        let mut graph = Graph::load_raw(nodes, now);
        let ghost raw = graph;
        proof {
            assert(raw.uniform(dims as nat)) by {
                assert forall|j: int|
                    0 <= j < raw.slots().len() && 0 <= j < raw.entries().len() && !(
                    #[trigger] raw.slots()[j]).deleted implies raw.entries()[j].vector.len()
                    == dims as nat by {
                    assert(raw.loaded(nodes@, now, j));
                }
            }
        }
        let counts = graph.sanitize();
        proof {
            assert forall|i: int| 0 <= i < nodes@.len()
                implies (#[trigger] raw.nodes@[i]).links@.len()
                == nodes@[i].links@.len() && forall|l: int|
                0 <= l < nodes@[i].links@.len() ==> (#[trigger] raw.nodes@[i].links@[l])@
                    == nodes@[i].links@[l]@ by {
                assert(raw.loaded(nodes@, now, i));
            }
            lemma_raw_totals(raw.nodes@, nodes@, nodes@.len() as int);
            assert(raw.nodes@.take(nodes@.len() as int) =~= raw.nodes@);
            assert(nodes@.take(nodes@.len() as int) =~= nodes@);
            assert forall|i: int| 0 <= i < nodes@.len() implies (#[trigger] graph.slots()[i]).ext_id
                == nodes@[i].ext_id by {
                assert(raw.loaded(nodes@, now, i));
            }
            let s0 = raw.slots();
            let n = nodes@.len();
            assert forall|j: int| 0 <= j < n
                implies (shadowed(s0, j) <==> !last_of_its_id(nodes@, j)) by {
                assert(raw.loaded(nodes@, now, j));
                if shadowed(s0, j) {
                    let k = choose|k: int|
                        j < k < s0.len() && !(#[trigger] s0[k]).deleted
                            && s0[k].ext_id == s0[j].ext_id;
                    assert(raw.loaded(nodes@, now, k));
                }
                if !last_of_its_id(nodes@, j) {
                    let k = choose|k: int|
                        j < k < nodes@.len() && (#[trigger] nodes@[k]).ext_id == nodes@[j].ext_id;
                    assert(raw.loaded(nodes@, now, k));
                    assert(j < k < s0.len() && !s0[k].deleted && s0[k].ext_id == s0[j].ext_id);
                }
            }
            assert forall|j: int| 0 <= j < n && last_of_its_id(nodes@, j)
                implies graph@.contains_key(
                (#[trigger] nodes@[j]).ext_id,
            ) && graph@[nodes@[j].ext_id] == loaded_entry(nodes@[j], now) by {
                assert(raw.loaded(nodes@, now, j));
                assert(graph.live(j));
                assert(slot_live(graph.slots(), j));
            }
            assert forall|e: u64| #[trigger] graph@.contains_key(e) implies exists|j: int|
                0 <= j < n && (#[trigger] nodes@[j]).ext_id == e by {
                let j = graph.by_ext@[e] as int;
                assert(raw.loaded(nodes@, now, j));
            }
            assert forall|i: int| 0 <= i < n implies (#[trigger] graph.live(i) <==> last_of_its_id(
                nodes@,
                i,
            )) by {
                assert(raw.loaded(nodes@, now, i));
            }
            assert forall|i: int, l: int, x: NodeId| 0 <= i < n implies (#[trigger] graph.adj(
                i,
                l,
            ).contains(x) <==> graph.live(i) && 0 <= l < nodes@[i].links@.len()
                && nodes@[i].links@[l]@.contains(x) && x != i && graph.live(x as int)) by {
                assert(raw.loaded(nodes@, now, i));
            }
        }
        (graph, counts)
    }

    /// `counts` are the number of links of the snapshot that the graph does
    /// not hold, and the number of snapshot nodes without a layer.
    pub open(crate) spec fn repaired(&self, nodes: Seq<SerNode>, counts: (usize, usize)) -> bool {
        &&& counts.0 == saturate(snapshot_links(nodes) - self.link_total())
        &&& counts.1 == unlayered(nodes)
    }
}

/// Number of links a snapshot records, over all nodes and layers.
pub open spec fn snapshot_links(nodes: Seq<SerNode>) -> nat
    decreases nodes.len(),
{
    if nodes.len() == 0 {
        0
    } else {
        snapshot_links(nodes.drop_last()) + link_count(nodes.last().links@)
    }
}

/// Number of snapshot nodes without any layer.
pub open spec fn unlayered(nodes: Seq<SerNode>) -> nat
    decreases nodes.len(),
{
    if nodes.len() == 0 {
        0
    } else {
        unlayered(nodes.drop_last()) + if nodes.last().links@.len() == 0 {
            1nat
        } else {
            0nat
        }
    }
}

/// Lists with the same ids hold the same number of links.
pub proof fn lemma_link_count_same(a: Seq<Vec<NodeId>>, b: Seq<Vec<NodeId>>)
    requires
        a.len() == b.len(),
        forall|l: int| 0 <= l < a.len() ==> (#[trigger] a[l])@ == b[l]@,
    ensures
        link_count(a) == link_count(b),
    decreases a.len(),
{
    if a.len() > 0 {
        assert forall|l: int| 0 <= l < a.drop_last().len() implies (#[trigger] a.drop_last()[l])@
            == b.drop_last()[l]@ by {
            assert(a[l]@ == b[l]@);
        }
        lemma_link_count_same(a.drop_last(), b.drop_last());
        assert(a.last()@ == b[b.len() - 1]@);
    }
}

/// An arena that holds the links of a snapshot node by node has the
/// snapshot's totals.
pub proof fn lemma_raw_totals(arena: Seq<Node>, nodes: Seq<SerNode>, upto: int)
    requires
        0 <= upto <= nodes.len(),
        arena.len() == nodes.len(),
        forall|i: int|
            0 <= i < nodes.len() ==> (#[trigger] arena[i]).links@.len() == nodes[i].links@.len()
                && forall|l: int|
                0 <= l < nodes[i].links@.len() ==> (#[trigger] arena[i].links@[l])@
                    == nodes[i].links@[l]@,
    ensures
        total_links(arena.take(upto)) == snapshot_links(nodes.take(upto)),
        layerless(arena.take(upto)) == unlayered(nodes.take(upto)),
    decreases upto,
{
    if upto > 0 {
        lemma_raw_totals(arena, nodes, upto - 1);
        assert(arena.take(upto).drop_last() =~= arena.take(upto - 1));
        assert(nodes.take(upto).drop_last() =~= nodes.take(upto - 1));
        assert(arena[upto - 1].links@.len() == nodes[upto - 1].links@.len());
        lemma_link_count_same(arena[upto - 1].links@, nodes[upto - 1].links@);
    } else {
        assert(arena.take(0) =~= Seq::<Node>::empty());
        assert(nodes.take(0) =~= Seq::<SerNode>::empty());
    }
}

impl<M: Metric> Hnsw<M> {
    /// The index was loaded from `snap` at `now`: the parameters are the
    /// snapshot's, clamped, and the index holds what the snapshot records.
    pub open(crate) spec fn loaded_from(&self, snap: &SerIndex, metric: M, now: u64) -> bool {
        &&& self.wf()
        &&& self.graph.clean()
        &&& self.dims == snap.dims
        &&& self.m == at_least(snap.m, 2)
        &&& self.ef == at_least(snap.ef, 1)
        &&& self.efc == (match snap.efc {
            Some(x) => x,
            None => at_least(snap.ef, 1),
        })
        &&& self.metric == metric
        &&& self.graph.slot_count() == snap.graph.nodes@.len()
        &&& self.graph.holds(snap.graph.nodes@, now)
        &&& self.graph.linked_as(snap.graph.nodes@)
        &&& self.graph.canonical()
    }

    /// Loads a snapshot. A snapshot with a vector of the wrong dimensionality
    /// is rejected, with the first such vector's length. Otherwise the nodes
    /// are taken in order — a node that records no access time gets `now` —
    /// and the graph is sanitized: of two nodes with one external id the
    /// later one wins, and unusable links are dropped. The degree bound is
    /// clamped to at least 2 and the search beam width to at least 1; a
    /// missing construction beam width falls back on the search beam width.
    pub fn from_snapshot_at(snap: SerIndex, metric: M, now: u64) -> (r: Result<Hnsw<M>, VcalError>)
        ensures
            match r {
                Ok(h) => fits(snap.graph.nodes@, snap.dims) && h.loaded_from(&snap, metric, now),
                Err(VcalError::DimensionMismatch { expected, found }) => {
                    &&& expected == snap.dims
                    &&& exists|i: int|
                        first_misfit(snap.graph.nodes@, snap.dims, i) && found == (
                        #[trigger] snap.graph.nodes@[i]).vec@.len()
                },
                Err(_) => false,
            },
    {
        match Self::restore_at(snap, metric, now) {
            Ok(loaded) => Ok(loaded.0),
            Err(e) => Err(e),
        }
    }

    /// Loads a snapshot as [`Hnsw::from_snapshot_at`] does, and reports what
    /// the repair came to: the number of links that were dropped and the
    /// number of nodes that had no layer.
    pub fn restore_at(snap: SerIndex, metric: M, now: u64) -> (r: Result<
        (Hnsw<M>, (usize, usize)),
        VcalError,
    >)
        ensures
            match r {
                Ok(loaded) => {
                    &&& fits(snap.graph.nodes@, snap.dims)
                    &&& loaded.0.loaded_from(&snap, metric, now)
                    &&& loaded.0.spec_graph().repaired(snap.graph.nodes@, loaded.1)
                },
                Err(VcalError::DimensionMismatch { expected, found }) => {
                    &&& expected == snap.dims
                    &&& exists|i: int|
                        first_misfit(snap.graph.nodes@, snap.dims, i) && found == (
                        #[trigger] snap.graph.nodes@[i]).vec@.len()
                },
                Err(_) => false,
            },
    {
        match find_misfit(&snap.graph.nodes, snap.dims) {
            Some(i) => {
                return Err(
                    VcalError::DimensionMismatch {
                        expected: snap.dims,
                        found: snap.graph.nodes[i].vec.len(),
                    },
                );
            },
            None => {},
        }
        let (graph, counts) = Graph::load(&snap.graph.nodes, now, Ghost(snap.dims));
        let ef = if snap.ef >= 1 {
            snap.ef
        } else {
            1
        };
        let efc = match snap.efc {
            Some(x) => x,
            None => ef,
        };
        let m = if snap.m >= 2 {
            snap.m
        } else {
            2
        };
        Ok((Hnsw { dims: snap.dims, m, ef, efc, metric, graph }, counts))
    }

    /// Loads a snapshot as [`Hnsw::from_snapshot`] does, and reports the
    /// number of links that were dropped and of nodes that had no layer.
    pub fn restore(snap: SerIndex, metric: M) -> (r: Result<(Hnsw<M>, (usize, usize)), VcalError>)
        ensures
            match r {
                Ok(loaded) => {
                    &&& fits(snap.graph.nodes@, snap.dims)
                    &&& exists|now: u64| #[trigger] loaded.0.loaded_from(&snap, metric, now)
                    &&& loaded.0.spec_graph().repaired(snap.graph.nodes@, loaded.1)
                },
                Err(VcalError::DimensionMismatch { expected, found }) => {
                    &&& expected == snap.dims
                    &&& exists|i: int|
                        first_misfit(snap.graph.nodes@, snap.dims, i) && found == (
                        #[trigger] snap.graph.nodes@[i]).vec@.len()
                },
                Err(_) => false,
            },
    {
        let now = unix_now();
        Self::restore_at(snap, metric, now)
    }

    /// Loads a snapshot; a node that records no access time gets the current
    /// time.
    pub fn from_snapshot(snap: SerIndex, metric: M) -> (r: Result<Hnsw<M>, VcalError>)
        ensures
            match r {
                Ok(h) => fits(snap.graph.nodes@, snap.dims) && exists|now: u64| #[trigger]
                    h.loaded_from(&snap, metric, now),
                Err(VcalError::DimensionMismatch { expected, found }) => {
                    &&& expected == snap.dims
                    &&& exists|i: int|
                        first_misfit(snap.graph.nodes@, snap.dims, i) && found == (
                        #[trigger] snap.graph.nodes@[i]).vec@.len()
                },
                Err(_) => false,
            },
    {
        let now = unix_now();
        Self::from_snapshot_at(snap, metric, now)
    }
}

/// Each number below the count of live slots is the dense number of
/// some live slot.
pub proof fn lemma_dense_onto(slots: Seq<Slot>, p: int) -> (i: int)
    requires
        0 <= p < live_count(slots),
    ensures
        slot_live(slots, i),
        live_count(slots.take(i)) == p,
    decreases slots.len(),
{
    let shorter = slots.drop_last();
    if !slots.last().deleted && live_count(shorter) == p {
        slots.len() - 1
    } else {
        let i = lemma_dense_onto(shorter, p);
        assert(slots.take(i) =~= shorter.take(i));
        i
    }
}

/// Of two live slots the earlier has the smaller dense number.
pub proof fn lemma_dense_increases(slots: Seq<Slot>, i: int, j: int)
    requires
        slot_live(slots, i),
        i < j <= slots.len(),
    ensures
        live_count(slots.take(i)) < live_count(slots.take(j)),
    decreases j,
{
    assert(slots.take(j).drop_last() =~= slots.take(j - 1));
    if j - 1 != i {
        lemma_dense_increases(slots, i, j - 1);
    }
}

/// Loading a snapshot of an index gives an index that holds the same
/// vectors under the same ids, with the same access times and parameters.
pub proof fn law_snapshot_round_trip<M: Metric>(
    index: &Hnsw<M>,
    snap: &SerIndex,
    loaded: &Hnsw<M>,
    metric: M,
    now: u64,
)
    requires
        index.wf(),
        // What taking the snapshot ensures.
        snap.dims == index.spec_dims(),
        snap.m == index.spec_m(),
        snap.ef == index.spec_ef(),
        snap.efc == Some(index.spec_efc()),
        snap.graph.nodes@.len() == index.spec_len(),
        forall|i: int| #[trigger]
            index.spec_graph().live(i) ==> index.recorded(
                snap,
                i,
                index.spec_graph().dense_id(i) as int,
            ),
        // What loading it ensures.
        loaded.loaded_from(snap, metric, now),
    ensures
        loaded@ == index@,
        loaded.spec_dims() == index.spec_dims(),
        loaded.spec_m() == index.spec_m(),
        loaded.spec_ef() == index.spec_ef(),
        loaded.spec_efc() == index.spec_efc(),
        loaded.spec_len() == index.spec_len(),
{
    let g = index.spec_graph();
    let slots = g.slots();
    let nodes = snap.graph.nodes@;
    crate::laws::law_counters_exact(&g);
    crate::laws::law_counters_exact(&loaded.spec_graph());
    // Each snapshot node records a live node, and no two record the same.
    assert forall|p: int| 0 <= p < nodes.len() implies last_of_its_id(nodes, p) by {
        let i = lemma_dense_onto(slots, p);
        assert(g.live(i));
        assert forall|q: int| p < q < nodes.len() implies (#[trigger] nodes[q]).ext_id
            != nodes[p].ext_id by {
            let j = lemma_dense_onto(slots, q);
            assert(g.live(j));
            if j < i {
                lemma_dense_increases(slots, j, i);
            }
        }
    }
    assert forall|e: u64| #[trigger] index@.contains_key(e) implies loaded@.contains_key(e)
        && loaded@[e] == index@[e] by {
        let i = g.ext_map()[e] as int;
        assert(g.live(i));
        let p = g.dense_id(i) as int;
    }
    assert forall|e: u64| #[trigger] loaded@.contains_key(e) implies index@.contains_key(e) by {
        let p = choose|p: int| 0 <= p < nodes.len() && (#[trigger] nodes[p]).ext_id == e;
        let i = lemma_dense_onto(slots, p);
        assert(g.live(i));
    }
    assert(loaded@.dom() =~= index@.dom());
    assert(loaded@ =~= index@);
    assert(loaded.spec_graph()@.dom() == loaded@.dom());
    assert(g@.dom() == index@.dom());
}

} // verus!
