//! One stored vector together with its per-layer adjacency lists.

use crate::clock::unix_now;
use vstd::prelude::*;

verus! {

/// Dense index of a node in the graph's arena.
pub type NodeId = usize;

/// Links kept inline by the neighbour selection before it spills to the heap.
pub const MAX_LINKS_PER_LVL: usize = 32;

/// Bytes accounted for one vector component.
pub const COMPONENT_BYTES: usize = 4;

/// Bytes accounted for one link.
pub const LINK_BYTES: usize = 8;

/// A stored vector: its external id, its components, its adjacency list on
/// each layer it takes part in, its last access time, its deletion mark and
/// its cached footprint.
pub struct Node {
    pub ext_id: u64,
    pub vec: Vec<u32>,
    pub links: Vec<Vec<NodeId>>,
    pub last_hit: u64,
    pub deleted: bool,
    pub bytes: usize,
}

/// `x` clamped to what a `usize` can hold.
pub open spec fn saturate(x: int) -> usize {
    if x >= usize::MAX {
        usize::MAX
    } else if x <= 0 {
        0
    } else {
        x as usize
    }
}

/// Number of links over all layers.
pub open spec fn link_count(links: Seq<Vec<NodeId>>) -> nat
    decreases links.len(),
{
    if links.len() == 0 {
        0
    } else {
        link_count(links.drop_last()) + links.last()@.len()
    }
}

/// The footprint of a node with `components` vector components and `links`
/// links, before clamping.
pub open spec fn footprint(components: nat, links: nat) -> int {
    COMPONENT_BYTES * components + LINK_BYTES * links
}

/// Replacing one list changes the count by the difference of the lengths.
pub proof fn lemma_link_count_update(links: Seq<Vec<NodeId>>, l: int, adj: Vec<NodeId>)
    requires
        0 <= l < links.len(),
    ensures
        link_count(links.update(l, adj)) == link_count(links) - links[l]@.len() + adj@.len(),
    decreases links.len(),
{
    if l == links.len() - 1 {
        assert(links.update(l, adj).drop_last() =~= links.drop_last());
    } else {
        lemma_link_count_update(links.drop_last(), l, adj);
        assert(links.update(l, adj).drop_last() =~= links.drop_last().update(l, adj));
    }
}

/// Empty lists hold no links.
pub proof fn lemma_link_count_all_empty(links: Seq<Vec<NodeId>>)
    requires
        forall|l: int| 0 <= l < links.len() ==> (#[trigger] links[l])@.len() == 0,
    ensures
        link_count(links) == 0,
    decreases links.len(),
{
    if links.len() > 0 {
        lemma_link_count_all_empty(links.drop_last());
    }
}

/// Appending a list adds its length to the count.
pub proof fn lemma_link_count_push(links: Seq<Vec<NodeId>>, adj: Vec<NodeId>)
    ensures
        link_count(links.push(adj)) == link_count(links) + adj@.len(),
{
    assert(links.push(adj).drop_last() =~= links);
}

impl Node {
    /// Top layer of the node: it takes part in layers `0..=level`.
    pub open spec fn level(&self) -> int {
        self.links@.len() - 1
    }

    /// Adjacency list on `layer`.
    pub open spec fn adj(&self, layer: int) -> Seq<NodeId> {
        self.links@[layer]@
    }

    /// What `bytes` caches: four bytes for each component plus eight for each
    /// link, clamped to `usize::MAX`.
    pub open spec fn footprint(&self) -> usize {
        saturate(footprint(self.vec@.len(), link_count(self.links@)))
    }

    /// The cached footprint is up to date, a live node has at least one
    /// layer, and a deleted node holds neither vector nor links.
    pub open spec fn wf(&self) -> bool {
        &&& self.links@.len() >= 1
        &&& self.bytes == self.footprint()
        &&& self.deleted ==> self.vec@.len() == 0 && forall|l: int|
            0 <= l < self.links@.len() ==> (#[trigger] self.links@[l])@.len() == 0
    }

    /// A live node on layers `0..=level`, without links, last touched at `now`.
    pub fn new_at(ext_id: u64, level: usize, vec: Vec<u32>, now: u64) -> (node: Self)
        requires
            level < usize::MAX,
        ensures
            node.wf(),
            node.ext_id == ext_id,
            node.vec == vec,
            node.last_hit == now,
            !node.deleted,
            node.level() == level,
            node.bytes == saturate(COMPONENT_BYTES * vec@.len()),
            forall|l: int| 0 <= l <= level ==> (#[trigger] node.links@[l])@.len() == 0,
    {
        let mut links: Vec<Vec<NodeId>> = Vec::new();
        let mut l: usize = 0;
        while l <= level
            invariant
                level < usize::MAX,
                l <= level + 1,
                links@.len() == l,
                forall|j: int| 0 <= j < l ==> (#[trigger] links@[j])@.len() == 0,
            decreases level + 1 - l,
        {
            links.push(Vec::new());
            l += 1;
        }
        let mut node = Node { ext_id, vec, links, last_hit: now, deleted: false, bytes: 0 };
        proof {
            lemma_link_count_all_empty(node.links@);
        }
        node.recompute_bytes();
        node
    }

    /// A live node on layers `0..=level`, without links, last touched at the
    /// current time.
    pub fn new(ext_id: u64, level: usize, vec: Vec<u32>) -> (node: Self)
        requires
            level < usize::MAX,
        ensures
            node.wf(),
            node.ext_id == ext_id,
            node.vec == vec,
            !node.deleted,
            node.level() == level,
            node.bytes == saturate(COMPONENT_BYTES * vec@.len()),
            forall|l: int| 0 <= l <= level ==> (#[trigger] node.links@[l])@.len() == 0,
    {
        let now = unix_now();
        Node::new_at(ext_id, level, vec, now)
    }

    /// Records an access at `now_unix`.
    pub fn touch(&mut self, now_unix: u64)
        ensures
            *final(self) == (Node { last_hit: now_unix, ..*old(self) }),
    {
        self.last_hit = now_unix;
    }

    /// Whether the node is a tombstone.
    pub fn is_deleted(&self) -> (r: bool)
        ensures
            r == self.deleted,
    {
        self.deleted
    }

    /// Number of links over all layers, clamped to `usize::MAX`.
    pub fn count_links(&self) -> (count: usize)
        ensures
            count == saturate(link_count(self.links@) as int),
    {
        let mut count: usize = 0;
        let n = self.links.len();
        let mut l: usize = 0;
        while l < n
            invariant
                n == self.links@.len(),
                l <= n,
                count == saturate(link_count(self.links@.take(l as int)) as int),
            decreases n - l,
        {
            proof {
                assert(self.links@.take(l + 1).drop_last() =~= self.links@.take(l as int));
            }
            count = count.saturating_add(self.links[l].len());
            l += 1;
        }
        proof {
            assert(self.links@.take(n as int) =~= self.links@);
        }
        count
    }

    /// Recomputes the cached footprint from the vector and the links, and
    /// returns it.
    pub fn recompute_bytes(&mut self) -> (b: usize)
        ensures
            b == old(self).footprint(),
            *final(self) == (Node { bytes: b, ..*old(self) }),
    {
        let count = self.count_links();
        let link_bytes = match count.checked_mul(LINK_BYTES) {
            Some(x) => x,
            None => usize::MAX,
        };
        let vec_bytes = match self.vec.len().checked_mul(COMPONENT_BYTES) {
            Some(x) => x,
            None => usize::MAX,
        };
        let b = vec_bytes.saturating_add(link_bytes);
        self.bytes = b;
        b
    }
}

} // verus!
