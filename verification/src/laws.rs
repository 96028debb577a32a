//! What holds of every well-formed index, and how its operations compose.

use crate::evict::{touched, unexpired};
use crate::graph::{
    ext_index_ok, lemma_live_count_zero, list_ok, live_count, registry_ok, slot_live, Entry, Graph,
};
use crate::math::Metric;
use crate::node::{footprint, lemma_link_count_all_empty, saturate, NodeId};
use crate::search::{names, Hit};
use crate::Hnsw;
use vstd::prelude::*;

verus! {

/// In a well-formed graph every link of every node is in range and does not
/// point to its own node, and no adjacency list holds a link twice.
pub proof fn law_links_sound(g: &Graph, i: int, layer: int)
    requires
        g.wf(),
    ensures
        list_ok(g.adj(i, layer), i, g.slot_count() as int),
{}

/// In a well-formed graph a deleted node holds neither vector nor links.
pub proof fn law_tombstones_empty(g: &Graph, i: int, layer: int)
    requires
        g.wf(),
        0 <= i < g.slot_count(),
        !g.live(i),
    ensures
        g.adj(i, layer).len() == 0,
        g.entries()[i].vector.len() == 0,
{}

/// The footprint of a node is four bytes for each component of its vector
/// and eight for each of its links, clamped to `usize::MAX`; a deleted node
/// has none.
pub proof fn law_footprints(g: &Graph, i: int)
    requires
        g.wf(),
        0 <= i < g.slot_count(),
    ensures
        g.node_bytes(i) == saturate(footprint(g.entries()[i].vector.len(), g.node_links(i))),
        !g.live(i) ==> g.node_bytes(i) == 0,
{
    if !g.live(i) {
        lemma_link_count_all_empty(g.nodes@[i].links@);
    }
}

/// In a clean graph every link of a live node points to a live node. A new
/// graph is clean, a sanitized graph is clean, and touching and inserting
/// under a new id keep a graph clean. Deleting a node, or replacing it by
/// inserting under its id, keeps the graph clean where every link to the
/// node is answered by a link from it; else a neighbour may still hold the
/// one-sided link that pruning left it.
pub proof fn law_clean_links_live(g: &Graph, i: int, layer: int, k: int)
    requires
        g.wf(),
        g.clean(),
        g.live(i),
        0 <= k < g.adj(i, layer).len(),
    ensures
        g.live(g.adj(i, layer)[k] as int),
{
    assert(g.adj(i, layer).contains(g.adj(i, layer)[k]));
}

/// Every stored vector has the dimensionality of the index.
pub proof fn law_vectors_have_dims<M: Metric>(h: &Hnsw<M>, e: u64)
    requires
        h.wf(),
        h@.contains_key(e),
    ensures
        h@[e].vector.len() == h.spec_dims(),
{
    let i = h.spec_graph().ext_map()[e] as int;
    h.spec_graph().lemma_uniform(i, h.spec_dims() as nat);
}

/// The length of the index is the number of live nodes and the number of
/// stored external ids, and the accounted footprint is the sum of the node
/// footprints, clamped to `usize::MAX`.
pub proof fn law_counters_exact(g: &Graph)
    requires
        g.wf(),
    ensures
        g.count() == live_count(g.slots()),
        g.count() == g@.dom().len(),
        g@.dom().finite(),
        g.accounted_bytes() == saturate(g.footprint_sum() as int),
{
    assert(g@.dom() =~= g.ext_map().dom());
}

/// The external-id index is a bijection between the stored ids and the live
/// nodes: each stored id maps to a live node that carries it, and each live
/// node is what its id maps to.
pub proof fn law_ext_index_bijective(g: &Graph)
    requires
        g.wf(),
    ensures
        ext_index_ok(g.slots(), g.ext_map()),
        forall|e: u64| g@.contains_key(e) <==> g.ext_map().contains_key(e),
        forall|i: int, j: int|
            g.live(i) && g.live(j) && g.slots()[i].ext_id == g.slots()[j].ext_id ==> i == j,
{
    assert forall|i: int, j: int|
        g.live(i) && g.live(j) && g.slots()[i].ext_id == g.slots()[j].ext_id implies i == j by {
        assert(slot_live(g.slots(), i));
        assert(slot_live(g.slots(), j));
    }
}

/// Each live node is listed exactly once, under its top layer.
pub proof fn law_registry_exact(g: &Graph)
    requires
        g.wf(),
    ensures
        registry_ok(g.slots(), g.registry()),
        g.registry().len() == g.spec_max_level() + 1,
{}

/// The entry point is absent exactly when the index is empty, and is a live
/// node otherwise.
pub proof fn law_entry_live(g: &Graph)
    requires
        g.wf(),
    ensures
        g.spec_entry() is None <==> g.count() == 0,
        g.spec_entry() is Some ==> g.live(g.spec_entry()->0 as int),
        g.count() == 0 <==> forall|i: int| !g.live(i),
{
    lemma_live_count_zero(g.slots());
    if g.count() == 0 {
        assert forall|i: int| !g.live(i) by {
            if g.live(i) {
                assert(!g.slots()[i].deleted);
            }
        }
    } else {
        let i = choose|i: int| 0 <= i < g.slots().len() && !(#[trigger] g.slots()[i]).deleted;
        assert(g.live(i));
    }
}

/// Inserting a vector under an id that is not stored and deleting it again
/// leaves the index with what it held before, and as long as before.
pub proof fn law_insert_then_delete<M: Metric>(
    before: &Hnsw<M>,
    inserted: &Hnsw<M>,
    deleted: &Hnsw<M>,
    ext_id: u64,
    entry: Entry,
)
    requires
        before.wf(),
        deleted.wf(),
        !before@.contains_key(ext_id),
        inserted@ == before@.insert(ext_id, entry),
        deleted@ == inserted@.remove(ext_id),
    ensures
        !deleted@.contains_key(ext_id),
        deleted@ == before@,
        deleted.spec_len() == before.spec_len(),
{
    law_counters_exact(&before.spec_graph());
    law_counters_exact(&deleted.spec_graph());
}

/// Inserting under a stored id replaces its vector: afterwards exactly one
/// live node carries the id, the id's vector is the new one, and the index
/// is as long as before.
pub proof fn law_reinsert_replaces<M: Metric>(
    before: &Hnsw<M>,
    after: &Hnsw<M>,
    ext_id: u64,
    entry: Entry,
)
    requires
        before.wf(),
        after.wf(),
        before@.contains_key(ext_id),
        after@ == before@.insert(ext_id, entry),
    ensures
        after@[ext_id].vector == entry.vector,
        after.spec_len() == before.spec_len(),
        exists|i: int| #[trigger]
            after.spec_graph().live(i) && after.spec_graph().slots()[i].ext_id == ext_id && forall|
                j: int,
            |
                after.spec_graph().live(j) && after.spec_graph().slots()[j].ext_id == ext_id ==> j
                    == i,
{
    let g = after.spec_graph();
    law_counters_exact(&before.spec_graph());
    law_counters_exact(&g);
    assert(after@.dom() =~= before@.dom());
    law_ext_index_bijective(&g);
    let i = g.ext_map()[ext_id] as int;
    assert(g.live(i));
}

/// On an index whose base layer is connected, a search for as many hits as
/// the index holds vectors, or more, names every stored id.
pub proof fn law_wide_search_finds_all<M: Metric>(h: &Hnsw<M>, query: Seq<u32>, k: usize,
    hits: Seq<Hit>)
    requires
        h.wf(),
        h.answers(query, k, hits),
        k >= h.spec_len(),
        h.spec_graph().connected(0),
    ensures
        forall|e: u64| h@.contains_key(e) ==> names(hits, e),
{
    let g = h.spec_graph();
    law_counters_exact(&g);
    assert forall|e: u64| h@.contains_key(e) implies names(hits, e) by {
        let i = g.ext_map()[e] as int;
        assert(h.spec_len() > 0) by {
            lemma_live_count_zero(g.slots());
        }
        if hits.len() < k {
            let ep = choose|ep: NodeId|
                g.live(ep as int) && forall|b: NodeId| #[trigger]
                    g.reaches(0, ep, b) ==> names(hits, g.slots()[b as int].ext_id);
            assert(g.reaches(0, ep, i as NodeId));
        } else {
            let ids = Seq::new(hits.len(), |j: int| hits[j].0);
            ids.unique_seq_to_set();
            assert(ids.to_set().subset_of(h@.dom()));
            vstd::set_lib::lemma_subset_equality(ids.to_set(), h@.dom());
        }
    }
}

/// A vector that was touched at `now` survives a TTL sweep at `now`,
/// whatever the time to live, with `now` as its access time.
pub proof fn law_touched_survives_sweep(
    before: Map<u64, Entry>,
    ids: Seq<u64>,
    ext_id: u64,
    ttl_secs: u64,
    now: u64,
)
    requires
        before.contains_key(ext_id),
        ids.contains(ext_id),
    ensures
        unexpired(touched(before, ids, now), ttl_secs, now).contains_key(ext_id),
        unexpired(touched(before, ids, now), ttl_secs, now)[ext_id] == (Entry {
            vector: before[ext_id].vector,
            last_hit: now,
        }),
{}

} // verus!
