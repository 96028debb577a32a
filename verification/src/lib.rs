//! An in-process approximate nearest-neighbour index over dense vectors,
//! organised as a hierarchical navigable small-world graph.
//!
//! Vector components and distances are carried as IEEE-754 single-precision
//! bit patterns (`u32`); the index never interprets a component, it only hands
//! stored vectors to a [`Metric`] and orders the distances it gets back with
//! [`dist_rank`].
//!
//! ```ignore
//! let mut index = HnswBuilder::new(metric).dims(16).build();
//! index.insert(vector, 42)?;
//! let hits = index.search(&query, 1)?;
//! assert_eq!(hits[0].0, 42);
//! ```
//!
//! Every operation keeps the index well formed ([`Hnsw::wf`]); what holds of
//! a well-formed index, and how the operations compose, is stated in
//! [`laws`].

pub mod beam;
pub mod clock;
pub mod errors;
pub mod evict;
pub mod graph;
pub mod idlist;
pub mod insert;
pub mod laws;
pub mod math;
pub mod node;
pub mod order;
pub mod params;
pub mod picked;
pub mod rand_level;
pub mod remove;
pub mod sanitize;
pub mod search;
pub mod serialize;

pub use errors::VcalError;
pub use graph::{Entry, Graph};
pub use math::{dist_rank, Metric};
pub use node::{Node, NodeId};
pub use params::HnswBuilder;
pub use rand_level::draw_level;
pub use serialize::{SerGraph, SerIndex, SerNode};

use clock::unix_now;
use evict::{over_caps, touched, unexpired};
use search::{hits_ascending, hits_distinct};
use vstd::prelude::*;

verus! {

/// Public identifier type attached to each vector.
pub type ExternalId = u64;

/// `(id, distance)` pair returned by a search.
pub type SearchHit = (ExternalId, u32);

/// Main index structure.
pub struct Hnsw<M: Metric> {
    pub(crate) dims: usize,
    pub(crate) m: usize,
    pub(crate) ef: usize,
    pub(crate) efc: usize,
    pub(crate) metric: M,
    pub(crate) graph: Graph,
}

/// The external ids of `hits`, in order.
pub open spec fn hit_ids(hits: Seq<SearchHit>) -> Seq<u64> {
    Seq::new(hits.len(), |i: int| hits[i].0)
}

impl<M: Metric> View for Hnsw<M> {
    type V = Map<u64, Entry>;

    /// The stored vector and last access time of every external id.
    open(crate) spec fn view(&self) -> Map<u64, Entry> {
        self.graph@
    }
}

impl<M: Metric> Hnsw<M> {
    /// The graph is well formed, every stored vector has `dims` components,
    /// the degree bound is at least two and the search beam at least one wide.
    pub open(crate) spec fn wf(&self) -> bool {
        &&& self.graph.wf()
        &&& self.graph.uniform(self.dims as nat)
        &&& self.m >= 2
        &&& self.ef >= 1
    }

    /// The dimensionality of the stored vectors.
    pub open(crate) spec fn spec_dims(&self) -> usize {
        self.dims
    }

    /// The degree bound.
    pub open(crate) spec fn spec_m(&self) -> usize {
        self.m
    }

    /// The default beam width of searches.
    pub open(crate) spec fn spec_ef(&self) -> usize {
        self.ef
    }

    /// The beam width used while inserting.
    pub open(crate) spec fn spec_efc(&self) -> usize {
        self.efc
    }

    /// The graph behind the index.
    pub open(crate) spec fn spec_graph(&self) -> Graph {
        self.graph
    }

    /// The metric.
    pub open(crate) spec fn spec_metric(&self) -> &M {
        &self.metric
    }

    /// Number of stored vectors.
    pub open(crate) spec fn spec_len(&self) -> nat {
        self.graph.count()
    }

    /// Accounted footprint of the stored vectors and their links.
    pub open(crate) spec fn spec_total_bytes(&self) -> usize {
        self.graph.accounted_bytes()
    }

    /// Number of arena slots ever used; a search on an index with none is
    /// an error.
    pub open(crate) spec fn spec_slots(&self) -> nat {
        self.graph.slot_count()
    }

    /// Every parameter is as in `prev`.
    pub open(crate) spec fn same_params(&self, prev: &Self) -> bool {
        &&& self.dims == prev.dims
        &&& self.m == prev.m
        &&& self.ef == prev.ef
        &&& self.efc == prev.efc
        &&& self.metric == prev.metric
    }

    /// What a search for `query` may return on this index: at most `k` hits,
    /// none exactly when `k` is zero or nothing is stored, each a stored id
    /// with a distance the metric returned for its vector, no id twice,
    /// closest first. The hits are the front of a settled beam: a beam none
    /// of whose nodes has a live neighbour that was measured closer than the
    /// beam's farthest node without being in the beam. Fewer than `k` hits
    /// are returned only if they are all that can be reached.
    pub open(crate) spec fn answers(&self, query: Seq<u32>, k: usize,
        hits: Seq<SearchHit>) -> bool {
        &&& hits.len() <= k
        &&& hits.len() <= self.spec_len()
        &&& (k == 0 || self.spec_len() == 0) <==> hits.len() == 0
        &&& self.graph.hits_measured(&self.metric, query, hits)
        &&& hits_distinct(hits)
        &&& hits_ascending(hits)
        &&& 0 < hits.len() ==> self.graph.hits_settled(&self.metric, query, hits)
        &&& 0 < hits.len() < k ==> self.graph.hits_exhaustive(hits)
    }

    /// k-nearest search with beam width `max(ef, k, 1)`, stamping every hit
    /// with the access time `now`.
    pub fn search_with_ef_at(&mut self, query: &[u32], k: usize, ef: usize, now: u64) -> (r: Result<
        Vec<SearchHit>,
        VcalError,
    >)
        requires
            old(self).wf(),
        ensures
            final(self).wf(),
            final(self).same_params(old(self)),
            final(self).spec_len() == old(self).spec_len(),
            final(self).spec_total_bytes() == old(self).spec_total_bytes(),
            final(self).spec_slots() == old(self).spec_slots(),
            final(self).spec_graph().same_frame_but_entries(&old(self).spec_graph()),
            match r {
                Ok(hits) => {
                    &&& old(self).spec_slots() > 0
                    &&& query@.len() == old(self).spec_dims()
                    &&& old(self).answers(query@, k, hits@)
                    &&& 0 < hits@.len() && (ef >= old(self).spec_len() || k >= old(self).spec_len())
                        ==> old(self).spec_graph().hits_thorough(
                        old(self).spec_metric(),
                        query@,
                        hits@,
                    )
                    &&& 0 < hits@.len() ==> old(self).spec_graph().hits_found(
                        old(self).spec_metric(),
                        query@,
                        k,
                        ef,
                        hits@,
                    )
                    &&& final(self)@ == touched(old(self)@, hit_ids(hits@), now)
                },
                Err(VcalError::EmptyIndex) => old(self).spec_slots() == 0
                    && final(self)@ == old(self)@,
                Err(VcalError::DimensionMismatch { expected, found }) => {
                    &&& old(self).spec_slots() > 0
                    &&& query@.len() != old(self).spec_dims()
                    &&& expected == old(self).spec_dims()
                    &&& found == query@.len()
                    &&& final(self)@ == old(self)@
                },
                Err(VcalError::Serialize(_)) => false,
            },
    {
        if self.graph.nodes.len() == 0 {
            return Err(VcalError::EmptyIndex);
        }
        if query.len() != self.dims {
            return Err(VcalError::DimensionMismatch { expected: self.dims, found: query.len() });
        }
        let at_least = if k >= 1 {
            k
        } else {
            1
        };
        let ef_eff = if ef >= at_least {
            ef
        } else {
            at_least
        };
        let hits = self.graph.knn(query, k, &self.metric, ef_eff);
        proof {
            if hits@.len() > 0 {
                self.graph.lemma_found_width(&self.metric, query@, k, ef_eff, ef, hits@);
            }
        }
        let mut ids: Vec<u64> = Vec::new();
        let mut i: usize = 0;
        while i < hits.len()
            invariant
                i <= hits@.len(),
                ids@ == hit_ids(hits@).take(i as int),
            decreases hits@.len() - i,
        {
            ids.push(hits[i].0);
            i += 1;
        }
        proof {
            assert(hit_ids(hits@).take(hits@.len() as int) =~= hit_ids(hits@));
        }
        self.graph.touch_many(ids.as_slice(), now);
        Ok(hits)
    }

    /// k-nearest search with a per-request beam width, clamped to at least
    /// `k` and 1. Every hit is stamped with the current time.
    pub fn search_with_ef(&mut self, query: &[u32], k: usize, ef: usize) -> (r: Result<
        Vec<SearchHit>,
        VcalError,
    >)
        requires
            old(self).wf(),
        ensures
            final(self).wf(),
            final(self).same_params(old(self)),
            final(self).spec_len() == old(self).spec_len(),
            final(self).spec_total_bytes() == old(self).spec_total_bytes(),
            final(self).spec_slots() == old(self).spec_slots(),
            final(self).spec_graph().same_frame_but_entries(&old(self).spec_graph()),
            match r {
                Ok(hits) => {
                    &&& old(self).spec_slots() > 0
                    &&& query@.len() == old(self).spec_dims()
                    &&& old(self).answers(query@, k, hits@)
                    &&& 0 < hits@.len() && (ef >= old(self).spec_len() || k >= old(self).spec_len())
                        ==> old(self).spec_graph().hits_thorough(
                        old(self).spec_metric(),
                        query@,
                        hits@,
                    )
                    &&& 0 < hits@.len() ==> old(self).spec_graph().hits_found(
                        old(self).spec_metric(),
                        query@,
                        k,
                        ef,
                        hits@,
                    )
                    &&& exists|now: u64|
                        final(self)@ == #[trigger] touched(old(self)@, hit_ids(hits@), now)
                },
                Err(VcalError::EmptyIndex) => old(self).spec_slots() == 0
                    && final(self)@ == old(self)@,
                Err(VcalError::DimensionMismatch { expected, found }) => {
                    &&& old(self).spec_slots() > 0
                    &&& query@.len() != old(self).spec_dims()
                    &&& expected == old(self).spec_dims()
                    &&& found == query@.len()
                    &&& final(self)@ == old(self)@
                },
                Err(VcalError::Serialize(_)) => false,
            },
    {
        let now = unix_now();
        self.search_with_ef_at(query, k, ef, now)
    }

    /// k-nearest search using the index's default beam width.
    pub fn search(&mut self, query: &[u32], k: usize) -> (r: Result<Vec<SearchHit>, VcalError>)
        requires
            old(self).wf(),
        ensures
            final(self).wf(),
            final(self).same_params(old(self)),
            final(self).spec_len() == old(self).spec_len(),
            final(self).spec_total_bytes() == old(self).spec_total_bytes(),
            final(self).spec_slots() == old(self).spec_slots(),
            final(self).spec_graph().same_frame_but_entries(&old(self).spec_graph()),
            match r {
                Ok(hits) => {
                    &&& old(self).spec_slots() > 0
                    &&& query@.len() == old(self).spec_dims()
                    &&& old(self).answers(query@, k, hits@)
                    &&& 0 < hits@.len()
                        && (old(self).spec_ef() >= old(self).spec_len()
                            || k >= old(self).spec_len()) ==> old(self).spec_graph().hits_thorough(
                        old(self).spec_metric(),
                        query@,
                        hits@,
                    )
                    &&& 0 < hits@.len() ==> old(self).spec_graph().hits_found(
                        old(self).spec_metric(),
                        query@,
                        k,
                        old(self).spec_ef(),
                        hits@,
                    )
                    &&& exists|now: u64|
                        final(self)@ == #[trigger] touched(old(self)@, hit_ids(hits@), now)
                },
                Err(VcalError::EmptyIndex) => old(self).spec_slots() == 0
                    && final(self)@ == old(self)@,
                Err(VcalError::DimensionMismatch { expected, found }) => {
                    &&& old(self).spec_slots() > 0
                    &&& query@.len() != old(self).spec_dims()
                    &&& expected == old(self).spec_dims()
                    &&& found == query@.len()
                    &&& final(self)@ == old(self)@
                },
                Err(VcalError::Serialize(_)) => false,
            },
    {
        let ef = self.ef;
        self.search_with_ef(query, k, ef)
    }

    /// The graph behind the index, for inspection.
    pub fn graph(&self) -> (g: &Graph)
        ensures
            *g == self.spec_graph(),
    {
        &self.graph
    }

    /// The dimensionality this index was built for.
    pub fn dims(&self) -> (d: usize)
        ensures
            d == self.spec_dims(),
    {
        self.dims
    }

    /// Sets the default beam width of searches, clamped to at least 1.
    pub fn set_ef(&mut self, ef: usize)
        ensures
            final(self).spec_ef() == (if ef >= 1 {
                ef
            } else {
                1
            }),
            final(self).spec_dims() == old(self).spec_dims(),
            final(self).spec_m() == old(self).spec_m(),
            final(self).spec_efc() == old(self).spec_efc(),
            final(self)@ == old(self)@,
            old(self).wf() ==> final(self).wf(),
            final(self).spec_len() == old(self).spec_len(),
            final(self).spec_total_bytes() == old(self).spec_total_bytes(),
    {
        self.ef = if ef >= 1 {
            ef
        } else {
            1
        };
    }

    /// The degree bound and the default search beam width.
    pub fn params(&self) -> (p: (usize, usize))
        ensures
            p == (self.spec_m(), self.spec_ef()),
    {
        (self.m, self.ef)
    }

    /// Sets the beam width used while inserting, clamped to at least 1.
    pub fn set_ef_construction(&mut self, efc: usize)
        ensures
            final(self).spec_efc() == (if efc >= 1 {
                efc
            } else {
                1
            }),
            final(self).spec_dims() == old(self).spec_dims(),
            final(self).spec_m() == old(self).spec_m(),
            final(self).spec_ef() == old(self).spec_ef(),
            final(self)@ == old(self)@,
            old(self).wf() ==> final(self).wf(),
            final(self).spec_len() == old(self).spec_len(),
            final(self).spec_total_bytes() == old(self).spec_total_bytes(),
    {
        self.efc = if efc >= 1 {
            efc
        } else {
            1
        };
    }

    /// Inserts `vec` under `ext_id` as a node with top layer `level`, last
    /// touched at `now`; a vector already stored under the id is replaced. A
    /// vector of the wrong dimensionality is rejected and changes nothing.
    pub fn insert_at(&mut self, vec: Vec<u32>, ext_id: ExternalId, level: usize, now: u64) -> (r:
        Result<(), VcalError>)
        requires
            old(self).wf(),
            level < usize::MAX,
        ensures
            final(self).wf(),
            final(self).same_params(old(self)),
            match r {
                Ok(_) => {
                    &&& vec@.len() == old(self).spec_dims()
                    &&& final(self)@ == old(self)@.insert(
                        ext_id,
                        Entry { vector: vec@, last_hit: now },
                    )
                    &&& final(self).spec_len()
                        == old(self).spec_len() + (if old(self)@.contains_key(
                        ext_id,
                    ) {
                        0int
                    } else {
                        1int
                    })
                    &&& final(self).spec_slots() == old(self).spec_slots() + 1
                    &&& final(self).spec_graph().inserted(
                        &old(self).spec_graph(),
                        old(self).spec_metric(),
                        ext_id,
                        vec@,
                        now,
                        level,
                        old(self).spec_m(),
                        old(self).spec_efc(),
                    )
                    &&& old(self)@.contains_key(ext_id) ==> !final(self).spec_graph().live(
                        old(self).spec_graph().ext_map()[ext_id] as int,
                    )
                },
                Err(VcalError::DimensionMismatch { expected, found }) => {
                    &&& vec@.len() != old(self).spec_dims()
                    &&& expected == old(self).spec_dims()
                    &&& found == vec@.len()
                    &&& final(self)@ == old(self)@
                    &&& final(self).spec_len() == old(self).spec_len()
                    &&& final(self).spec_total_bytes() == old(self).spec_total_bytes()
                    &&& final(self).spec_slots() == old(self).spec_slots()
                },
                Err(_) => false,
            },
    {
        if vec.len() != self.dims {
            return Err(VcalError::DimensionMismatch { expected: self.dims, found: vec.len() });
        }
        self.graph.add_with(vec, ext_id, &self.metric, self.m, self.efc, level, now);
        Ok(())
    }

    /// Inserts a vector with an external identifier, replacing a vector
    /// already stored under it. The node's top layer is drawn at random and
    /// its access time is read from the clock.
    pub fn insert(&mut self, vec: Vec<u32>, ext_id: ExternalId) -> (r: Result<(), VcalError>)
        requires
            old(self).wf(),
        ensures
            final(self).wf(),
            final(self).same_params(old(self)),
            match r {
                Ok(_) => {
                    &&& vec@.len() == old(self).spec_dims()
                    &&& exists|now: u64|
                        final(self)@ == #[trigger] old(self)@.insert(
                            ext_id,
                            Entry { vector: vec@, last_hit: now },
                        )
                    &&& final(self).spec_len()
                        == old(self).spec_len() + (if old(self)@.contains_key(
                        ext_id,
                    ) {
                        0int
                    } else {
                        1int
                    })
                    &&& final(self).spec_slots() == old(self).spec_slots() + 1
                    &&& exists|level: usize, now: u64| #[trigger]
                        final(self).spec_graph().inserted(
                            &old(self).spec_graph(),
                            old(self).spec_metric(),
                            ext_id,
                            vec@,
                            now,
                            level,
                            old(self).spec_m(),
                            old(self).spec_efc(),
                        )
                    &&& old(self)@.contains_key(ext_id) ==> !final(self).spec_graph().live(
                        old(self).spec_graph().ext_map()[ext_id] as int,
                    )
                },
                Err(VcalError::DimensionMismatch { expected, found }) => {
                    &&& vec@.len() != old(self).spec_dims()
                    &&& expected == old(self).spec_dims()
                    &&& found == vec@.len()
                    &&& final(self)@ == old(self)@
                    &&& final(self).spec_len() == old(self).spec_len()
                    &&& final(self).spec_total_bytes() == old(self).spec_total_bytes()
                    &&& final(self).spec_slots() == old(self).spec_slots()
                },
                Err(_) => false,
            },
    {
        if vec.len() != self.dims {
            return Err(VcalError::DimensionMismatch { expected: self.dims, found: vec.len() });
        }
        let ghost v = vec@;
        self.graph.add(vec, ext_id, &self.metric, self.m, self.efc);
        proof {
            let (level, now) = choose|level: usize, now: u64| #[trigger]
                self.graph.inserted(
                    &old(self).graph,
                    &self.metric,
                    ext_id,
                    v,
                    now,
                    level,
                    self.m,
                    self.efc,
                );
            assert(self.spec_graph().inserted(
                &old(self).spec_graph(),
                old(self).spec_metric(),
                ext_id,
                v,
                now,
                level,
                old(self).spec_m(),
                old(self).spec_efc(),
            ));
        }
        Ok(())
    }

    /// The degree bound, the default search beam width and the beam width
    /// used while inserting.
    pub fn params_full(&self) -> (p: (usize, usize, usize))
        ensures
            p == (self.spec_m(), self.spec_ef(), self.spec_efc()),
    {
        (self.m, self.ef, self.efc)
    }

    /// Number of stored vectors and their accounted footprint.
    pub fn stats(&self) -> (s: (usize, usize))
        ensures
            s.0 == self.spec_len(),
            s.1 == self.spec_total_bytes(),
    {
        self.graph.stats()
    }

    /// LRU eviction down to the given capacities, least recently used first.
    /// Returns the number of vectors evicted, and zero.
    pub fn evict_lru_until(&mut self, max_vecs: Option<usize>, max_bytes: Option<usize>) -> (r: (
        usize,
        usize,
    ))
        requires
            old(self).wf(),
        ensures
            final(self).wf(),
            final(self).same_params(old(self)),
            r.0 == old(self).spec_len() - final(self).spec_len(),
            r.1 == 0,
            forall|e: u64| #[trigger]
                final(self)@.contains_key(e)
                    ==> old(self)@.contains_key(e) && final(self)@[e] == old(self)@[e],
            forall|gone: u64, kept: u64|
                old(self)@.contains_key(gone) && !final(self)@.contains_key(gone)
                    && #[trigger] final(self)@.contains_key(kept)
                        ==> (#[trigger] old(self)@[gone]).last_hit <= old(self)@[kept].last_hit,
            !over_caps(
                max_vecs,
                max_bytes,
                final(self).spec_len() as usize,
                final(self).spec_total_bytes(),
            ) || final(self).spec_len() == 0,
            !over_caps(
                max_vecs,
                max_bytes,
                old(self).spec_len() as usize,
                old(self).spec_total_bytes(),
            ) ==> final(self)@ == old(self)@
                && final(self).spec_total_bytes() == old(self).spec_total_bytes(),
            max_bytes is None && max_vecs is Some && old(self).spec_len() > max_vecs->0
                ==> final(self).spec_len() == max_vecs->0,
            final(self).spec_graph().evicted_from(&old(self).spec_graph(), max_vecs, max_bytes,
                r.0),
            forall|a: int, b: int|
                #![trigger final(self).spec_graph().live(a), final(self).spec_graph().live(b)]
                old(self).spec_graph().live(a) && !final(self).spec_graph().live(a)
                    && final(self).spec_graph().live(b) ==> crate::order::no_younger(
                    (old(self).spec_graph().entries()[a].last_hit, a as NodeId),
                    (old(self).spec_graph().entries()[b].last_hit, b as NodeId),
                ),
            final(self).spec_total_bytes() <= old(self).spec_total_bytes(),
    {
        let now = unix_now();
        let r = self.graph.evict_lru_until(max_vecs, max_bytes, now);
        r
    }

    /// Deletes the vector stored under `ext_id`. Returns whether there was
    /// one.
    pub fn delete(&mut self, ext_id: ExternalId) -> (r: bool)
        requires
            old(self).wf(),
        ensures
            final(self).wf(),
            final(self).same_params(old(self)),
            r == old(self)@.contains_key(ext_id),
            final(self)@ == old(self)@.remove(ext_id),
            final(self).spec_len() == old(self).spec_len() - (if r {
                1int
            } else {
                0int
            }),
            final(self).spec_total_bytes() <= old(self).spec_total_bytes(),
            final(self).spec_slots() == old(self).spec_slots(),
            r ==> final(self).spec_graph().deleted(&old(self).spec_graph(), ext_id),
            !r ==> final(self).spec_graph() == old(self).spec_graph(),
            r && old(self).spec_graph().clean() && old(self).spec_graph().linked_back(
                old(self).spec_graph().ext_map()[ext_id] as int,
            ) ==> final(self).spec_graph().clean(),
    {
        self.graph.delete(ext_id)
    }

    /// Whether a vector is stored under `ext_id`.
    pub fn contains(&self, ext_id: ExternalId) -> (r: bool)
        ensures
            r == self@.contains_key(ext_id),
    {
        self.graph.contains_ext(ext_id)
    }

    /// TTL sweep at `now`: evicts every vector last accessed more than
    /// `ttl_secs` before `now`. Returns the number of vectors evicted, and
    /// zero.
    pub fn evict_ttl_at(&mut self, ttl_secs: u64, now: u64) -> (r: (usize, usize))
        requires
            old(self).wf(),
        ensures
            final(self).wf(),
            final(self).same_params(old(self)),
            final(self)@ == unexpired(old(self)@, ttl_secs, now),
            final(self).spec_graph().swept_from(&old(self).spec_graph(), ttl_secs, now, r.0),
            r.0 == old(self).spec_len() - final(self).spec_len(),
            r.1 == 0,
            final(self).spec_total_bytes() <= old(self).spec_total_bytes(),
            final(self).spec_slots() == old(self).spec_slots(),
    {
        self.graph.evict_ttl(ttl_secs, now)
    }

    /// TTL sweep: evicts every vector last accessed more than `ttl_secs`
    /// before the current time.
    pub fn evict_ttl(&mut self, ttl_secs: u64) -> (r: (usize, usize))
        requires
            old(self).wf(),
        ensures
            final(self).wf(),
            final(self).same_params(old(self)),
            exists|now: u64|
                final(self)@ == #[trigger] unexpired(old(self)@, ttl_secs, now)
                    && final(self).spec_graph().swept_from(
                    &old(self).spec_graph(),
                    ttl_secs,
                    now,
                    r.0,
                ),
            r.0 == old(self).spec_len() - final(self).spec_len(),
            r.1 == 0,
            final(self).spec_total_bytes() <= old(self).spec_total_bytes(),
            final(self).spec_slots() == old(self).spec_slots(),
    {
        let now = unix_now();
        self.evict_ttl_at(ttl_secs, now)
    }

    /// Number of stored vectors.
    pub fn len(&self) -> (n: usize)
        ensures
            n == self.spec_len(),
    {
        self.stats().0
    }

    /// Accounted footprint of the stored vectors and their links.
    pub fn total_bytes(&self) -> (b: usize)
        ensures
            b == self.spec_total_bytes(),
    {
        self.stats().1
    }

    /// Sets the access time of every stored id among `ids` to `now`.
    pub fn touch_many(&mut self, ids: &[u64], now: u64)
        requires
            old(self).wf(),
        ensures
            final(self).wf(),
            final(self).same_params(old(self)),
            final(self)@ == touched(old(self)@, ids@, now),
            final(self).spec_len() == old(self).spec_len(),
            final(self).spec_total_bytes() == old(self).spec_total_bytes(),
            final(self).spec_slots() == old(self).spec_slots(),
            final(self).spec_graph().same_frame_but_entries(&old(self).spec_graph()),
    {
        self.graph.touch_many(ids, now);
    }
}

} // verus!
