//! Recency tracking and eviction: touching, the TTL sweep, LRU eviction
//! down to capacity, and the repair of the layer registry afterwards.

use crate::graph::{
    lemma_bytes_sum_update, lemma_live_count_push, lemma_live_count_zero, live_count,
    slot_live, Entry, Graph,
};
use crate::idlist::lemma_push_contains;
use crate::node::NodeId;
use crate::order::{by_age, lemma_same_elements, no_younger, sort_by_age, Aged};
use vstd::prelude::*;

verus! {

/// A vector last touched at `last_hit` is older than `ttl_secs` at `now`.
pub open spec fn expired(last_hit: u64, ttl_secs: u64, now: u64) -> bool {
    now > last_hit && now - last_hit > ttl_secs
}

/// The index exceeds a capacity that is set.
pub open spec fn over_caps(
    max_vecs: Option<usize>,
    max_bytes: Option<usize>,
    active: usize,
    bytes: usize,
) -> bool {
    (max_vecs is Some && active > max_vecs->0) || (max_bytes is Some && bytes > max_bytes->0)
}

/// Whether the index exceeds a capacity that is set.
pub fn need(max_vecs: Option<usize>, max_bytes: Option<usize>, active: usize, bytes: usize) -> (r:
    bool)
    ensures
        r == over_caps(max_vecs, max_bytes, active, bytes),
{
    if let Some(mv) = max_vecs {
        if active > mv {
            return true;
        }
    }
    if let Some(mb) = max_bytes {
        if bytes > mb {
            return true;
        }
    }
    false
}

/// `model` with the access time of every id in `ids` set to `now`.
pub open spec fn touched(model: Map<u64, Entry>, ids: Seq<u64>, now: u64) -> Map<u64, Entry> {
    Map::new(
        |e: u64| model.contains_key(e),
        |e: u64|
            if ids.contains(e) {
                Entry { vector: model[e].vector, last_hit: now }
            } else {
                model[e]
            },
    )
}

/// `model` without the entries that are expired at `now`.
pub open spec fn unexpired(model: Map<u64, Entry>, ttl_secs: u64, now: u64) -> Map<u64, Entry> {
    Map::new(
        |e: u64| model.contains_key(e) && !expired(model[e].last_hit, ttl_secs, now),
        |e: u64| model[e],
    )
}

impl Graph {
    /// Records an access to node `nid` at `now`.
    pub(crate) fn touch_node(&mut self, nid: NodeId, now: u64)
        requires
            old(self).wf(),
            nid < old(self).nodes@.len(),
        ensures
            final(self).wf(),
            final(self).same_frame_but_entries(old(self)),
            final(self).entries() == old(self).entries().update(
                nid as int,
                Entry { vector: old(self).entries()[nid as int].vector, last_hit: now },
            ),
    {
        self.nodes[nid].touch(now);
        proof {
            lemma_bytes_sum_update(old(self).nodes@, nid as int, self.nodes@[nid as int]);
            assert(self.slots() =~= old(self).slots());
            assert forall|i: int, l: int| #[trigger] self.adj(i, l) == old(self).adj(i, l) by {}
        }
    }

    /// Everything but access times is as in `prev`.
    pub open(crate) spec fn same_frame_but_entries(&self, prev: &Graph) -> bool {
        &&& self.slots() == prev.slots()
        &&& self.by_ext == prev.by_ext
        &&& self.levels == prev.levels
        &&& self.max_level == prev.max_level
        &&& self.entry == prev.entry
        &&& self.active == prev.active
        &&& self.total_bytes == prev.total_bytes
        &&& self.nodes@.len() == prev.nodes@.len()
        &&& forall|i: int, l: int| #[trigger] self.adj(i, l) == prev.adj(i, l)
        &&& forall|i: int|
            0 <= i < self.nodes@.len() ==> (#[trigger] self.entries()[i]).vector
                == prev.entries()[i].vector
    }

    /// Sets the access time of every stored id among `ids` to `now_unix`.
    pub fn touch_many(&mut self, ids: &[u64], now_unix: u64)
        requires
            old(self).wf(),
        ensures
            final(self).wf(),
            final(self)@ == touched(old(self)@, ids@, now_unix),
            final(self).count() == old(self).count(),
            final(self).accounted_bytes() == old(self).accounted_bytes(),
            final(self).slot_count() == old(self).slot_count(),
            forall|d: nat| old(self).uniform(d) ==> final(self).uniform(d),
            old(self).clean() ==> final(self).clean(),
            final(self).same_frame_but_entries(old(self)),
    {
        let mut j: usize = 0;
        while j < ids.len()
            invariant
                self.wf(),
                self.same_frame_but_entries(old(self)),
                j <= ids@.len(),
                forall|i: int|
                    0 <= i < self.nodes@.len() && self.live(i)
                        ==> (#[trigger] self.entries()[i]).last_hit
                        == (if ids@.take(j as int).contains(self.slots()[i].ext_id) {
                        now_unix
                    } else {
                        old(self).entries()[i].last_hit
                    }),
            decreases ids@.len() - j,
        {
            let eid = ids[j];
            proof {
                assert(ids@.take(j + 1) =~= ids@.take(j as int).push(eid));
                lemma_push_contains(ids@.take(j as int), eid);
            }
            let found = match self.by_ext.get(&eid) {
                Some(n) => Some(*n),
                None => None,
            };
            if let Some(nid) = found {
                let ghost mid = *self;
                self.touch_node(nid, now_unix);
                proof {
                    assert forall|i: int| 0 <= i < self.nodes@.len() && self.live(i) implies (
                    #[trigger] self.entries()[i]).last_hit == (if ids@.take(j + 1).contains(
                        self.slots()[i].ext_id,
                    ) {
                        now_unix
                    } else {
                        old(self).entries()[i].last_hit
                    }) by {
                        assert(slot_live(mid.slots(), i));
                    }
                }
            } else {
                proof {
                    assert forall|i: int| 0 <= i < self.nodes@.len() && self.live(i) implies (
                    #[trigger] self.entries()[i]).last_hit == (if ids@.take(j + 1).contains(
                        self.slots()[i].ext_id,
                    ) {
                        now_unix
                    } else {
                        old(self).entries()[i].last_hit
                    }) by {
                        assert(slot_live(self.slots(), i));
                    }
                }
            }
            j += 1;
        }
        proof {
            assert(ids@.take(ids@.len() as int) =~= ids@);
            assert(self@ =~= touched(old(self)@, ids@, now_unix)) by {
                assert forall|e: u64| self@.contains_key(e) implies #[trigger] self@[e] == touched(
                    old(self)@,
                    ids@,
                    now_unix,
                )[e] by {
                    let i = self.by_ext@[e] as int;
                }
            }
            if old(self).clean() {
                assert forall|i: int, l: int, x: NodeId|
                    self.live(i) && #[trigger] self.adj(i, l).contains(x) implies self.live(
                    x as int,
                ) by {
                    assert(self.slots()[x as int] == old(self).slots()[x as int]);
                }
            }
        }
    }
}

impl Graph {
    /// The model, the nodes and the counters are as in `prev`; only the layer
    /// registry and the entry point may differ.
    pub open(crate) spec fn same_content(&self, prev: &Graph) -> bool {
        &&& self.nodes == prev.nodes
        &&& self.by_ext == prev.by_ext
        &&& self.active == prev.active
        &&& self.total_bytes == prev.total_bytes
    }

    /// The top layer lists a node, unless it is the base layer.
    pub open(crate) spec fn trimmed(&self) -> bool {
        self.max_level == 0 || self.registry()[self.max_level as int].len() > 0
    }

    /// What the repair makes of `prev`: the nodes, the ids, the counters and
    /// the entry point are as they were; the empty layers above the highest
    /// layer that lists a node are gone, and no other.
    pub open(crate) spec fn mended(&self, prev: &Graph) -> bool {
        &&& self.same_content(prev)
        &&& self.spec_entry() == prev.spec_entry()
        &&& self.spec_max_level() <= prev.spec_max_level()
        &&& self.registry() == prev.registry().take(self.spec_max_level() + 1)
        &&& self.trimmed()
        &&& forall|l: int|
            self.spec_max_level() < l < prev.registry().len()
                ==> (#[trigger] prev.registry()[l]).len()
                == 0
    }

    /// Drops the empty layers above the highest layer that lists a node. The
    /// entry point of a well-formed graph is live, so it stays.
    pub(crate) fn repair_after_mass_deletes(&mut self)
        requires
            old(self).wf(),
        ensures
            final(self).wf(),
            final(self).same_content(old(self)),
            final(self).trimmed(),
            final(self).mended(old(self)),
    {
        proof {
            assert(self.registry().take(self.max_level + 1) =~= self.registry());
        }
        while self.max_level > 0 && self.levels[self.max_level].len() == 0
            invariant
                self.wf(),
                self.same_content(old(self)),
                self.entry == old(self).entry,
                self.max_level <= old(self).max_level,
                old(self).registry().len() == old(self).max_level + 1,
                self.registry().len() == self.max_level + 1,
                self.registry() == old(self).registry().take(self.max_level + 1),
                forall|l: int|
                    self.max_level < l < old(self).registry().len() ==> (#[trigger] old(
                        self,
                    ).registry()[l]).len() == 0,
            decreases self.max_level,
        {
            let ghost before = *self;
            self.max_level -= 1;
            self.levels.pop();
            proof {
                let r0 = before.registry();
                let r1 = self.registry();
                assert(r0.len() == before.max_level + 1);
                assert(r1 =~= r0.drop_last());
                assert(r1 =~= old(self).registry().take(self.max_level + 1));
                assert(old(self).registry()[before.max_level as int]
                    == r0[before.max_level as int]);
                assert(r0[before.max_level as int] == before.levels@[before.max_level as int]@);
            }
        }
        let valid = match self.entry {
            Some(e) => self.is_valid_nid(e),
            None => false,
        };
        if !valid {
            self.entry = self.pick_entry();
            proof {
                lemma_live_count_zero(self.slots());
                match self.entry {
                    Some(e) => {
                        assert(!self.slots()[e as int].deleted);
                    },
                    None => {},
                }
                assert(self.entry == old(self).entry);
            }
        }
    }

    /// The stored id `ext_id` is the first to expire: its vector is expired
    /// at `now`, and no live node in an earlier slot is.
    pub open(crate) spec fn first_expired(&self, ext_id: u64, ttl_secs: u64, now: u64) -> bool {
        let a = self.ext_map()[ext_id];
        &&& self@.contains_key(ext_id)
        &&& expired(self.entries()[a as int].last_hit, ttl_secs, now)
        &&& forall|b: int|
            0 <= b < a && #[trigger] self.live(b) ==> !expired(
                self.entries()[b].last_hit,
                ttl_secs,
                now,
            )
    }

    /// `trail` is a run of expiries: each graph is what deleting the first
    /// expired id makes of the one before.
    pub open(crate) spec fn ttl_trail(trail: Seq<Graph>, ttl_secs: u64, now: u64) -> bool {
        forall|k: int|
            0 <= k < trail.len() - 1 ==> (#[trigger] trail[k]).wf() && exists|e: u64| #[trigger]
                trail[k].first_expired(e, ttl_secs, now) && trail[k + 1].deleted(&trail[k], e)
    }

    /// What the sweep makes of `prev`: the end of a run of `evicted`
    /// expiries that starts at `prev`, with the layer registry repaired.
    pub open(crate) spec fn swept_from(
        &self,
        prev: &Graph,
        ttl_secs: u64,
        now: u64,
        evicted: usize,
    ) -> bool {
        exists|trail: Seq<Graph>|
            #![trigger Graph::ttl_trail(trail, ttl_secs, now)]
            trail.len() == evicted + 1 && trail[0] == *prev && Graph::ttl_trail(
                trail,
                ttl_secs,
                now,
            ) && self.mended(&trail.last())
    }

    /// TTL sweep: deletes every vector whose last access is more than
    /// `ttl_secs` before `now_unix`, then repairs the layer registry.
    /// Returns the number of vectors deleted, and zero.
    pub fn evict_ttl(&mut self, ttl_secs: u64, now_unix: u64) -> (r: (usize, usize))
        requires
            old(self).wf(),
        ensures
            final(self).wf(),
            final(self)@ == unexpired(old(self)@, ttl_secs, now_unix),
            r.0 == old(self).count() - final(self).count(),
            r.1 == 0,
            final(self).slot_count() == old(self).slot_count(),
            final(self).accounted_bytes() <= old(self).accounted_bytes(),
            forall|d: nat| old(self).uniform(d) ==> final(self).uniform(d),
            final(self).trimmed(),
            final(self).swept_from(old(self), ttl_secs, now_unix, r.0),
    {
        let mut evicted: usize = 0;
        let n = self.nodes.len();
        let mut nid: usize = 0;
        let ghost mut trail: Seq<Graph> = seq![*self];
        proof {
            assert(Graph::ttl_trail(trail, ttl_secs, now_unix));
        }
        while nid < n
            invariant
                self.wf(),
                trail.len() == evicted + 1,
                trail[0] == *old(self),
                trail.last() == *self,
                Graph::ttl_trail(trail, ttl_secs, now_unix),
                n == self.nodes@.len(),
                n == old(self).nodes@.len(),
                nid <= n,
                evicted == old(self).active - self.active,
                self.active <= old(self).active,
                self.total_bytes <= old(self).total_bytes,
                forall|d: nat| old(self).uniform(d) ==> self.uniform(d),
                forall|i: int|
                    0 <= i < n
                        ==> (#[trigger] self.slots()[i]).ext_id == old(self).slots()[i].ext_id,
                forall|i: int|
                    0 <= i < n && self.live(i)
                        ==> #[trigger] self.entries()[i] == old(self).entries()[i],
                forall|i: int|
                    0 <= i < n ==> (#[trigger] self.live(i) <==> old(self).live(i) && (i >= nid
                        || !expired(old(self).entries()[i].last_hit, ttl_secs, now_unix))),
            decreases n - nid,
        {
            if !self.nodes[nid].is_deleted() {
                let ts = self.nodes[nid].last_hit;
                proof {
                    assert(self.entries()[nid as int].last_hit == ts);
                }
                if now_unix.saturating_sub(ts) > ttl_secs {
                    let ext = self.nodes[nid].ext_id;
                    let ghost mid = *self;
                    proof {
                        assert(slot_live(self.slots(), nid as int));
                    }
                    proof {
                        assert(self.by_ext@[ext] == nid);
                        assert(mid.first_expired(ext, ttl_secs, now_unix)) by {
                            assert forall|b: int| 0 <= b < nid && #[trigger] mid.live(b)
                                implies !expired(mid.entries()[b].last_hit, ttl_secs, now_unix) by {
                                assert(mid.entries()[b] == old(self).entries()[b]);
                            }
                        }
                    }
                    if self.delete(ext) {
                        evicted += 1;
                    }
                    proof {
                        let ghost longer = trail.push(*self);
                        assert forall|k: int| 0 <= k < longer.len() - 1 implies (
                        #[trigger] longer[k]).wf() && exists|e: u64| #[trigger]
                            longer[k].first_expired(e, ttl_secs, now_unix) && longer[k + 1].deleted(
                                &longer[k],
                                e,
                            ) by {
                            if k < trail.len() - 1 {
                                assert(longer[k] == trail[k]);
                                assert(longer[k + 1] == trail[k + 1]);
                                assert(trail[k].wf());
                            } else {
                                assert(longer[k] == mid);
                                assert(longer[k + 1] == *self);
                                assert(mid.first_expired(ext, ttl_secs, now_unix) && self.deleted(
                                    &mid,
                                    ext,
                                ));
                            }
                        }
                        trail = longer;
                        assert forall|i: int| 0 <= i < n && self.live(i)
                            implies #[trigger] self.entries()[i]
                            == old(self).entries()[i] by {
                            assert(self.slots()[i] == mid.slots()[i]);
                        }
                        assert forall|i: int| 0 <= i < n
                            implies (#[trigger] self.live(i)
                                <==> old(self).live(i) && (i >= nid + 1 || !expired(
                            old(self).entries()[i].last_hit,
                            ttl_secs,
                            now_unix,
                        ))) by {
                            if i != nid {
                                assert(self.slots()[i] == mid.slots()[i]);
                                assert(self.live(i) == mid.live(i));
                            }
                        }
                    }
                }
            }
            nid += 1;
        }
        let ghost swept = *self;
        self.repair_after_mass_deletes();
        proof {
            assert(trail.len() == evicted + 1 && trail[0] == *old(self) && Graph::ttl_trail(
                trail,
                ttl_secs,
                now_unix,
            ) && self.mended(&trail.last()));
            assert(self.entries() == swept.entries());
            assert(self@ =~= unexpired(old(self)@, ttl_secs, now_unix)) by {
                let m0 = old(self)@;
                let target = unexpired(m0, ttl_secs, now_unix);
                assert forall|e: u64| #[trigger] self@.contains_key(e)
                    implies target.contains_key(e)
                    && self@[e] == target[e] by {
                    let i = self.by_ext@[e] as int;
                    assert(swept.live(i));
                    assert(slot_live(old(self).slots(), i));
                }
                assert forall|e: u64| target.contains_key(e)
                    implies #[trigger] self@.contains_key(e) by {
                    let i = old(self).by_ext@[e] as int;
                    assert(swept.live(i));
                    assert(slot_live(self.slots(), i));
                }
            }
        }
        (evicted, 0)
    }
}

impl Graph {
    /// The live nodes with their access times, in arena order.
    pub(crate) fn live_by_slot(&self) -> (aged: Vec<Aged>)
        ensures
            aged@.len() == live_count(self.slots()),
            aged@.no_duplicates(),
            forall|k: int|
                0 <= k < aged@.len() ==> self.live((#[trigger] aged@[k]).1 as int) && aged@[k].0
                    == self.entries()[aged@[k].1 as int].last_hit,
            forall|i: int| #[trigger]
                self.live(i) ==> aged@.contains((self.entries()[i].last_hit, i as NodeId)),
    {
        let mut aged: Vec<Aged> = Vec::new();
        let n = self.nodes.len();
        let mut i: usize = 0;
        while i < n
            invariant
                n == self.nodes@.len(),
                i <= n,
                aged@.len() == live_count(self.slots().take(i as int)),
                aged@.len() <= i,
                forall|k: int|
                    0 <= k < aged@.len() ==> (#[trigger] aged@[k]).1 < i && self.live(
                        aged@[k].1 as int,
                    ) && aged@[k].0 == self.entries()[aged@[k].1 as int].last_hit,
                forall|a: int, b: int| 0 <= a < b < aged@.len() ==> (#[trigger] aged@[a]).1 < (
                #[trigger] aged@[b]).1,
                forall|j: int|
                    0 <= j < i && #[trigger] self.live(j) ==> aged@.contains(
                        (self.entries()[j].last_hit, j as NodeId),
                    ),
            decreases n - i,
        {
            proof {
                assert(self.slots().take(i + 1) =~= self.slots().take(i as int).push(
                    self.slots()[i as int],
                ));
                lemma_live_count_push(self.slots().take(i as int), self.slots()[i as int]);
            }
            if !self.nodes[i].is_deleted() {
                let ghost before = aged@;
                aged.push((self.nodes[i].last_hit, i));
                proof {
                    assert forall|j: int| 0 <= j < i + 1 && #[trigger] self.live(j)
                        implies aged@.contains(
                        (self.entries()[j].last_hit, j as NodeId),
                    ) by {
                        if j < i {
                            let w = choose|w: int|
                                0 <= w < before.len() && before[w] == (
                                    self.entries()[j].last_hit,
                                    j as NodeId,
                                );
                            assert(aged@[w] == before[w]);
                        } else {
                            assert(aged@[aged@.len() - 1]
                                == (self.entries()[j].last_hit, j as NodeId));
                        }
                    }
                }
            }
            i += 1;
        }
        proof {
            assert(self.slots().take(n as int) =~= self.slots());
        }
        aged
    }

    /// The stored id `ext_id` is the least recently used: no live node was
    /// touched earlier than its node, and of those touched in the same second
    /// none stands in an earlier slot.
    pub open(crate) spec fn oldest(&self, ext_id: u64) -> bool {
        let a = self.ext_map()[ext_id];
        &&& self@.contains_key(ext_id)
        &&& forall|b: int| #[trigger]
            self.live(b) ==> no_younger(
                (self.entries()[a as int].last_hit, a),
                (self.entries()[b].last_hit, b as NodeId),
            )
    }

    /// `trail` is a run of evictions: each graph exceeds a capacity and the
    /// next one is what deleting its least recently used id makes of it.
    pub open(crate) spec fn lru_trail(
        trail: Seq<Graph>,
        max_vecs: Option<usize>,
        max_bytes: Option<usize>,
    ) -> bool {
        forall|k: int|
            0 <= k < trail.len() - 1 ==> {
                &&& (#[trigger] trail[k]).wf()
                &&& over_caps(
                    max_vecs,
                    max_bytes,
                    trail[k].count() as usize,
                    trail[k].accounted_bytes(),
                )
                &&& exists|e: u64| #[trigger]
                    trail[k].oldest(e) && trail[k + 1].deleted(&trail[k], e)
            }
    }

    /// What the eviction makes of `prev`: the end of a run of `evicted`
    /// evictions that starts at `prev`, with the layer registry repaired.
    pub open(crate) spec fn evicted_from(
        &self,
        prev: &Graph,
        max_vecs: Option<usize>,
        max_bytes: Option<usize>,
        evicted: usize,
    ) -> bool {
        exists|trail: Seq<Graph>|
            #![trigger Graph::lru_trail(trail, max_vecs, max_bytes)]
            trail.len() == evicted + 1 && trail[0] == *prev && Graph::lru_trail(
                trail,
                max_vecs,
                max_bytes,
            ) && (evicted == 0 && *self == *prev || self.mended(&trail.last()))
    }

    /// LRU eviction: while the index exceeds a capacity that is set, deletes
    /// the least recently used vector; then repairs the layer registry.
    /// Returns the number of vectors deleted, and zero.
    pub fn evict_lru_until(
        &mut self,
        max_vecs: Option<usize>,
        max_bytes: Option<usize>,
        _now_unix: u64,
    ) -> (r: (usize, usize))
        requires
            old(self).wf(),
        ensures
            final(self).wf(),
            r.0 == old(self).count() - final(self).count(),
            r.1 == 0,
            // What stays is unchanged.
            forall|e: u64| #[trigger]
                final(self)@.contains_key(e)
                    ==> old(self)@.contains_key(e) && final(self)@[e] == old(self)@[e],
            // What goes was used no later than what stays.
            forall|gone: u64, kept: u64|
                old(self)@.contains_key(gone) && !final(self)@.contains_key(gone)
                    && #[trigger] final(self)@.contains_key(kept)
                        ==> (#[trigger] old(self)@[gone]).last_hit <= old(self)@[kept].last_hit,
            // It stops as soon as the capacities are met, or nothing is left.
            !over_caps(max_vecs, max_bytes, final(self).count() as usize,
                final(self).accounted_bytes())
                || final(self).count() == 0,
            !over_caps(max_vecs, max_bytes, old(self).count() as usize, old(self).accounted_bytes())
                ==> final(self)@ == old(self)@
                    && final(self).accounted_bytes() == old(self).accounted_bytes(),
            max_bytes is None && max_vecs is Some && old(self).count() > max_vecs->0
                ==> final(self).count() == max_vecs->0,
            // It evicts one vector at a time, the least recently used first, and
            // each only while a capacity is still exceeded.
            final(self).evicted_from(old(self), max_vecs, max_bytes, r.0),
            over_caps(max_vecs, max_bytes, old(self).count() as usize, old(self).accounted_bytes())
                ==> final(self).trimmed(),
            !over_caps(max_vecs, max_bytes, old(self).count() as usize, old(self).accounted_bytes())
                ==> *final(self) == *old(self),
            // Of a vector that goes and one that stays, the one that goes was
            // touched earlier, or in the same second and stands in the earlier slot.
            forall|a: int, b: int|
                #![trigger final(self).live(a), final(self).live(b)]
                old(self).live(a) && !final(self).live(a) && final(self).live(b) ==> no_younger(
                    (old(self).entries()[a].last_hit, a as NodeId),
                    (old(self).entries()[b].last_hit, b as NodeId),
                ),
            final(self).slot_count() == old(self).slot_count(),
            final(self).accounted_bytes() <= old(self).accounted_bytes(),
            forall|d: nat| old(self).uniform(d) ==> final(self).uniform(d),
    {
        let ghost mut trail: Seq<Graph> = seq![*self];
        if !need(max_vecs, max_bytes, self.active, self.total_bytes) {
            proof {
                assert(Graph::lru_trail(trail, max_vecs, max_bytes));
                assert(trail.len() == 1 && trail[0] == *old(self) && *self == *old(self));
            }
            return (0, 0);
        }
        let aged = self.live_by_slot();
        let queue = sort_by_age(&aged);
        proof {
            lemma_same_elements(queue@, aged@);
            assert forall|k: int| 0 <= k < queue@.len() implies self.live(
                (#[trigger] queue@[k]).1 as int,
            ) && queue@[k].0 == self.entries()[queue@[k].1 as int].last_hit by {
                assert(queue@.contains(queue@[k]));
            }
        }
        let mut evicted: usize = 0;
        let n = self.nodes.len();
        let mut t: usize = 0;
        while t < queue.len() && need(max_vecs, max_bytes, self.active, self.total_bytes)
            invariant
                self.wf(),
                n == self.nodes@.len(),
                n == old(self).nodes@.len(),
                t <= queue@.len(),
                queue@.len() == old(self).active,
                by_age(queue@),
                evicted == t,
                self.active == old(self).active - t,
                trail.len() == t + 1,
                trail[0] == *old(self),
                trail.last() == *self,
                Graph::lru_trail(trail, max_vecs, max_bytes),
                max_bytes is None && max_vecs is Some && old(self).active > max_vecs->0
                    ==> self.active >= max_vecs->0,
                self.total_bytes <= old(self).total_bytes,
                forall|d: nat| old(self).uniform(d) ==> self.uniform(d),
                forall|k: int|
                    0 <= k < queue@.len() ==> old(self).live((#[trigger] queue@[k]).1 as int)
                        && queue@[k].0 == old(self).entries()[queue@[k].1 as int].last_hit,
                forall|a: int, b: int| 0 <= a < b < queue@.len() ==> (#[trigger] queue@[a]).1 != (
                #[trigger] queue@[b]).1,
                forall|i: int| #[trigger]
                    old(self).live(i) ==> queue@.contains(
                        (old(self).entries()[i].last_hit, i as NodeId),
                    ),
                forall|k: int| 0 <= k < queue@.len()
                    ==> (self.live((#[trigger] queue@[k]).1 as int) <==> k
                    >= t),
                forall|i: int|
                    0 <= i < n
                        ==> (#[trigger] self.slots()[i]).ext_id == old(self).slots()[i].ext_id,
                forall|i: int|
                    #![trigger self.live(i)]
                    #![trigger self.entries()[i]]
                    0 <= i < n && self.live(i)
                        ==> old(self).live(i) && self.entries()[i] == old(self).entries()[i],
            decreases queue@.len() - t,
        {
            let nid = queue[t].1;
            let ext = self.nodes[nid].ext_id;
            let ghost mid = *self;
            proof {
                assert(slot_live(self.slots(), nid as int));
            }
            proof {
                assert(self.by_ext@[ext] == nid);
                assert(mid.oldest(ext)) by {
                    assert forall|b: int| #[trigger] mid.live(b) implies no_younger(
                        (mid.entries()[nid as int].last_hit, nid),
                        (mid.entries()[b].last_hit, b as NodeId),
                    ) by {
                        assert(old(self).live(b));
                        let pick = (old(self).entries()[b].last_hit, b as NodeId);
                        assert(queue@.contains(pick));
                        let kb = choose|kb: int| 0 <= kb < queue@.len() && queue@[kb] == pick;
                        assert(self.live(queue@[kb].1 as int) <==> kb >= t);
                        assert(self.live(queue@[t as int].1 as int));
                        if kb > t {
                            assert(no_younger(queue@[t as int], queue@[kb]));
                        }
                    }
                }
            }
            self.delete(ext);
            evicted += 1;
            proof {
                let ghost longer = trail.push(*self);
                assert forall|k: int| 0 <= k < longer.len() - 1 implies {
                    &&& (#[trigger] longer[k]).wf()
                    &&& over_caps(
                        max_vecs,
                        max_bytes,
                        longer[k].count() as usize,
                        longer[k].accounted_bytes(),
                    )
                    &&& exists|e: u64| #[trigger]
                        longer[k].oldest(e) && longer[k + 1].deleted(&longer[k], e)
                } by {
                    if k < trail.len() - 1 {
                        assert(longer[k] == trail[k]);
                        assert(longer[k + 1] == trail[k + 1]);
                        assert(trail[k].wf());
                    } else {
                        assert(longer[k] == mid);
                        assert(longer[k + 1] == *self);
                        assert(mid.oldest(ext) && self.deleted(&mid, ext));
                    }
                }
                trail = longer;
                assert forall|i: int|
                    #![trigger self.live(i)]
                    #![trigger self.entries()[i]]
                    0 <= i < n && self.live(i)
                        implies old(self).live(i) && self.entries()[i] == old(self).entries()[i]
                            by {
                    assert(self.slots()[i] == mid.slots()[i]);
                }
                assert forall|k: int| 0 <= k < queue@.len() implies (self.live(
                    (#[trigger] queue@[k]).1 as int,
                ) <==> k >= t + 1) by {
                    let i = queue@[k].1 as int;
                    if k != t {
                        assert(self.slots()[i] == mid.slots()[i]);
                    }
                }
            }
            t += 1;
        }
        let ghost swept = *self;
        self.repair_after_mass_deletes();
        proof {
            assert(self.entries() == swept.entries());
            if t == queue@.len() {
                // Every node that was live has been deleted.
                lemma_live_count_zero(self.slots());
            }
            assert(trail.len() == evicted + 1 && trail[0] == *old(self) && Graph::lru_trail(
                trail,
                max_vecs,
                max_bytes,
            ) && self.mended(&trail.last()));
            assert forall|a: int, b: int|
                #![trigger self.live(a), self.live(b)]
                old(self).live(a) && !self.live(a) && self.live(b) implies no_younger(
                (old(self).entries()[a].last_hit, a as NodeId),
                (old(self).entries()[b].last_hit, b as NodeId),
            ) by {
                let pa = (old(self).entries()[a].last_hit, a as NodeId);
                let pb = (old(self).entries()[b].last_hit, b as NodeId);
                assert(swept.live(b));
                assert(old(self).live(b));
                assert(queue@.contains(pa));
                assert(queue@.contains(pb));
                let ka = choose|ka: int| 0 <= ka < queue@.len() && queue@[ka] == pa;
                let kb = choose|kb: int| 0 <= kb < queue@.len() && queue@[kb] == pb;
                assert(swept.live(queue@[ka].1 as int) <==> ka >= t);
                assert(swept.live(queue@[kb].1 as int) <==> kb >= t);
                assert(swept.nodes.len() == swept.nodes@.len());
                assert(no_younger(queue@[ka], queue@[kb]));
            }
            assert forall|e: u64| #[trigger] self@.contains_key(e)
                implies old(self)@.contains_key(e)
                && self@[e] == old(self)@[e] by {
                let i = self.by_ext@[e] as int;
                assert(swept.live(i));
                assert(slot_live(old(self).slots(), i));
            }
            assert forall|gone: u64, kept: u64|
                old(self)@.contains_key(gone) && !self@.contains_key(gone)
                    && #[trigger] self@.contains_key(
                    kept,
                ) implies (#[trigger] old(self)@[gone]).last_hit <= old(self)@[kept].last_hit by {
                let a = old(self).by_ext@[gone] as int;
                if swept.live(a) {
                    assert(slot_live(self.slots(), a));
                }
                assert(old(self).live(a));
            }
        }
        (evicted, 0)
    }
}

} // verus!
