//! Deletion: unlinking a node from its neighbours and retiring its slot.

use crate::graph::{
    lemma_bytes_sum_update, lemma_live_count_update, lemma_live_count_zero, list_ok, slot_live,
    top_listed, Entry, Graph, Slot,
};
use crate::idlist::{copy_of, lemma_push_contains, lemma_without, without, without_id};
use crate::node::{lemma_link_count_all_empty, NodeId};
use vstd::prelude::*;

verus! {

impl Graph {
    /// Every link of `self` was a link of `prev`.
    pub open(crate) spec fn links_within(&self, prev: &Graph) -> bool {
        forall|i: int, l: int, x: NodeId| #[trigger]
            self.adj(i, l).contains(x) ==> prev.adj(i, l).contains(x)
    }

    /// Node `nid` holds no links any more, the live nodes it linked to in
    /// `prev` do not link to it any more, and no other link was lost.
    pub open(crate) spec fn unlinked(&self, prev: &Graph, nid: NodeId) -> bool {
        &&& forall|l: int| #[trigger] self.adj(nid as int, l).len() == 0
        &&& forall|y: NodeId, l: int|
            prev.adj(nid as int, l).contains(y) && prev.live(y as int) ==> !(#[trigger] self.adj(
                y as int,
                l,
            )).contains(nid)
        &&& forall|i: int, l: int, x: NodeId|
            i != nid && x != nid && prev.adj(i, l).contains(x) ==> #[trigger] self.adj(
                i,
                l,
            ).contains(x)
    }

    /// What unlinking `nid` makes of the adjacency of node `y` on `layer`:
    /// nothing for `nid` itself; for a live node that `nid` links to, its
    /// list without `nid`; for any other node, its list as it is.
    pub open(crate) spec fn adj_without(&self, nid: NodeId, y: NodeId, layer: int) -> Seq<NodeId> {
        if y == nid {
            Seq::empty()
        } else if self.live(y as int) && self.adj(nid as int, layer).contains(y) {
            without(self.adj(y as int, layer), nid)
        } else {
            self.adj(y as int, layer)
        }
    }

    /// Removes `nid` from the adjacency of each node it links to, layer by
    /// layer, and empties its own adjacency.
    pub(crate) fn unlink(&mut self, nid: NodeId)
        requires
            old(self).nodes_ok(),
            old(self).bytes_ok(),
            nid < old(self).nodes@.len(),
        ensures
            final(self).nodes_ok(),
            final(self).bytes_ok(),
            final(self).same_frame(old(self)),
            final(self).links_within(old(self)),
            final(self).total_bytes <= old(self).total_bytes,
            forall|l: int| #[trigger] final(self).adj(nid as int, l).len() == 0,
            forall|y: NodeId, l: int|
                old(self).adj(nid as int, l).contains(y) && old(self).live(y as int) ==> !(
                #[trigger] final(self).adj(y as int, l)).contains(nid),
            forall|i: int, l: int, x: NodeId|
                i != nid && x != nid && old(self).adj(i, l).contains(x)
                    ==> #[trigger] final(self).adj(i, l).contains(x),
            forall|y: NodeId, l: int| #[trigger]
                final(self).adj(y as int, l) == old(self).adj_without(nid, y, l),
    {
        let levels = self.nodes[nid].links.len();
        let mut l: usize = 0;
        while l < levels
            invariant
                self.total_bytes <= old(self).total_bytes,
                self.nodes_ok(),
                self.bytes_ok(),
                self.same_frame(old(self)),
                self.links_within(old(self)),
                nid < self.nodes@.len(),
                levels == self.nodes@[nid as int].links@.len(),
                l <= levels,
                forall|k: int| 0 <= k < l ==> #[trigger] self.adj(nid as int, k).len() == 0,
                forall|k: int| l <= k ==> #[trigger] self.adj(nid as int, k) == old(self).adj(
                    nid as int,
                    k,
                ),
                forall|y: NodeId, k: int|
                    0 <= k < l && old(self).adj(nid as int, k).contains(y) && old(self).live(
                        y as int,
                    ) ==> !(#[trigger] self.adj(y as int, k)).contains(nid),
                forall|i: int, k: int, x: NodeId|
                    i != nid && x != nid && old(self).adj(i, k).contains(x)
                        ==> #[trigger] self.adj(i, k).contains(x),
                forall|y: NodeId, k: int|
                    y != nid ==> #[trigger] self.adj(y as int, k) == (if k < l {
                        old(self).adj_without(nid, y, k)
                    } else {
                        old(self).adj(y as int, k)
                    }),
            decreases levels - l,
        {
            let neigh = copy_of(self.neighbors(nid, l));
            let ghost before = *self;
            proof {
                assert(neigh@.take(0) =~= Seq::<NodeId>::empty());
            }
            let mut j: usize = 0;
            while j < neigh.len()
                invariant
                    self.total_bytes <= old(self).total_bytes,
                    self.nodes_ok(),
                    self.bytes_ok(),
                    self.same_frame(old(self)),
                    self.links_within(old(self)),
                    nid < self.nodes@.len(),
                    levels == self.nodes@[nid as int].links@.len(),
                    l < levels,
                    j <= neigh@.len(),
                    neigh@ == old(self).adj(nid as int, l as int),
                    list_ok(neigh@, nid as int, self.nodes@.len() as int),
                    forall|i: int, k: int| k != l ==> #[trigger] self.adj(i, k) == before.adj(i, k),
                    self.adj(nid as int, l as int) == before.adj(nid as int, l as int),
                    forall|k: int| l <= k ==> #[trigger] self.adj(nid as int, k) == old(self).adj(
                        nid as int,
                        k,
                    ),
                    forall|t: int|
                        0 <= t < j && old(self).live(neigh@[t] as int) ==> !(#[trigger] self.adj(
                            neigh@[t] as int,
                            l as int,
                        )).contains(nid),
                    forall|i: int, x: NodeId|
                        i != nid && x != nid && old(self).adj(i, l as int).contains(x)
                            ==> #[trigger] self.adj(i, l as int).contains(x),
                    forall|y: NodeId, k: int|
                        y != nid ==> #[trigger] before.adj(y as int, k) == (if k < l {
                            old(self).adj_without(nid, y, k)
                        } else {
                            old(self).adj(y as int, k)
                        }),
                    forall|y: NodeId|
                        y != nid ==> #[trigger] self.adj(y as int, l as int) == (if old(self).live(
                            y as int,
                        ) && neigh@.take(j as int).contains(y) {
                            without(old(self).adj(y as int, l as int), nid)
                        } else {
                            old(self).adj(y as int, l as int)
                        }),
                decreases neigh@.len() - j,
            {
                let nb = neigh[j];
                let ghost mid = *self;
                proof {
                    assert(neigh@.take(j + 1) =~= neigh@.take(j as int).push(nb));
                    lemma_push_contains(neigh@.take(j as int), nb);
                    assert(!neigh@.take(j as int).contains(nb)) by {
                        if neigh@.take(j as int).contains(nb) {
                            let w = choose|w: int|
                                0 <= w < neigh@.take(j as int).len() && neigh@.take(j as int)[w]
                                    == nb;
                            assert(neigh@[w] == neigh@[j as int]);
                        }
                    }
                    assert(nb != nid);
                    assert(mid.adj(nb as int, l as int) == old(self).adj(nb as int, l as int));
                    if !(self.live(nb as int) && l < self.nodes@[nb as int].links@.len()) {
                        if old(self).live(nb as int) {
                            assert(old(self).adj(nb as int, l as int) =~= Seq::<NodeId>::empty());
                            assert(without(Seq::<NodeId>::empty(), nid) =~= Seq::<NodeId>::empty());
                        }
                    }
                }
                if self.is_valid_nid(nb) && l < self.nodes[nb].links.len() {
                    let trimmed = without_id(self.neighbors(nb, l), nid);
                    proof {
                        assert forall|t: int| 0 <= t < trimmed@.len()
                            implies 0 <= #[trigger] trimmed@[t]
                            < self.nodes@.len() && trimmed@[t] != nb by {
                            assert(trimmed@.contains(trimmed@[t]));
                        }
                    }
                    self.replace_links(nb, l, trimmed);
                }
                j += 1;
            }
            proof {
                assert(neigh@.take(neigh@.len() as int) =~= neigh@);
            }
            self.replace_links(nid, l, Vec::new());
            l += 1;
        }
        proof {
            assert forall|y: NodeId, k: int| #[trigger]
                self.adj(y as int, k) == old(self).adj_without(nid, y, k) by {
                if y == nid {
                    assert(self.adj(nid as int, k).len() == 0);
                    assert(self.adj(nid as int, k) =~= Seq::<NodeId>::empty());
                } else if k >= l {
                    assert(old(self).adj(nid as int, k) =~= Seq::<NodeId>::empty());
                }
            }
        }
    }
}

impl Graph {
    /// The first id of the highest layer that lists one.
    pub(crate) fn first_listed(&self) -> (r: Option<NodeId>)
        ensures
            r == top_listed(self.registry()),
            match r {
                Some(e) => self.listed(e),
                None => forall|l: int| 0 <= l < self.levels@.len()
                    ==> (#[trigger] self.levels@[l])@.len() == 0,
            },
    {
        let mut lvl = self.levels.len();
        proof {
            assert(self.registry().take(lvl as int) =~= self.registry());
        }
        while lvl > 0
            invariant
                lvl <= self.levels@.len(),
                top_listed(self.registry()) == top_listed(self.registry().take(lvl as int)),
                forall|l: int| lvl <= l < self.levels@.len()
                    ==> (#[trigger] self.levels@[l])@.len() == 0,
            decreases lvl,
        {
            proof {
                assert(self.registry().take(lvl as int).drop_last() =~= self.registry().take(
                    lvl - 1,
                ));
                assert(self.registry().take(lvl as int).last() == self.levels@[lvl - 1]@);
            }
            lvl -= 1;
            if self.levels[lvl].len() > 0 {
                let e = self.levels[lvl][0];
                return Some(e);
            }
        }
        None
    }

    /// What retiring `nid` leaves of the registry, the top layer and the
    /// entry point of `prev`: the node leaves the list of its layer, the top
    /// layer stays, and the entry point stays unless it was `nid`, in which
    /// case it becomes the first id of the highest layer that still lists
    /// one.
    pub open(crate) spec fn delisted(&self, prev: &Graph, nid: NodeId) -> bool {
        let lvl = prev.slots()[nid as int].level;
        &&& self.registry() == prev.registry().update(lvl, without(prev.registry()[lvl], nid))
        &&& self.spec_max_level() == prev.spec_max_level()
        &&& self.spec_entry() == (if prev.spec_entry() == Some(nid) {
            top_listed(self.registry())
        } else {
            prev.spec_entry()
        })
    }

    /// What deleting the stored id `ext_id` makes of `prev`: its node is a
    /// tombstone without links, the nodes it linked to have lost their link
    /// to it, every other slot and link is as it was, and the registries
    /// have let go of the node.
    pub open(crate) spec fn deleted(&self, prev: &Graph, ext_id: u64) -> bool {
        let nid = prev.ext_map()[ext_id];
        &&& self@ == prev@.remove(ext_id)
        &&& self.ext_map() == prev.ext_map().remove(ext_id)
        &&& self.slot_count() == prev.slot_count()
        &&& self.count() == prev.count() - 1
        &&& self.slots()[nid as int] == (Slot { deleted: true, ..prev.slots()[nid as int] })
        &&& self.entries()[nid as int] == (Entry {
            vector: Seq::empty(),
            last_hit: prev.entries()[nid as int].last_hit,
        })
        &&& forall|i: int|
            0 <= i < prev.slot_count() && i != nid ==> #[trigger] self.slots()[i] == prev.slots()[i]
                && self.entries()[i] == prev.entries()[i]
        &&& forall|y: NodeId, l: int| #[trigger]
            self.adj(y as int, l) == prev.adj_without(nid, y, l)
        &&& self.delisted(prev, nid)
    }

    /// Turns the live, unlinked node `nid` into a tombstone and takes it out
    /// of every registry.
    pub(crate) fn retire(&mut self, nid: NodeId)
        requires
            old(self).wf(),
            old(self).live(nid as int),
            forall|l: int| #[trigger] old(self).adj(nid as int, l).len() == 0,
        ensures
            final(self).wf(),
            final(self)@ == old(self)@.remove(old(self).nodes@[nid as int].ext_id),
            final(self).nodes@.len() == old(self).nodes@.len(),
            final(self).active == old(self).active - 1,
            final(self).total_bytes <= old(self).total_bytes,
            final(self).max_level == old(self).max_level,
            forall|d: nat| old(self).uniform(d) ==> final(self).uniform(d),
            forall|i: int, l: int| #[trigger] final(self).adj(i, l) == old(self).adj(i, l),
            forall|i: int| i != nid ==> final(self).live(i) == old(self).live(i),
            !final(self).live(nid as int),
            forall|i: int|
                0 <= i < old(self).nodes@.len() && i != nid ==> #[trigger] final(self).slots()[i]
                    == old(self).slots()[i] && final(self).entries()[i] == old(self).entries()[i],
            final(self).slots()[nid as int] == (Slot {
                deleted: true,
                ..old(self).slots()[nid as int]
            }),
            final(self).entries()[nid as int] == (Entry {
                vector: Seq::empty(),
                last_hit: old(self).entries()[nid as int].last_hit,
            }),
            final(self).by_ext@ == old(self).by_ext@.remove(old(self).nodes@[nid as int].ext_id),
            final(self).delisted(old(self), nid),
    {
        let ext_id = self.nodes[nid].ext_id;
        let lvl = self.nodes[nid].links.len() - 1;
        let before = self.nodes[nid].bytes;
        proof {
            assert(slot_live(self.slots(), nid as int));
            lemma_live_count_update(
                self.slots(),
                nid as int,
                Slot { ext_id, deleted: true, level: lvl as int },
            );
            assert forall|l: int| 0 <= l < self.nodes@[nid as int].links@.len() implies (
            #[trigger] self.nodes@[nid as int].links@[l])@.len() == 0 by {
                assert(self.adj(nid as int, l).len() == 0);
            }
            lemma_link_count_all_empty(self.nodes@[nid as int].links@);
        }
        self.nodes[nid].vec = Vec::new();
        self.nodes[nid].deleted = true;
        let after = self.nodes[nid].recompute_bytes();
        proof {
            lemma_bytes_sum_update(old(self).nodes@, nid as int, self.nodes@[nid as int]);
            assert(self.nodes@ =~= old(self).nodes@.update(nid as int, self.nodes@[nid as int]));
            lemma_bytes_sum_update(self.nodes@, nid as int, self.nodes@[nid as int]);
        }
        self.settle_total(before, after);
        self.by_ext.remove(&ext_id);
        self.active = self.active - 1;
        let trimmed = without_id(self.levels[lvl].as_slice(), nid);
        self.levels[lvl] = trimmed;
        if self.entry == Some(nid) {
            self.entry = self.first_listed();
        }
        proof {
            let s0 = old(self).slots();
            let s1 = self.slots();
            let r0 = old(self).registry();
            let r1 = self.registry();
            assert(s1 =~= s0.update(nid as int, Slot { ext_id, deleted: true, level: lvl as int }));
            assert forall|l: int| 0 <= l < r1.len() && l != lvl
                implies #[trigger] r1[l] == r0[l] by {}
            assert forall|i: int| #[trigger] slot_live(s1, i)
                implies slot_live(s0, i) && i != nid by {}
            assert forall|l: int, j: int| 0 <= l < r1.len() && 0 <= j < r1[l].len()
                implies slot_live(
                s1,
                #[trigger] r1[l][j] as int,
            ) && s1[r1[l][j] as int].level == l by {
                if l == lvl {
                    assert(trimmed@.contains(trimmed@[j]));
                }
            }
            assert forall|i: int| #[trigger] slot_live(s1, i) implies 0 <= s1[i].level < r1.len()
                && r1[s1[i].level].contains(i as usize) by {}
            lemma_live_count_zero(s1);
            match self.entry {
                Some(e) => {
                    if old(self).entry == Some(nid) {
                        let (l, j) = choose|l: int, j: int|
                            0 <= l < self.levels@.len() && 0 <= j < self.levels@[l]@.len()
                                && #[trigger] self.levels@[l]@[j] == e;
                        assert(r1[l][j] == e);
                    }
                },
                None => {
                    assert forall|i: int| 0 <= i < s1.len() implies (#[trigger] s1[i]).deleted by {
                        if !s1[i].deleted {
                            assert(slot_live(s1, i));
                        }
                    }
                },
            }
            assert(self@ =~= old(self)@.remove(ext_id));
            assert(r1 =~= r0.update(lvl as int, without(r0[lvl as int], nid)));
            assert(self.entries()[nid as int].vector =~= Seq::empty());
        }
    }

    /// Deletes the vector stored under `ext_id`, if there is one: its node is
    /// unlinked from its neighbours and its slot becomes a tombstone. Returns
    /// whether something was removed.
    pub fn delete(&mut self, ext_id: u64) -> (r: bool)
        requires
            old(self).wf(),
        ensures
            final(self).wf(),
            r == old(self)@.contains_key(ext_id),
            final(self)@ == old(self)@.remove(ext_id),
            final(self).count() == old(self).count() - (if r { 1int } else { 0int }),
            final(self).slot_count() == old(self).slot_count(),
            final(self).accounted_bytes() <= old(self).accounted_bytes(),
            forall|d: nat| old(self).uniform(d) ==> final(self).uniform(d),
            !r ==> final(self).accounted_bytes() == old(self).accounted_bytes(),
            forall|i: int|
                0 <= i < old(self).slot_count() && !(r && i == old(self).ext_map()[ext_id])
                    ==> #[trigger] final(self).slots()[i] == old(self).slots()[i]
                        && final(self).entries()[i] == old(self).entries()[i],
            r ==> !final(self).live(old(self).ext_map()[ext_id] as int),
            forall|i: int|
                0 <= i < old(self).slot_count() ==> (#[trigger] final(self).slots()[i]).ext_id
                    == old(self).slots()[i].ext_id,
            final(self).links_within(old(self)),
            r ==> final(self).unlinked(old(self), old(self).ext_map()[ext_id]),
            r ==> final(self).deleted(old(self), ext_id),
            !r ==> *final(self) == *old(self),
            r && old(self).clean() ==> final(self).tidy(old(self).ext_map()[ext_id] as int),
            r && old(self).clean() && old(self).linked_back(old(self).ext_map()[ext_id] as int)
                ==> final(self).clean(),
    {
        let nid = match self.by_ext.get(&ext_id) {
            Some(n) => *n,
            None => {
                return false;
            },
        };
        self.unlink(nid);
        let ghost unlinked = *self;
        proof {
            assert forall|d: nat| old(self).uniform(d) implies self.uniform(d) by {}
        }
        self.retire(nid);
        proof {
            assert(unlinked.slots()[nid as int] == old(self).slots()[nid as int]);
            assert(unlinked.registry() == old(self).registry());
            assert forall|y: NodeId, l: int| #[trigger]
                self.adj(y as int, l) == old(self).adj_without(nid, y, l) by {
                assert(self.adj(y as int, l) == unlinked.adj(y as int, l));
            }
            if old(self).clean() {
                assert(self.tidy(nid as int)) by {
                    assert forall|i: int, l: int, x: NodeId|
                        self.live(i) && #[trigger] self.adj(i, l).contains(x) implies self.live(
                        x as int,
                    ) || x == nid by {
                        assert(old(self).adj(i, l).contains(x));
                        assert(old(self).live(i));
                    }
                }
                if old(self).linked_back(nid as int) {
                    assert forall|i: int, l: int, x: NodeId|
                        self.live(i) && #[trigger] self.adj(i, l).contains(x) implies self.live(
                        x as int,
                    ) by {
                        assert(old(self).adj(i, l).contains(x));
                        assert(old(self).live(i));
                        if x == nid {
                            let y = i as NodeId;
                            assert(self.nodes.len() == self.nodes@.len());
                            assert(y as int == i);
                            assert(old(self).adj(nid as int, l).contains(y));
                            assert(self.adj(y as int, l) == old(self).adj_without(nid, y, l));
                            lemma_without(old(self).adj(i, l), nid);
                        }
                    }
                }
            }
            assert forall|i: int, l: int, x: NodeId| #[trigger]
                self.adj(i, l).contains(x) implies old(self).adj(i, l).contains(x) by {}
            assert forall|l: int| #[trigger] self.adj(nid as int, l).len() == 0 by {}
        }
        true
    }
}

} // verus!
