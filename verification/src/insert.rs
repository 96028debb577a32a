//! Insertion: attaching a new node, choosing its neighbours on every layer
//! and pruning the neighbours' adjacency back to the degree bound.

use crate::beam::{ascending, distinct_ids, has_id, insert_ascending, lemma_insert_keeps, Candidate};
use crate::graph::{
    enlisted, lemma_bytes_sum_push, lemma_live_count_bound, lemma_live_count_push, list_ok,
    slot_live, Entry, Graph, Slot,
};
use crate::idlist::{
    copy_of, increasing, insert_unique, lemma_increasing_distinct, lemma_push_contains,
    lemma_without,
};
use crate::math::{closer, dist_rank, measure, measures, rank, Metric};
use crate::node::{Node, NodeId};
use crate::picked::{picked, picked_len, picked_new, picked_push, picked_slice, Picked, PICK_LIMIT};
use crate::clock::unix_now;
use crate::rand_level::draw_level;
use vstd::prelude::*;

verus! {

impl Graph {
    /// Appends a fresh, unlinked, live node and enters it in every registry.
    /// The first node becomes the entry point; a node above the current top
    /// layer raises it.
    pub(crate) fn attach(&mut self, node: Node) -> (nid: NodeId)
        requires
            old(self).wf(),
            node.wf(),
            !node.deleted,
            forall|l: int| 0 <= l < node.links@.len() ==> (#[trigger] node.links@[l])@.len() == 0,
            !old(self)@.contains_key(node.ext_id),
        ensures
            final(self).wf(),
            nid == old(self).nodes@.len(),
            final(self).nodes@.len() == nid + 1,
            final(self).nodes@[nid as int] == node,
            final(self).live(nid as int),
            final(self)@ == old(self)@.insert(
                node.ext_id,
                Entry { vector: node.vec@, last_hit: node.last_hit },
            ),
            final(self).active == old(self).active + 1,
            final(self).total_bytes >= old(self).total_bytes,
            final(self).max_level >= old(self).max_level,
            final(self).max_level >= node.level(),
            old(self).entry is Some ==> final(self).entry == old(self).entry,
            old(self).entry is None ==> final(self).entry == Some(nid),
            forall|d: nat| old(self).uniform(d) && node.vec@.len() == d ==> final(self).uniform(d),
            forall|i: int, l: int| i != nid
                ==> #[trigger] final(self).adj(i, l) == old(self).adj(i, l),
            forall|l: int| #[trigger] final(self).adj(nid as int, l).len() == 0,
            forall|i: int| i != nid ==> final(self).live(i) == old(self).live(i),
            forall|i: int| 0 <= i < nid
                ==> (#[trigger] final(self).nodes@[i]) == old(self).nodes@[i],
            final(self).by_ext@ == old(self).by_ext@.insert(node.ext_id, nid),
            forall|t: int| old(self).tidy(t) ==> #[trigger] final(self).tidy(t),
            final(self).max_level == (if node.level() > old(self).max_level {
                node.level()
            } else {
                old(self).max_level as int
            }),
            final(self).registry() == enlisted(old(self).registry(), nid, node.level()),
    {
        let nid = self.nodes.len();
        let lvl = node.links.len() - 1;
        let ext_id = node.ext_id;
        let ghost slot = Slot { ext_id, deleted: false, level: lvl as int };
        let ghost entry = Entry { vector: node.vec@, last_hit: node.last_hit };
        while self.levels.len() <= lvl
            invariant
                self.nodes == old(self).nodes,
                self.by_ext == old(self).by_ext,
                self.entry == old(self).entry,
                self.active == old(self).active,
                self.total_bytes == old(self).total_bytes,
                self.max_level == old(self).max_level,
                old(self).levels@.len() <= self.levels@.len(),
                self.levels@.len() <= lvl + 1 || self.levels@.len() == old(self).levels@.len(),
                forall|l: int| 0 <= l < old(self).levels@.len()
                    ==> #[trigger] self.levels@[l] == old(self).levels@[l],
                forall|l: int| old(self).levels@.len() <= l < self.levels@.len()
                    ==> (#[trigger] self.levels@[l])@.len() == 0,
            decreases lvl + 1 - self.levels@.len(),
        {
            self.levels.push(Vec::new());
        }
        let ghost padded = *self;
        if lvl > self.max_level {
            self.max_level = lvl;
        }
        self.total_bytes = self.total_bytes.saturating_add(node.bytes);
        self.nodes.push(node);
        let grown = self.nodes.len();
        proof {
            lemma_live_count_bound(old(self).slots());
            lemma_bytes_sum_push(old(self).nodes@, node);
        }
        self.active = self.active + 1;
        self.by_ext.insert(ext_id, nid);
        self.levels[lvl].push(nid);
        if self.entry.is_none() {
            self.entry = Some(nid);
        }
        proof {
            let s0 = old(self).slots();
            let s1 = self.slots();
            let r0 = old(self).registry();
            let r1 = self.registry();
            assert(s1 =~= s0.push(slot));
            lemma_live_count_push(s0, slot);
            assert forall|i: int| #[trigger] slot_live(s1, i)
                implies i == nid || slot_live(s0, i) by {}
            assert forall|i: int| slot_live(s0, i) implies #[trigger] slot_live(s1, i) by {}
            assert forall|l: int, j: int| 0 <= l < r1.len() && 0 <= j < r1[l].len()
                implies slot_live(
                s1,
                #[trigger] r1[l][j] as int,
            ) && s1[r1[l][j] as int].level == l by {
                if l < r0.len() && j < r0[l].len() {}
            }
            assert forall|l: int| 0 <= l < r1.len() implies (#[trigger] r1[l]).no_duplicates() by {
                if l < r0.len() {
                    assert(r0[l].no_duplicates());
                }
            }
            assert forall|i: int| #[trigger] slot_live(s1, i) implies 0 <= s1[i].level < r1.len()
                && r1[s1[i].level].contains(i as usize) by {
                if i == nid {
                    assert(r1[lvl as int][r1[lvl as int].len() - 1] == nid);
                } else {
                    let w = choose|w: int|
                        0 <= w < r0[s0[i].level].len() && r0[s0[i].level][w] == i as usize;
                    assert(r1[s0[i].level][w] == i as usize);
                }
            }
            match old(self).entry {
                Some(e) => {},
                None => {},
            }
            assert(self@ =~= old(self)@.insert(ext_id, entry));
            let e1 = enlisted(r0, nid, lvl as int);
            assert(r1.len() == e1.len());
            assert forall|l: int| 0 <= l < r1.len() implies r1[l] =~= e1[l] by {
                if l < r0.len() {
                    assert(padded.levels@[l] == old(self).levels@[l]);
                } else {
                    assert(padded.levels@[l]@.len() == 0);
                }
                if l == lvl {
                    assert(self.levels@[l]@ =~= padded.levels@[l]@.push(nid));
                } else {
                    assert(self.levels@[l] == padded.levels@[l]);
                }
            }
            assert(r1 =~= e1);
            assert forall|t: int| old(self).tidy(t) implies #[trigger] self.tidy(t) by {
                assert forall|i: int, l: int, x: NodeId|
                    self.live(i) && #[trigger] self.adj(i, l).contains(x) implies self.live(
                    x as int,
                ) || x == t by {
                    if i == nid {
                        assert(self.adj(nid as int, l).len() == 0);
                    } else {
                        assert(old(self).adj(i, l).contains(x));
                        assert(old(self).live(i));
                        if old(self).live(x as int) {
                            assert(self.live(x as int));
                        }
                    }
                }
            }
        }
        nid
    }
}

/// Candidate `c`, whose distance to the anchor was measured as `c.1`, is
/// strictly closer to the anchor than to node `s`.
pub open spec fn prefers_anchor<M: Metric>(
    metric: &M,
    entries: Seq<Entry>,
    c: Candidate,
    s: NodeId,
) -> bool {
    exists|ds: u32| #[trigger]
        measures(metric, entries[c.0 as int].vector, entries[s as int].vector, ds) && rank(c.1)
            < rank(ds)
}

/// Candidate `c`, whose distance to the anchor was measured as `c.1`, is
/// not strictly closer to the anchor than to node `s`.
pub open spec fn yields_to<M: Metric>(
    metric: &M,
    entries: Seq<Entry>,
    c: Candidate,
    s: NodeId,
) -> bool {
    exists|ds: u32| #[trigger]
        measures(metric, entries[c.0 as int].vector, entries[s as int].vector, ds) && rank(c.1)
            >= rank(ds)
}

/// The scan came to candidate `k`: it went on to the end of the candidates,
/// or it stopped at a later pick.
pub open spec fn scanned(m: usize, src: Seq<int>, k: int) -> bool {
    (src.len() < m && src.len() < PICK_LIMIT) || (src.len() > 0 && k <= src.last())
}

/// Candidate `k` was passed over: it is the anchor itself, or it yields to a
/// pick made before it.
pub open spec fn passed_over<M: Metric>(
    metric: &M,
    entries: Seq<Entry>,
    anchor: NodeId,
    cands: Seq<Candidate>,
    sel: Seq<NodeId>,
    src: Seq<int>,
    k: int,
) -> bool {
    cands[k].0 == anchor || exists|i: int|
        0 <= i < src.len() && src[i] < k && #[trigger] yields_to(metric, entries, cands[k], sel[i])
}

/// `sel` is what the neighbour heuristic picks among `cands` for `anchor`,
/// the picks being the candidates at the positions `src`: the candidates
/// are scanned in order, one is picked if it prefers the anchor to every
/// pick before it, and the scan ends after `m` picks.
pub open spec fn selection<M: Metric>(
    metric: &M,
    entries: Seq<Entry>,
    anchor: NodeId,
    cands: Seq<Candidate>,
    m: usize,
    sel: Seq<NodeId>,
    src: Seq<int>,
) -> bool {
    &&& src.len() == sel.len()
    &&& sel.len() <= m
    &&& forall|i: int|
        0 <= i < src.len() ==> 0 <= #[trigger] src[i] < cands.len() && sel[i] == cands[src[i]].0
            && sel[i] != anchor
    &&& forall|a: int, b: int| 0 <= a < b < src.len() ==> #[trigger] src[a] < #[trigger] src[b]
    &&& forall|i: int, j: int|
        0 <= i < j < src.len() ==> prefers_anchor(
            metric,
            entries,
            cands[#[trigger] src[j]],
            #[trigger] sel[i],
        )
    &&& forall|k: int|
        0 <= k < cands.len() && scanned(m, src, k) && !src.contains(k) ==> #[trigger] passed_over(
            metric,
            entries,
            anchor,
            cands,
            sel,
            src,
            k,
        )
}

/// `cand` ranks the links of `list` that point to live nodes other than
/// `anchor`: one candidate for each, with a distance the metric returned for
/// it and the anchor, closest first.
pub open spec fn ranked<M: Metric>(
    metric: &M,
    slots: Seq<Slot>,
    entries: Seq<Entry>,
    anchor: NodeId,
    list: Seq<NodeId>,
    cand: Seq<Candidate>,
) -> bool {
    &&& ascending(cand)
    &&& distinct_ids(cand)
    &&& forall|k: int|
        0 <= k < cand.len() ==> measures(
            metric,
            entries[(#[trigger] cand[k]).0 as int].vector,
            entries[anchor as int].vector,
            cand[k].1,
        )
    &&& forall|x: NodeId| #[trigger]
        has_id(cand, x) <==> list.contains(x) && slot_live(slots, x as int) && x != anchor
}

/// `out` is what pruning makes of the adjacency `list` of `anchor`: the
/// list itself if it holds at most `m` links, else what the neighbour
/// heuristic picks among its live links, ranked by their distance to the
/// anchor.
pub open spec fn pruning<M: Metric>(
    metric: &M,
    slots: Seq<Slot>,
    entries: Seq<Entry>,
    anchor: NodeId,
    list: Seq<NodeId>,
    m: usize,
    out: Seq<NodeId>,
) -> bool {
    if list.len() <= m {
        out == list
    } else {
        exists|cand: Seq<Candidate>, src: Seq<int>|
            #![trigger selection(metric, entries, anchor, cand, m, out, src)]
            ranked(metric, slots, entries, anchor, list, cand) && selection(
                metric,
                entries,
                anchor,
                cand,
                m,
                out,
                src,
            )
    }
}

/// The candidates of `beam` for nodes other than `new`, in order.
pub open spec fn others(beam: Seq<Candidate>, new: NodeId) -> Seq<Candidate>
    decreases beam.len(),
{
    if beam.len() == 0 {
        Seq::empty()
    } else if beam.last().0 != new {
        others(beam.drop_last(), new).push(beam.last())
    } else {
        others(beam.drop_last(), new)
    }
}

/// The width of the beam that proposes neighbours: the larger of `ef` and
/// `m`, and at least one.
pub open spec fn beam_width(ef: usize, m: usize) -> usize {
    if ef >= m {
        if ef >= 1 {
            ef
        } else {
            1
        }
    } else {
        m
    }
}

/// `out` holds, in increasing order and each once, the ids of `base` and of
/// `extra` that are live and not `owner`.
pub open spec fn merging(
    slots: Seq<Slot>,
    owner: NodeId,
    base: Seq<NodeId>,
    extra: Seq<NodeId>,
    out: Seq<NodeId>,
) -> bool {
    &&& increasing(out)
    &&& forall|x: NodeId| #[trigger]
        out.contains(x) <==> (base.contains(x) || extra.contains(x)) && slot_live(slots, x as int)
            && x != owner
}

impl Graph {
    /// The adjacency of `owner` on `layer` is what linking it to `extra`
    /// makes of its adjacency in `prev`: the two are merged, and the result
    /// is pruned to `m` links.
    pub open(crate) spec fn relinked<M: Metric>(
        &self,
        prev: &Graph,
        metric: &M,
        owner: NodeId,
        extra: Seq<NodeId>,
        layer: int,
        m: usize,
    ) -> bool {
        exists|merged: Seq<NodeId>| #[trigger]
            merging(prev.slots(), owner, prev.adj(owner as int, layer), extra, merged) && pruning(
                metric,
                prev.slots(),
                prev.entries(),
                owner,
                merged,
                m,
                self.adj(owner as int, layer),
            )
    }

    /// What linking `nid` on `layer` makes of `prev`: `sel` is what the
    /// neighbour heuristic picks among `neigh`, at the positions `src`;
    /// `chosen` are the picks that take part in the layer; `nid` is linked to
    /// them, each of them is linked to `nid`, and every list that was
    /// extended is pruned to `m`; no other list changes.
    pub open(crate) spec fn linked_by<M: Metric>(
        &self,
        prev: &Graph,
        metric: &M,
        nid: NodeId,
        neigh: Seq<Candidate>,
        m: usize,
        layer: int,
        sel: Seq<NodeId>,
        src: Seq<int>,
        chosen: Seq<NodeId>,
    ) -> bool {
        &&& selection(metric, prev.entries(), nid, neigh, m, sel, src)
        &&& forall|x: NodeId| #[trigger]
            chosen.contains(x) <==> sel.contains(x) && layer < prev.layers_of(x as int)
        &&& self.relinked(prev, metric, nid, chosen, layer, m)
        &&& forall|s: NodeId| #[trigger]
            chosen.contains(s) ==> self.relinked(prev, metric, s, seq![nid], layer, m)
        &&& forall|i: int|
            i != nid && !chosen.contains(i as NodeId) ==> #[trigger] self.adj(i, layer) == prev.adj(
                i,
                layer,
            )
    }

    /// `cands` are the candidates that `beam`, found from `ep`, proposes for
    /// node `new`: the beam without `new` itself; or `ep` alone, with a
    /// measured distance, if that leaves nothing and `ep` is another, live
    /// node.
    pub open(crate) spec fn proposed<M: Metric>(
        &self,
        metric: &M,
        new: NodeId,
        ep: NodeId,
        beam: Seq<Candidate>,
        cands: Seq<Candidate>,
    ) -> bool {
        if others(beam, new).len() == 0 && ep != new && self.live(ep as int) {
            cands.len() == 1 && cands[0].0 == ep && measures(
                metric,
                self.vector(ep as int),
                self.vector(new as int),
                cands[0].1,
            )
        } else {
            cands == others(beam, new)
        }
    }

    /// Layer `layer` of `self` is what wiring the new node on it makes of
    /// `base`. There is a graph `mid` with the slots and vectors of `self`
    /// and the adjacency of `base` on `layer`, in which a beam search from
    /// `ep` for the new vector returns `beam`; `beam` proposes `cands`; and
    /// `self` is what linking the new node with `cands` makes of `mid` on
    /// that layer.
    pub open(crate) spec fn laced<M: Metric>(
        &self,
        base: &Graph,
        metric: &M,
        layer: int,
        m: usize,
        ef: usize,
        ep: NodeId,
    ) -> bool {
        let new = base.slot_count() as NodeId;
        exists|
            mid: Graph,
            beam: Seq<Candidate>,
            cands: Seq<Candidate>,
            sel: Seq<NodeId>,
            src: Seq<int>,
            chosen: Seq<NodeId>,
        |
            #![trigger
                self.linked_by(&mid, metric, new, cands, m, layer, sel, src, chosen),
                mid.searched(metric, mid.vector(new as int), layer, beam_width(ef, m), ep, beam)
            ]
            {
                &&& mid.wf()
                &&& self.same_frame(&mid)
                &&& forall|i: int| #[trigger] mid.adj(i, layer) == base.adj(i, layer)
                &&& mid.searched(
                    metric,
                    mid.vector(new as int),
                    layer,
                    beam_width(ef, m),
                    ep,
                    beam,
                )
                &&& mid.proposed(metric, new, ep, beam, cands)
                &&& self.linked_by(&mid, metric, new, cands, m, layer, sel, src, chosen)
            }
    }

    /// A graph with the same frame and the same adjacency on `layer` is
    /// laced alike.
    pub(crate) proof fn lemma_laced_frame<M: Metric>(
        &self,
        other: &Graph,
        base: &Graph,
        metric: &M,
        layer: int,
        m: usize,
        ef: usize,
        ep: NodeId,
    )
        requires
            other.laced(base, metric, layer, m, ef, ep),
            self.same_frame(other),
            forall|i: int| #[trigger] self.adj(i, layer) == other.adj(i, layer),
        ensures
            self.laced(base, metric, layer, m, ef, ep),
    {
        let new = base.slot_count() as NodeId;
        let (mid, beam, cands, sel, src, chosen) = choose|
            mid: Graph,
            beam: Seq<Candidate>,
            cands: Seq<Candidate>,
            sel: Seq<NodeId>,
            src: Seq<int>,
            chosen: Seq<NodeId>,
        |
            #![trigger
                other.linked_by(&mid, metric, new, cands, m, layer, sel, src, chosen),
                mid.searched(metric, mid.vector(new as int), layer, beam_width(ef, m), ep, beam)
            ]
            {
                &&& mid.wf()
                &&& other.same_frame(&mid)
                &&& forall|i: int| #[trigger] mid.adj(i, layer) == base.adj(i, layer)
                &&& mid.searched(
                    metric,
                    mid.vector(new as int),
                    layer,
                    beam_width(ef, m),
                    ep,
                    beam,
                )
                &&& mid.proposed(metric, new, ep, beam, cands)
                &&& other.linked_by(&mid, metric, new, cands, m, layer, sel, src, chosen)
            };
        self.lemma_relinked_frame(other, &mid, metric, new, chosen, layer, m);
        assert forall|s: NodeId| #[trigger] chosen.contains(s) implies self.relinked(
            &mid,
            metric,
            s,
            seq![new],
            layer,
            m,
        ) by {
            self.lemma_relinked_frame(other, &mid, metric, s, seq![new], layer, m);
        }
        assert forall|i: int| i != new && !chosen.contains(i as NodeId) implies #[trigger] self.adj(
            i,
            layer,
        ) == mid.adj(i, layer) by {
            assert(other.adj(i, layer) == mid.adj(i, layer));
        }
        assert(self.linked_by(&mid, metric, new, cands, m, layer, sel, src, chosen));
        assert(self.same_frame(&mid));
    }

    /// Names what makes a layer laced.
    pub(crate) proof fn lemma_laced_intro<M: Metric>(
        &self,
        base: &Graph,
        mid: &Graph,
        metric: &M,
        layer: int,
        m: usize,
        ef: usize,
        ep: NodeId,
        beam: Seq<Candidate>,
        cands: Seq<Candidate>,
        sel: Seq<NodeId>,
        src: Seq<int>,
        chosen: Seq<NodeId>,
    )
        requires
            mid.wf(),
            self.same_frame(mid),
            forall|i: int| #[trigger] mid.adj(i, layer) == base.adj(i, layer),
            mid.searched(
                metric,
                mid.vector((base.slot_count() as NodeId) as int),
                layer,
                beam_width(ef, m),
                ep,
                beam,
            ),
            mid.proposed(metric, base.slot_count() as NodeId, ep, beam, cands),
            self.linked_by(mid, metric, base.slot_count() as NodeId, cands, m, layer, sel, src,
                chosen),
        ensures
            self.laced(base, metric, layer, m, ef, ep),
    {
        let new = base.slot_count() as NodeId;
        assert(self.linked_by(mid, metric, new, cands, m, layer, sel, src, chosen));
        assert(mid.searched(metric, mid.vector(new as int), layer, beam_width(ef, m), ep, beam));
    }

    /// If node `y` held fewer than `m` links on `layer` in `prev`, it holds a
    /// link to `nid` and every link to a live node that it held.
    pub open(crate) spec fn kept_all(
        &self,
        prev: &Graph,
        y: NodeId,
        nid: NodeId,
        layer: int,
        m: usize,
    ) -> bool {
        prev.adj(y as int, layer).len() < m ==> self.adj(y as int, layer).contains(nid) && forall|
            x: NodeId,
        |
            prev.adj(y as int, layer).contains(x) && prev.live(x as int) ==> #[trigger] self.adj(
                y as int,
                layer,
            ).contains(x)
    }

    /// A graph with the same adjacency of `owner` on `layer` is relinked
    /// alike.
    pub(crate) proof fn lemma_relinked_frame<M: Metric>(
        &self,
        other: &Graph,
        prev: &Graph,
        metric: &M,
        owner: NodeId,
        extra: Seq<NodeId>,
        layer: int,
        m: usize,
    )
        requires
            other.relinked(prev, metric, owner, extra, layer, m),
            self.adj(owner as int, layer) == other.adj(owner as int, layer),
        ensures
            self.relinked(prev, metric, owner, extra, layer, m),
    {
        let merged = choose|merged: Seq<NodeId>| #[trigger]
            merging(prev.slots(), owner, prev.adj(owner as int, layer), extra, merged) && pruning(
                metric,
                prev.slots(),
                prev.entries(),
                owner,
                merged,
                m,
                other.adj(owner as int, layer),
            );
        assert(merging(prev.slots(), owner, prev.adj(owner as int, layer), extra, merged)
            && pruning(
            metric,
            prev.slots(),
            prev.entries(),
            owner,
            merged,
            m,
            self.adj(owner as int, layer),
        ));
    }

    /// Each chosen id was accepted against every id chosen before it: it is
    /// strictly closer to the anchor than to any of them.
    pub open(crate) spec fn diverse<M: Metric>(
        &self,
        metric: &M,
        anchor: NodeId,
        sel: Seq<NodeId>,
    ) -> bool {
        forall|i: int, j: int|
            0 <= i < j < sel.len() ==> closer(
                metric,
                self.vector(#[trigger] sel[j] as int),
                self.vector(anchor as int),
                self.vector(sel[j] as int),
                self.vector(#[trigger] sel[i] as int),
            )
    }

    /// Of any two ids of `list`, one is strictly closer to the anchor than to
    /// the other.
    pub open(crate) spec fn pairwise_diverse<M: Metric>(
        &self,
        metric: &M,
        anchor: NodeId,
        list: Seq<NodeId>,
    ) -> bool {
        forall|a: NodeId, b: NodeId|
            #![trigger list.contains(a), list.contains(b)]
            list.contains(a) && list.contains(b) && a != b ==> closer(
                metric,
                self.vector(a as int),
                self.vector(anchor as int),
                self.vector(a as int),
                self.vector(b as int),
            ) || closer(
                metric,
                self.vector(b as int),
                self.vector(anchor as int),
                self.vector(b as int),
                self.vector(a as int),
            )
    }

    /// The neighbour heuristic: scans the candidates in order and keeps one
    /// if it is strictly closer to the anchor than to every candidate kept so
    /// far, until `m` are kept.
    pub(crate) fn select_diverse<M: Metric>(
        &self,
        anchor: NodeId,
        cands: &Vec<Candidate>,
        m: usize,
        metric: &M,
    ) -> (sel: Picked)
        requires
            self.wf(),
            self.live(anchor as int),
            self.uniform(self.vector(anchor as int).len()),
            self.measured(metric, self.vector(anchor as int), cands@),
        ensures
            picked(sel).len() <= m,
            picked(sel).len() <= cands@.len(),
            forall|i: int|
                0 <= i < picked(sel).len() ==> has_id(cands@, #[trigger] picked(sel)[i]) && picked(
                    sel,
                )[i] != anchor && self.live(picked(sel)[i] as int),
            distinct_ids(cands@) ==> picked(sel).no_duplicates(),
            self.diverse(metric, anchor, picked(sel)),
            m >= 1 && (exists|k: int| 0 <= k < cands@.len() && (#[trigger] cands@[k]).0 != anchor)
                ==> picked(sel).len() >= 1,
            exists|src: Seq<int>| #[trigger]
                selection(metric, self.entries(), anchor, cands@, m, picked(sel), src),
    {
        let mut sel = picked_new();
        let ghost mut src: Seq<int> = Seq::empty();
        let ghost entries = self.entries();
        let mut idx: usize = 0;
        while idx < cands.len() && picked_len(&sel) < m && picked_len(&sel) < PICK_LIMIT
            invariant
                self.wf(),
                self.live(anchor as int),
                self.uniform(self.vector(anchor as int).len()),
                self.measured(metric, self.vector(anchor as int), cands@),
                idx <= cands@.len(),
                picked(sel).len() <= m,
                picked(sel).len() <= idx,
                src.len() == picked(sel).len(),
                forall|i: int|
                    0 <= i < src.len() ==> 0 <= #[trigger] src[i] < idx && picked(sel)[i]
                        == cands@[src[i]].0 && picked(sel)[i] != anchor,
                forall|a: int, b: int| 0 <= a < b < src.len() ==> src[a] < src[b],
                self.diverse(metric, anchor, picked(sel)),
                (exists|k: int| 0 <= k < idx && (#[trigger] cands@[k]).0 != anchor) ==> picked(
                    sel,
                ).len() >= 1,
                entries == self.entries(),
                src.len() > 0 && (src.len() >= m || src.len() >= PICK_LIMIT) ==> idx == src.last()
                    + 1,
                forall|i: int, j: int|
                    0 <= i < j < src.len() ==> prefers_anchor(
                        metric,
                        entries,
                        cands@[#[trigger] src[j]],
                        #[trigger] picked(sel)[i],
                    ),
                forall|k: int|
                    0 <= k < idx && !src.contains(k) ==> #[trigger] passed_over(
                        metric,
                        entries,
                        anchor,
                        cands@,
                        picked(sel),
                        src,
                        k,
                    ),
            decreases cands@.len() - idx,
        {
            let (c, dc) = cands[idx];
            if c != anchor {
                let chosen = picked_slice(&sel);
                let mut ok = true;
                let mut t: usize = 0;
                proof {
                    assert forall|i: int| 0 <= i < chosen@.len() implies self.live(
                        #[trigger] chosen@[i] as int,
                    ) by {
                        assert(chosen@[i] == cands@[src[i]].0);
                    }
                }
                while ok && t < chosen.len()
                    invariant
                        !ok ==> chosen@.len() >= 1,
                        entries == self.entries(),
                        !ok ==> exists|i: int|
                            0 <= i < chosen@.len() && #[trigger] yields_to(
                                metric,
                                entries,
                                (c, dc),
                                chosen@[i],
                            ),
                        ok ==> forall|i: int|
                            0 <= i < t ==> prefers_anchor(
                                metric,
                                entries,
                                (c, dc),
                                #[trigger] chosen@[i],
                            ),
                        self.wf(),
                        self.live(anchor as int),
                        self.live(c as int),
                        self.uniform(self.vector(anchor as int).len()),
                        chosen@ == picked(sel),
                        t <= chosen@.len(),
                        forall|i: int| 0 <= i < chosen@.len()
                            ==> self.live(#[trigger] chosen@[i] as int),
                        measures(metric, self.vector(c as int), self.vector(anchor as int), dc),
                        ok ==> forall|i: int|
                            0 <= i < t ==> closer(
                                metric,
                                self.vector(c as int),
                                self.vector(anchor as int),
                                self.vector(c as int),
                                self.vector(#[trigger] chosen@[i] as int),
                            ),
                    decreases chosen@.len() - t, ok as int,
                {
                    let s = chosen[t];
                    proof {
                        self.lemma_uniform(c as int, self.vector(anchor as int).len());
                        self.lemma_uniform(s as int, self.vector(anchor as int).len());
                    }
                    let ds = measure(metric, self.vec_of(c), self.vec_of(s));
                    proof {
                        assert(entries[c as int].vector == self.vector(c as int));
                        assert(entries[s as int].vector == self.vector(s as int));
                        assert(measures(
                            metric,
                            entries[(c, dc).0 as int].vector,
                            entries[chosen@[t as int] as int].vector,
                            ds,
                        ));
                    }
                    if dist_rank(dc) < dist_rank(ds) {
                        proof {
                            assert(prefers_anchor(metric, entries, (c, dc), chosen@[t as int]));
                        }
                        t += 1;
                    } else {
                        proof {
                            assert(yields_to(metric, entries, (c, dc), chosen@[t as int]));
                        }
                        ok = false;
                    }
                }
                let ghost prev = picked(sel);
                let ghost prev_src = src;
                if ok {
                    picked_push(&mut sel, c);
                    proof {
                        src = src.push(idx as int);
                        assert forall|i: int, j: int| 0 <= i < j < src.len() implies prefers_anchor(
                            metric,
                            entries,
                            cands@[#[trigger] src[j]],
                            #[trigger] picked(sel)[i],
                        ) by {
                            if j < prev_src.len() {
                                assert(prefers_anchor(
                                    metric,
                                    entries,
                                    cands@[prev_src[j]],
                                    prev[i],
                                ));
                            } else {
                                assert(cands@[src[j]] == (c, dc));
                                assert(prefers_anchor(metric, entries, (c, dc), prev[i]));
                            }
                        }
                        assert(src.contains(idx as int)) by {
                            assert(src[src.len() - 1] == idx);
                        }
                    }
                } else {
                    proof {
                        let i = choose|i: int|
                            0 <= i < prev.len() && #[trigger] yields_to(
                                metric,
                                entries,
                                (c, dc),
                                prev[i],
                            );
                        assert(cands@[idx as int] == (c, dc));
                        assert(0 <= i < src.len() && src[i] < idx && yields_to(
                            metric,
                            entries,
                            cands@[idx as int],
                            picked(sel)[i],
                        ));
                        assert(passed_over(
                            metric,
                            entries,
                            anchor,
                            cands@,
                            picked(sel),
                            src,
                            idx as int,
                        ));
                    }
                }
                proof {
                    assert forall|k: int| 0 <= k < idx && !src.contains(k)
                        implies #[trigger] passed_over(
                        metric,
                        entries,
                        anchor,
                        cands@,
                        picked(sel),
                        src,
                        k,
                    ) by {
                        assert(!prev_src.contains(k)) by {
                            if prev_src.contains(k) {
                                let w = choose|w: int| 0 <= w < prev_src.len() && prev_src[w] == k;
                                assert(src[w] == k);
                            }
                        }
                        assert(passed_over(metric, entries, anchor, cands@, prev, prev_src, k));
                        if cands@[k].0 != anchor {
                            let i = choose|i: int|
                                0 <= i < prev_src.len() && prev_src[i] < k && #[trigger] yields_to(
                                    metric,
                                    entries,
                                    cands@[k],
                                    prev[i],
                                );
                            assert(src[i] == prev_src[i] && picked(sel)[i] == prev[i]);
                            assert(yields_to(metric, entries, cands@[k], picked(sel)[i]));
                        }
                    }
                }
            } else {
                proof {
                    assert(passed_over(
                        metric,
                        entries,
                        anchor,
                        cands@,
                        picked(sel),
                        src,
                        idx as int,
                    ));
                }
            }
            proof {
                if exists|k: int| 0 <= k < idx + 1 && (#[trigger] cands@[k]).0 != anchor {
                    let k = choose|k: int| 0 <= k < idx + 1 && (#[trigger] cands@[k]).0 != anchor;
                }
            }
            idx += 1;
        }
        proof {
            assert(selection(metric, entries, anchor, cands@, m, picked(sel), src)) by {
                assert forall|k: int|
                    0 <= k < cands@.len() && scanned(m, src, k) && !src.contains(k)
                        implies #[trigger] passed_over(
                    metric,
                    entries,
                    anchor,
                    cands@,
                    picked(sel),
                    src,
                    k,
                ) by {
                    assert(k < idx);
                }
            }
            assert forall|i: int| 0 <= i < picked(sel).len() implies has_id(
                cands@,
                #[trigger] picked(sel)[i],
            ) && picked(sel)[i] != anchor && self.live(picked(sel)[i] as int) by {
                assert(cands@[src[i]].0 == picked(sel)[i]);
            }
            if distinct_ids(cands@) {
                assert forall|a: int, b: int|
                    0 <= a < picked(sel).len() && 0 <= b < picked(sel).len() && a != b
                        implies picked(
                    sel,
                )[a] != picked(sel)[b] by {
                    if a < b {
                        assert(src[a] < src[b]);
                    }
                }
            }
        }
        sel
    }

    /// The live ids of `base` and `extra`, without `owner`, each once and in
    /// increasing order.
    pub(crate) fn merged_links(&self, owner: NodeId, base: &[NodeId],
        extra: &[NodeId]) -> (out: Vec<
        NodeId,
    >)
        ensures
            increasing(out@),
            list_ok(out@, owner as int, self.nodes@.len() as int),
            forall|x: NodeId| #[trigger]
                out@.contains(x) <==> (base@.contains(x) || extra@.contains(x)) && self.live(
                    x as int,
                ) && x != owner,
            out@.len() <= base@.len() + extra@.len(),
    {
        let mut out: Vec<NodeId> = Vec::new();
        let mut i: usize = 0;
        while i < base.len()
            invariant
                i <= base@.len(),
                out@.len() <= i,
                increasing(out@),
                forall|x: NodeId| #[trigger]
                    out@.contains(x) <==> base@.take(i as int).contains(x) && self.live(x as int)
                        && x != owner,
            decreases base@.len() - i,
        {
            let x = base[i];
            proof {
                assert(base@.take(i + 1) =~= base@.take(i as int).push(x));
                lemma_push_contains(base@.take(i as int), x);
            }
            if self.is_valid_nid(x) && x != owner {
                insert_unique(&mut out, x);
            }
            i += 1;
        }
        proof {
            assert(base@.take(base@.len() as int) =~= base@);
        }
        let mut j: usize = 0;
        while j < extra.len()
            invariant
                j <= extra@.len(),
                out@.len() <= base@.len() + j,
                increasing(out@),
                forall|x: NodeId| #[trigger]
                    out@.contains(x) <==> (base@.contains(x) || extra@.take(j as int).contains(x))
                        && self.live(x as int) && x != owner,
            decreases extra@.len() - j,
        {
            let x = extra[j];
            proof {
                assert(extra@.take(j + 1) =~= extra@.take(j as int).push(x));
                lemma_push_contains(extra@.take(j as int), x);
            }
            if self.is_valid_nid(x) && x != owner {
                insert_unique(&mut out, x);
            }
            j += 1;
        }
        proof {
            assert(extra@.take(extra@.len() as int) =~= extra@);
            lemma_increasing_distinct(out@);
            assert forall|k: int| 0 <= k < out@.len()
                implies 0 <= #[trigger] out@[k] < self.nodes@.len()
                && out@[k] != owner by {
                assert(out@.contains(out@[k]));
            }
        }
        out
    }
}

impl Graph {
    /// Between `prev` and `self` only adjacency lists on `layer` changed.
    pub open(crate) spec fn rewired_on(&self, prev: &Graph, layer: int) -> bool {
        &&& self.same_frame(prev)
        &&& forall|i: int, l: int| l != layer ==> #[trigger] self.adj(i, l) == prev.adj(i, l)
    }

    /// Brings the adjacency of `nid` on `layer` back to at most `m` links.
    /// A list within the bound is left alone; a longer one is replaced by
    /// what the neighbour heuristic keeps of its live links, ranked by their
    /// distance to `nid`.
    pub(crate) fn prune_degree_hnsw<M: Metric>(
        &mut self,
        nid: NodeId,
        layer: usize,
        m: usize,
        metric: &M,
    )
        requires
            old(self).wf(),
            old(self).live(nid as int),
            old(self).uniform(old(self).vector(nid as int).len()),
            layer < old(self).nodes@[nid as int].links@.len(),
        ensures
            final(self).wf(),
            final(self).rewired_on(old(self), layer as int),
            old(self).clean() ==> final(self).clean(),
            forall|t: int| old(self).tidy(t) ==> #[trigger] final(self).tidy(t),
            forall|i: int| i != nid
                ==> #[trigger] final(self).adj(i, layer as int) == old(self).adj(
                i,
                layer as int,
            ),
            forall|x: NodeId| #[trigger]
                final(self).adj(nid as int, layer as int).contains(x) ==> old(self).adj(
                    nid as int,
                    layer as int,
                ).contains(x),
            final(self).total_bytes <= old(self).total_bytes,
            m >= 1 && (exists|x: NodeId|
                old(self).adj(nid as int, layer as int).contains(x) && old(self).live(x as int))
                ==> final(self).adj(nid as int, layer as int).len() >= 1,
            old(self).adj(nid as int, layer as int).len() <= m ==> final(self).adj(
                nid as int,
                layer as int,
            ) == old(self).adj(nid as int, layer as int),
            old(self).adj(nid as int, layer as int).len() > m ==> {
                &&& final(self).adj(nid as int, layer as int).len() <= m
                &&& forall|k: int|
                    0 <= k < final(self).adj(nid as int, layer as int).len() ==> final(self).live(
                        #[trigger] final(self).adj(nid as int, layer as int)[k] as int,
                    )
                &&& final(self).diverse(metric, nid, final(self).adj(nid as int, layer as int))
            },
            pruning(
                metric,
                old(self).slots(),
                old(self).entries(),
                nid,
                old(self).adj(nid as int, layer as int),
                m,
                final(self).adj(nid as int, layer as int),
            ),
            final(self).adj(nid as int, layer as int).len() <= m,
    {
        let adj = self.neighbors(nid, layer);
        if adj.len() <= m {
            proof {
                if exists|x: NodeId| adj@.contains(x) && self.live(x as int) {
                    let x = choose|x: NodeId| adj@.contains(x) && self.live(x as int);
                }
            }
            return ;
        }
        let mut cand: Vec<Candidate> = Vec::new();
        let mut j: usize = 0;
        while j < adj.len()
            invariant
                self.wf(),
                self.live(nid as int),
                self.uniform(self.vector(nid as int).len()),
                adj@ == self.adj(nid as int, layer as int),
                adj@.no_duplicates(),
                j <= adj@.len(),
                cand@.len() <= j,
                ascending(cand@),
                distinct_ids(cand@),
                self.measured(metric, self.vector(nid as int), cand@),
                forall|k: int|
                    0 <= k < cand@.len() ==> adj@.take(j as int).contains((#[trigger] cand@[k]).0)
                        && cand@[k].0 != nid,
                forall|k: int| 0 <= k < j && self.live(#[trigger] adj@[k] as int)
                    ==> cand@.len() >= 1,
                forall|k: int|
                    0 <= k < j && self.live(#[trigger] adj@[k] as int) && adj@[k] != nid ==> has_id(
                        cand@,
                        adj@[k],
                    ),
            decreases adj@.len() - j,
        {
            let c = adj[j];
            proof {
                assert(adj@.take(j + 1) =~= adj@.take(j as int).push(c));
                lemma_push_contains(adj@.take(j as int), c);
            }
            if self.is_valid_nid(c) && c != nid {
                proof {
                    self.lemma_uniform(c as int, self.vector(nid as int).len());
                    assert(!has_id(cand@, c)) by {
                        if has_id(cand@, c) {
                            let k = choose|k: int| 0 <= k < cand@.len()
                                && (#[trigger] cand@[k]).0 == c;
                        }
                    }
                }
                let d = measure(metric, self.vec_of(c), self.vec_of(nid));
                let ghost prev = cand@;
                let pos = insert_ascending(&mut cand, (c, d));
                proof {
                    lemma_insert_keeps(prev, pos as int, (c, d));
                    assert forall|k: int|
                        0 <= k < j + 1 && self.live(#[trigger] adj@[k] as int) && adj@[k] != nid
                            implies has_id(cand@, adj@[k]) by {
                        if k < j {
                            assert(has_id(prev, adj@[k]));
                        }
                    }
                }
            }
            j += 1;
        }
        let sel = self.select_diverse(nid, &cand, m, metric);
        let keep = copy_of(picked_slice(&sel));
        proof {
            assert(adj@.take(adj@.len() as int) =~= adj@);
            assert(ranked(metric, self.slots(), self.entries(), nid, adj@, cand@)) by {
                assert forall|k: int| 0 <= k < cand@.len() implies measures(
                    metric,
                    self.entries()[(#[trigger] cand@[k]).0 as int].vector,
                    self.entries()[nid as int].vector,
                    cand@[k].1,
                ) by {
                    assert(self.live(cand@[k].0 as int));
                }
                assert forall|x: NodeId| #[trigger]
                    has_id(cand@, x) <==> adj@.contains(x) && slot_live(self.slots(), x as int)
                        && x != nid by {
                    if has_id(cand@, x) {
                        let k = choose|k: int| 0 <= k < cand@.len() && (#[trigger] cand@[k]).0 == x;
                        assert(self.live(cand@[k].0 as int));
                        assert(adj@.take(adj@.len() as int).contains(cand@[k].0));
                    }
                    if adj@.contains(x) && slot_live(self.slots(), x as int) && x != nid {
                        let k = choose|k: int| 0 <= k < adj@.len() && adj@[k] == x;
                        assert(self.live(adj@[k] as int));
                    }
                }
            }
            if m >= 1 && (exists|x: NodeId| adj@.contains(x) && self.live(x as int)) {
                let x = choose|x: NodeId| adj@.contains(x) && self.live(x as int);
                assert(cand@[0].0 != nid);
            }
        }
        let ghost before = *self;
        self.replace_links(nid, layer, keep);
        proof {
            assert(self.vector(nid as int) == before.vector(nid as int)) by {
                assert(self.entries()[nid as int] == before.entries()[nid as int]);
            }
            assert forall|i: int, j: int| 0 <= i < j < keep@.len() implies closer(
                metric,
                self.vector(#[trigger] keep@[j] as int),
                self.vector(nid as int),
                self.vector(keep@[j] as int),
                self.vector(#[trigger] keep@[i] as int),
            ) by {
                assert(self.entries()[keep@[j] as int] == before.entries()[keep@[j] as int]);
                assert(self.entries()[keep@[i] as int] == before.entries()[keep@[i] as int]);
            }
            assert forall|x: NodeId| #[trigger]
                self.adj(nid as int, layer as int).contains(x) implies old(self).adj(
                nid as int,
                layer as int,
            ).contains(x) by {
                let k = choose|k: int| 0 <= k < keep@.len() && keep@[k] == x;
            }
        }
    }
}

impl Graph {
    /// Links `nid` on `layer` with the neighbours the heuristic selects among
    /// `neigh`, in both directions, and prunes every list it extended back to
    /// `m` links. Only live neighbours that take part in `layer` are linked;
    /// every list that is rewritten ends up sorted, free of duplicates and of
    /// links to deleted nodes.
    #[verifier::spinoff_prover]
    #[verifier::rlimit(100)]
    pub(crate) fn connect<M: Metric>(
        &mut self,
        nid: NodeId,
        neigh: &Vec<Candidate>,
        m: usize,
        layer: usize,
        metric: &M,
    )
        requires
            old(self).wf(),
            old(self).live(nid as int),
            old(self).uniform(old(self).vector(nid as int).len()),
            layer < old(self).nodes@[nid as int].links@.len(),
            old(self).measured(metric, old(self).vector(nid as int), neigh@),
            distinct_ids(neigh@),
        ensures
            final(self).wf(),
            final(self).rewired_on(old(self), layer as int),
            old(self).clean() ==> final(self).clean(),
            forall|t: int| old(self).tidy(t) ==> #[trigger] final(self).tidy(t),
            exists|sel: Seq<NodeId>, src: Seq<int>, chosen: Seq<NodeId>| #[trigger]
                final(self).linked_by(old(self), metric, nid, neigh@, m, layer as int, sel, src,
                    chosen),
            forall|i: int| #[trigger]
                old(self).adj(i, layer as int).len() <= m ==> final(self).adj(i, layer as int).len()
                    <= m,
            forall|y: NodeId|
                y != nid && #[trigger] final(self).adj(nid as int, layer as int).contains(y)
                    && !old(self).adj(nid as int, layer as int).contains(y) ==> final(self).adj(
                    y as int,
                    layer as int,
                ).contains(nid) || old(self).adj(y as int, layer as int).len() >= m,
            forall|y: NodeId|
                old(self).adj(nid as int, layer as int).len() == 0 && y != nid && (
                #[trigger] final(self).adj(y as int, layer as int)).contains(nid) && !old(self).adj(
                    y as int,
                    layer as int,
                ).contains(nid) ==> final(self).adj(nid as int, layer as int).contains(y),
            forall|y: NodeId, x: NodeId|
                y != nid && old(self).adj(y as int, layer as int).len() < m && old(self).adj(
                    y as int,
                    layer as int,
                ).contains(x) && old(self).live(x as int) ==> #[trigger] final(self).adj(
                    y as int,
                    layer as int,
                ).contains(x),
            forall|x: NodeId| #[trigger]
                final(self).adj(nid as int, layer as int).contains(x) ==> final(self).live(x as int)
                    && (old(self).adj(nid as int, layer as int).contains(x) || has_id(neigh@, x)),
            forall|i: int, x: NodeId|
                i != nid && #[trigger] final(self).adj(i, layer as int).contains(x) ==> x == nid
                    || old(self).adj(i, layer as int).contains(x),
            final(self).adj(nid as int, layer as int).len() <= m,
            old(self).adj(nid as int, layer as int).len() == 0 ==> final(self).pairwise_diverse(
                metric,
                nid,
                final(self).adj(nid as int, layer as int),
            ),
            layer == 0 && m >= 1 && (exists|k: int|
                0 <= k < neigh@.len() && (#[trigger] neigh@[k]).0 != nid) ==> final(self).adj(
                nid as int,
                0,
            ).len() >= 1,
    {
        let ghost dims = self.vector(nid as int).len();
        let sel = self.select_diverse(nid, neigh, m, metric);
        let picks = picked_slice(&sel);
        let ghost src = choose|src: Seq<int>| #[trigger]
            selection(metric, self.entries(), nid, neigh@, m, picked(sel), src);
        // Keep the selected neighbours that are live and take part in the layer.
        let mut chosen: Vec<NodeId> = Vec::new();
        let mut t: usize = 0;
        proof {
            assert(picks@.take(0) =~= Seq::<NodeId>::empty());
        }
        while t < picks.len()
            invariant
                self.wf(),
                picks@ == picked(sel),
                picks@.no_duplicates(),
                t <= picks@.len(),
                forall|i: int|
                    0 <= i < picked(sel).len() ==> has_id(neigh@, #[trigger] picked(sel)[i])
                        && picked(sel)[i] != nid && self.live(picked(sel)[i] as int),
                layer == 0 && t >= 1 ==> chosen@.len() >= 1,
                chosen@.len() <= t,
                chosen@.no_duplicates(),
                forall|x: NodeId| #[trigger]
                    chosen@.contains(x) <==> picks@.take(t as int).contains(x) && layer
                        < self.layers_of(x as int),
                forall|k: int| 0 <= k < chosen@.len()
                    ==> picked(sel).contains(#[trigger] chosen@[k]),
                forall|k: int|
                    0 <= k < chosen@.len() ==> self.live(#[trigger] chosen@[k] as int) && chosen@[k]
                        != nid && layer < self.nodes@[chosen@[k] as int].links@.len() && has_id(
                        neigh@,
                        chosen@[k],
                    ),
            decreases picks@.len() - t,
        {
            let s = picks[t];
            proof {
                assert(picks@.take(t + 1) =~= picks@.take(t as int).push(s));
                lemma_push_contains(picks@.take(t as int), s);
                assert(!picks@.take(t as int).contains(s)) by {
                    if picks@.take(t as int).contains(s) {
                        let w = choose|w: int|
                            0 <= w < picks@.take(t as int).len() && picks@.take(t as int)[w] == s;
                        assert(picks@[w] == picks@[t as int]);
                    }
                }
                assert(self.live(picked(sel)[t as int] as int));
                assert(self.nodes@[s as int].wf());
            }
            if self.is_valid_nid(s) && s != nid && layer < self.nodes[s].links.len() {
                let ghost prev = chosen@;
                chosen.push(s);
                proof {
                    lemma_push_contains(prev, s);
                    assert(picked(sel).contains(picked(sel)[t as int]));
                    assert(has_id(neigh@, picked(sel)[t as int]));
                    assert forall|k: int| 0 <= k < chosen@.len() implies picked(sel).contains(
                        #[trigger] chosen@[k],
                    ) && self.live(chosen@[k] as int) && chosen@[k] != nid && layer
                        < self.nodes@[chosen@[k] as int].links@.len()
                            && has_id(neigh@, chosen@[k]) by {
                        if k < prev.len() {
                            assert(chosen@[k] == prev[k]);
                        }
                    }
                    assert forall|a: int, b: int|
                        0 <= a < chosen@.len() && 0 <= b < chosen@.len() && a != b
                            implies chosen@[a] != chosen@[b] by {
                        if a < prev.len() {
                            assert(prev.contains(prev[a]));
                        }
                        if b < prev.len() {
                            assert(prev.contains(prev[b]));
                        }
                    }
                }
            }
            t += 1;
        }
        proof {
            assert(picks@.take(picks@.len() as int) =~= picks@);
        }
        // Forward links.
        let forward = self.merged_links(nid, self.neighbors(nid, layer), chosen.as_slice());
        proof {
            if chosen@.len() >= 1 {
                assert(chosen@.contains(chosen@[0]));
                assert(forward@.contains(chosen@[0]));
            }
        }
        let ghost linked = chosen@.len() >= 1;
        let ghost fresh = self.adj(nid as int, layer as int).len() == 0;
        let ghost first = forward@;
        proof {
            assert(merging(
                self.slots(),
                nid,
                self.adj(nid as int, layer as int),
                chosen@,
                first,
            ));
            if fresh {
                assert forall|x: NodeId| self.adj(nid as int, layer as int).contains(x)
                    implies false by {}
                assert forall|a: NodeId, b: NodeId|
                    #![trigger first.contains(a), first.contains(b)]
                    first.contains(a) && first.contains(b) && a != b implies closer(
                    metric,
                    self.vector(a as int),
                    self.vector(nid as int),
                    self.vector(a as int),
                    self.vector(b as int),
                ) || closer(
                    metric,
                    self.vector(b as int),
                    self.vector(nid as int),
                    self.vector(b as int),
                    self.vector(a as int),
                ) by {
                    assert(chosen@.contains(a) && chosen@.contains(b));
                    let pa = choose|pa: int| 0 <= pa < picked(sel).len() && picked(sel)[pa] == a;
                    let pb = choose|pb: int| 0 <= pb < picked(sel).len() && picked(sel)[pb] == b;
                    if pa < pb {
                        assert(closer(
                            metric,
                            self.vector(picked(sel)[pb] as int),
                            self.vector(nid as int),
                            self.vector(picked(sel)[pb] as int),
                            self.vector(picked(sel)[pa] as int),
                        ));
                    } else {
                        assert(closer(
                            metric,
                            self.vector(picked(sel)[pa] as int),
                            self.vector(nid as int),
                            self.vector(picked(sel)[pa] as int),
                            self.vector(picked(sel)[pb] as int),
                        ));
                    }
                }
            }
        }
        self.replace_links(nid, layer, forward);
        proof {
            assert(self.vector(nid as int) == old(self).vector(nid as int)) by {
                assert(self.entries()[nid as int] == old(self).entries()[nid as int]);
            }
            assert(chosen@.take(0) =~= Seq::<NodeId>::empty());
        }
        // Back links, each followed by a pruning of the neighbour.
        let mut one: Vec<NodeId> = Vec::new();
        one.push(nid);
        let mut b: usize = 0;
        while b < chosen.len()
            invariant
                self.wf(),
                self.rewired_on(old(self), layer as int),
                old(self).clean() ==> self.clean(),
                forall|t: int| old(self).tidy(t) ==> #[trigger] self.tidy(t),
                self.live(nid as int),
                self.uniform(dims),
                one@ == seq![nid],
                b <= chosen@.len(),
                chosen@.no_duplicates(),
                linked ==> self.adj(nid as int, layer as int).len() >= 1,
                self.adj(nid as int, layer as int) == first,
                fresh ==> first.len() <= m,
                layer < self.nodes@[nid as int].links@.len(),
                forall|k: int|
                    0 <= k < chosen@.len() ==> old(self).live(#[trigger] chosen@[k] as int)
                        && chosen@[k] != nid
                            && layer < old(self).nodes@[chosen@[k] as int].links@.len(),
                forall|x: NodeId| #[trigger]
                    self.adj(nid as int, layer as int).contains(x)
                        ==> self.live(x as int)
                            && (old(self).adj(nid as int, layer as int).contains(x)
                                || has_id(neigh@, x)),
                forall|i: int, x: NodeId|
                    i != nid && #[trigger] self.adj(i, layer as int).contains(x)
                        ==> x == nid || old(self).adj(i, layer as int).contains(x),
                forall|i: int|
                    i != nid && !chosen@.take(b as int).contains(i as NodeId)
                        ==> #[trigger] self.adj(
                        i,
                        layer as int,
                    ) == old(self).adj(i, layer as int),
                forall|k: int|
                    0 <= k < b ==> self.relinked(
                        old(self),
                        metric,
                        #[trigger] chosen@[k],
                        seq![nid],
                        layer as int,
                        m,
                    ) && self.adj(chosen@[k] as int, layer as int).len() <= m && self.kept_all(
                        old(self),
                        chosen@[k],
                        nid,
                        layer as int,
                        m,
                    ),
            decreases chosen@.len() - b,
        {
            let s = chosen[b];
            let ghost mid = *self;
            proof {
                assert(chosen@.take(b + 1) =~= chosen@.take(b as int).push(s));
                lemma_push_contains(chosen@.take(b as int), s);
                assert(!chosen@.take(b as int).contains(s)) by {
                    if chosen@.take(b as int).contains(s) {
                        let w = choose|w: int|
                            0 <= w < chosen@.take(b as int).len() && chosen@.take(b as int)[w]
                                == s;
                        assert(chosen@[w] == chosen@[b as int]);
                    }
                }
                assert(mid.adj(s as int, layer as int) == old(self).adj(s as int, layer as int));
            }
            let back = self.merged_links(s, self.neighbors(s, layer), one.as_slice());
            proof {
                assert(merging(
                    old(self).slots(),
                    s,
                    old(self).adj(s as int, layer as int),
                    seq![nid],
                    back@,
                ));
            }
            self.replace_links(s, layer, back);
            proof {
                self.lemma_uniform(s as int, dims);
            }
            let ghost linked_back = *self;
            self.prune_degree_hnsw(s, layer, m, metric);
            proof {
                assert(self.relinked(old(self), metric, s, seq![nid], layer as int, m)) by {
                    assert(merging(
                        old(self).slots(),
                        s,
                        old(self).adj(s as int, layer as int),
                        seq![nid],
                        back@,
                    ) && pruning(
                        metric,
                        old(self).slots(),
                        old(self).entries(),
                        s,
                        back@,
                        m,
                        self.adj(s as int, layer as int),
                    ));
                }
                assert forall|k: int| 0 <= k < b + 1 implies self.relinked(
                    old(self),
                    metric,
                    #[trigger] chosen@[k],
                    seq![nid],
                    layer as int,
                    m,
                ) && self.adj(chosen@[k] as int, layer as int).len() <= m && self.kept_all(
                    old(self),
                    chosen@[k],
                    nid,
                    layer as int,
                    m,
                ) by {
                    if k == b {
                        if old(self).adj(s as int, layer as int).len() < m {
                            assert(back@.len() <= m);
                            assert(self.adj(s as int, layer as int) == back@);
                            assert(seq![nid].contains(nid)) by {
                                assert(seq![nid][0] == nid);
                            }
                            assert forall|x: NodeId|
                                old(self).adj(s as int, layer as int).contains(x) && old(self).live(
                                    x as int,
                                ) implies #[trigger] self.adj(s as int, layer as int).contains(
                                x,
                            ) by {
                                crate::laws::law_links_sound(&mid, s as int, layer as int);
                                let w = choose|w: int|
                                    0 <= w < mid.adj(s as int, layer as int).len() && mid.adj(
                                        s as int,
                                        layer as int,
                                    )[w] == x;
                                assert(x != s);
                                assert(back@.contains(x));
                            }
                        }
                    }
                    if k < b {
                        assert(mid.kept_all(old(self), chosen@[k], nid, layer as int, m));
                        assert(chosen@[k] != s);
                        assert(self.adj(chosen@[k] as int, layer as int) == mid.adj(
                            chosen@[k] as int,
                            layer as int,
                        ));
                        self.lemma_relinked_frame(
                            &mid,
                            old(self),
                            metric,
                            chosen@[k],
                            seq![nid],
                            layer as int,
                            m,
                        );
                    }
                }
            }
            b += 1;
        }
        let ghost mid = *self;
        proof {
            self.lemma_uniform(nid as int, dims);
            assert(chosen@.take(chosen@.len() as int) =~= chosen@);
        }
        self.prune_degree_hnsw(nid, layer, m, metric);
        proof {
            if linked {
                let x = mid.adj(nid as int, layer as int)[0];
                assert(mid.adj(nid as int, layer as int).contains(x));
            }
            if fresh {
                assert(self.adj(nid as int, layer as int) == first);
                assert forall|a: NodeId, b: NodeId|
                    #![trigger first.contains(a), first.contains(b)]
                    first.contains(a) && first.contains(b) && a != b implies closer(
                    metric,
                    self.vector(a as int),
                    self.vector(nid as int),
                    self.vector(a as int),
                    self.vector(b as int),
                ) || closer(
                    metric,
                    self.vector(b as int),
                    self.vector(nid as int),
                    self.vector(b as int),
                    self.vector(a as int),
                ) by {
                    assert(self.entries()[a as int] == old(self).entries()[a as int]);
                    assert(self.entries()[b as int] == old(self).entries()[b as int]);
                    assert(self.entries()[nid as int] == old(self).entries()[nid as int]);
                }
            }
            assert(self.nodes.len() == self.nodes@.len());
            assert forall|i: int| #[trigger]
                old(self).adj(i, layer as int).len() <= m implies self.adj(i, layer as int).len()
                <= m by {
                if i != nid {
                    assert(self.adj(i, layer as int) == mid.adj(i, layer as int));
                    if chosen@.contains(i as NodeId) && 0 <= i < self.nodes@.len() {
                        let k = choose|k: int| 0 <= k < chosen@.len() && chosen@[k] == i as NodeId;
                        assert(mid.adj(chosen@[k] as int, layer as int).len() <= m);
                    } else if !(0 <= i < self.nodes@.len()) {
                        assert(self.adj(i, layer as int) =~= Seq::<NodeId>::empty());
                    }
                }
            }
            assert forall|y: NodeId|
                y != nid && #[trigger] self.adj(nid as int, layer as int).contains(y) && !old(
                    self,
                ).adj(nid as int, layer as int).contains(y) implies self.adj(
                y as int,
                layer as int,
            ).contains(nid) || old(self).adj(y as int, layer as int).len() >= m by {
                assert(first.contains(y));
                assert(chosen@.contains(y));
                let k = choose|k: int| 0 <= k < chosen@.len() && chosen@[k] == y;
                assert(mid.kept_all(old(self), chosen@[k], nid, layer as int, m));
                assert(self.adj(y as int, layer as int) == mid.adj(y as int, layer as int));
            }
            assert forall|y: NodeId|
                old(self).adj(nid as int, layer as int).len() == 0 && y != nid && (
                #[trigger] self.adj(y as int, layer as int)).contains(nid) && !old(self).adj(
                    y as int,
                    layer as int,
                ).contains(nid) implies self.adj(nid as int, layer as int).contains(y) by {
                assert(self.adj(y as int, layer as int) == mid.adj(y as int, layer as int));
                assert(chosen@.contains(y));
                let k = choose|k: int| 0 <= k < chosen@.len() && chosen@[k] == y;
                assert(old(self).live(chosen@[k] as int));
                assert(first.contains(y));
            }
            assert forall|y: NodeId, x: NodeId|
                y != nid && old(self).adj(y as int, layer as int).len() < m && old(self).adj(
                    y as int,
                    layer as int,
                ).contains(x) && old(self).live(x as int) implies #[trigger] self.adj(
                y as int,
                layer as int,
            ).contains(x) by {
                assert(self.adj(y as int, layer as int) == mid.adj(y as int, layer as int));
                if chosen@.contains(y) {
                    let k = choose|k: int| 0 <= k < chosen@.len() && chosen@[k] == y;
                    assert(mid.kept_all(old(self), chosen@[k], nid, layer as int, m));
                }
            }
            // The record of what was linked.
            assert(self.relinked(old(self), metric, nid, chosen@, layer as int, m)) by {
                assert(merging(
                    old(self).slots(),
                    nid,
                    old(self).adj(nid as int, layer as int),
                    chosen@,
                    first,
                ) && pruning(
                    metric,
                    old(self).slots(),
                    old(self).entries(),
                    nid,
                    first,
                    m,
                    self.adj(nid as int, layer as int),
                ));
            }
            assert forall|s: NodeId| #[trigger] chosen@.contains(s) implies self.relinked(
                old(self),
                metric,
                s,
                seq![nid],
                layer as int,
                m,
            ) by {
                let k = choose|k: int| 0 <= k < chosen@.len() && chosen@[k] == s;
                assert(self.adj(chosen@[k] as int, layer as int) == mid.adj(
                    chosen@[k] as int,
                    layer as int,
                ));
                self.lemma_relinked_frame(
                    &mid,
                    old(self),
                    metric,
                    chosen@[k],
                    seq![nid],
                    layer as int,
                    m,
                );
            }
            assert(self.linked_by(
                old(self),
                metric,
                nid,
                neigh@,
                m,
                layer as int,
                picked(sel),
                src,
                chosen@,
            ));
        }
    }
}

impl Graph {
    /// What insertion does to the links of `prev`: the new node occupies the
    /// next slot, with top layer `level`, and on each of its layers it holds
    /// at most `m` links, all to live nodes, of which any two are diverse:
    /// one of them is strictly closer to the new node than to the other.
    /// Every other node keeps links it had, or gains a link to the new node;
    /// and unless the new node is the only one, it is linked on the base
    /// layer.
    pub open(crate) spec fn wired<M: Metric>(
        &self,
        prev: &Graph,
        metric: &M,
        level: usize,
        m: usize,
    ) -> bool {
        let new = prev.slot_count() as int;
        &&& self.live(new)
        &&& self.layers_of(new) == level + 1
        &&& forall|l: int| #[trigger] self.adj(new, l).len() <= m
        &&& forall|l: int, x: NodeId| #[trigger]
            self.adj(new, l).contains(x) ==> self.live(x as int)
        &&& forall|l: int| #[trigger]
            self.pairwise_diverse(metric, new as NodeId, self.adj(new, l))
        &&& forall|i: int, l: int, x: NodeId|
            i != new && #[trigger] self.adj(i, l).contains(x) ==> x == new || prev.adj(
                i,
                l,
            ).contains(x)
        &&& m >= 1 && self.count() >= 2 ==> self.adj(new, 0).len() >= 1
    }

    /// What appending the node does to the slots, the ids and the registries
    /// of `base`, which does not hold `ext_id`: the node takes the next slot
    /// and the id maps to it; every older slot, and the slot of every other
    /// id, is as it was; the node is listed last in the layer `level`; the
    /// top layer rises to `level` if it was lower; and the entry point stays,
    /// or is the new node if there was none.
    pub open(crate) spec fn placed(
        &self,
        base: &Graph,
        ext_id: u64,
        vector: Seq<u32>,
        now: u64,
        level: usize,
    ) -> bool {
        let new = base.slot_count() as int;
        &&& self.slot_count() == base.slot_count() + 1
        &&& self.count() == base.count() + 1
        &&& self@ == base@.insert(ext_id, Entry { vector, last_hit: now })
        &&& self.ext_map() == base.ext_map().insert(ext_id, new as NodeId)
        &&& self.slots()[new] == (Slot { ext_id, deleted: false, level: level as int })
        &&& self.entries()[new] == (Entry { vector, last_hit: now })
        &&& forall|i: int|
            0 <= i < new ==> #[trigger] self.slots()[i] == base.slots()[i] && self.entries()[i]
                == base.entries()[i]
        &&& self.registry() == enlisted(base.registry(), new as NodeId, level as int)
        &&& self.spec_max_level() == (if level > base.spec_max_level() {
            level
        } else {
            base.spec_max_level()
        })
        &&& self.spec_entry() == (match base.spec_entry() {
            Some(e) => Some(e),
            None => Some(new as NodeId),
        })
    }

    /// How the new node is meshed with the nodes of `base`: a list within
    /// `m` links stays within `m`; each neighbour of the new node links back
    /// to it unless it held `m` links already; a node that links to the new
    /// node is linked from it; and a node that held fewer than `m` links
    /// keeps every link to a live node.
    pub open(crate) spec fn meshed(&self, base: &Graph, m: usize) -> bool {
        let new = base.slot_count() as NodeId;
        &&& forall|i: int, l: int| #[trigger]
            base.adj(i, l).len() <= m ==> self.adj(i, l).len() <= m
        &&& forall|y: NodeId, l: int| #[trigger]
            self.adj(new as int, l).contains(y) ==> self.adj(y as int, l).contains(new) || base.adj(
                y as int,
                l,
            ).len() >= m
        &&& forall|y: NodeId, l: int|
            y != new && (#[trigger] self.adj(y as int, l)).contains(new) ==> self.adj(
                new as int,
                l,
            ).contains(y)
        &&& forall|y: NodeId, l: int, x: NodeId|
            y != new && base.adj(y as int, l).len() < m && base.adj(y as int, l).contains(x)
                && base.live(x as int) ==> #[trigger] self.adj(y as int, l).contains(x)
    }

    /// The new node is wired from `ep`, layer by layer: `ep` is the new node
    /// itself if `base` has no entry point; else it is where a greedy
    /// descent towards the new vector ends, from the entry point of `base`
    /// through the layers above `level`; and each layer up to `level` is
    /// laced from `ep` with a beam of width `max(ef, m, 1)`.
    pub open(crate) spec fn threaded<M: Metric>(
        &self,
        base: &Graph,
        metric: &M,
        level: usize,
        m: usize,
        ef: usize,
        ep: NodeId,
    ) -> bool {
        let new = base.slot_count() as NodeId;
        &&& match base.spec_entry() {
            None => ep == new,
            Some(e) => ep != new && self.descended(
                metric,
                self.vector(new as int),
                base.spec_max_level() as int,
                level as int,
                e,
                ep,
            ),
        }
        &&& forall|l: int| 0 <= l <= level ==> #[trigger] self.laced(base, metric, l, m, ef, ep)
    }

    /// What inserting a vector under an id that `base` does not hold makes
    /// of `base`.
    pub open(crate) spec fn added<M: Metric>(
        &self,
        base: &Graph,
        metric: &M,
        ext_id: u64,
        vector: Seq<u32>,
        now: u64,
        level: usize,
        m: usize,
        ef: usize,
    ) -> bool {
        &&& self.placed(base, ext_id, vector, now, level)
        &&& self.wired(base, metric, level, m)
        &&& self.meshed(base, m)
        &&& exists|ep: NodeId| #[trigger] self.threaded(base, metric, level, m, ef, ep)
    }

    /// What inserting a vector under `ext_id` makes of `prev`: if the id is
    /// stored, what adding it makes of the graph that deleting the id leaves;
    /// else what adding it makes of `prev`.
    pub open(crate) spec fn inserted<M: Metric>(
        &self,
        prev: &Graph,
        metric: &M,
        ext_id: u64,
        vector: Seq<u32>,
        now: u64,
        level: usize,
        m: usize,
        ef: usize,
    ) -> bool {
        if prev@.contains_key(ext_id) {
            exists|cleared: Graph| #[trigger]
                cleared.deleted(prev, ext_id) && cleared.wf() && self.added(
                    &cleared,
                    metric,
                    ext_id,
                    vector,
                    now,
                    level,
                    m,
                    ef,
                )
        } else {
            self.added(prev, metric, ext_id, vector, now, level, m, ef)
        }
    }

    /// Every slot of `prev`, but the one that held `ext_id`, is as it was:
    /// its id, its mark, its top layer, its vector and its access time.
    pub open(crate) spec fn older_kept(&self, prev: &Graph, ext_id: u64) -> bool {
        forall|i: int|
            0 <= i < prev.slot_count() && !(prev@.contains_key(ext_id)
                && i == prev.ext_map()[ext_id]) ==> #[trigger] self.slots()[i] == prev.slots()[i]
                && self.entries()[i] == prev.entries()[i]
    }

    /// Number of layers node `i` takes part in.
    pub open(crate) spec fn layers_of(&self, i: int) -> nat {
        self.nodes@[i].links@.len()
    }

    /// Inserts `vec` under `ext_id` as a node with top layer `level`, last
    /// touched at `now`. A vector already stored under `ext_id` is deleted
    /// first. The new node is wired layer by layer, from `level` down to the
    /// base layer: a beam search of width `max(ef, m, 1)` from the entry point
    /// proposes neighbours, and [`Graph::connect`] links the ones the
    /// heuristic selects.
    #[verifier::rlimit(40)]
    pub fn add_with<M: Metric>(
        &mut self,
        vec: Vec<u32>,
        ext_id: u64,
        metric: &M,
        m: usize,
        ef: usize,
        level: usize,
        now: u64,
    )
        requires
            old(self).wf(),
            old(self).uniform(vec@.len()),
            level < usize::MAX,
        ensures
            final(self).wf(),
            final(self).uniform(vec@.len()),
            final(self)@ == old(self)@.insert(ext_id, Entry { vector: vec@, last_hit: now }),
            final(self).count() == old(self).count() + (if old(self)@.contains_key(ext_id) {
                0int
            } else {
                1int
            }),
            final(self).slot_count() == old(self).slot_count() + 1,
            old(self).clean() && !old(self)@.contains_key(ext_id) ==> final(self).clean(),
            old(self).clean() && old(self)@.contains_key(ext_id) && old(self).linked_back(
                old(self).ext_map()[ext_id] as int,
            ) ==> final(self).clean(),
            old(self).clean() && old(self)@.contains_key(ext_id) ==> final(self).tidy(
                old(self).ext_map()[ext_id] as int,
            ),
            final(self).wired(old(self), metric, level, m),
            final(self).inserted(old(self), metric, ext_id, vec@, now, level, m, ef),
            final(self).ext_map() == old(self).ext_map().insert(
                ext_id,
                old(self).slot_count() as NodeId,
            ),
            final(self).older_kept(old(self), ext_id),
            old(self)@.contains_key(ext_id) ==> !final(self).live(
                old(self).ext_map()[ext_id] as int,
            ),
            final(self).spec_max_level() == (if level > old(self).spec_max_level() {
                level
            } else {
                old(self).spec_max_level()
            }),
            !old(self)@.contains_key(ext_id) ==> final(self).spec_entry() == (match old(
                self,
            ).spec_entry() {
                Some(e) => Some(e),
                None => Some(old(self).slot_count() as NodeId),
            }),
            forall|i: int, l: int| #[trigger]
                old(self).adj(i, l).len() <= m ==> final(self).adj(i, l).len() <= m,
    {
        let ghost dims = vec@.len();
        if self.by_ext.contains_key(&ext_id) {
            self.delete(ext_id);
        }
        let ghost cleared = *self;
        proof {
            assert(self.nodes.len() == self.nodes@.len());
            assert forall|i: int, l: int| #[trigger]
                cleared.adj(i, l).len() <= old(self).adj(i, l).len() by {
                if old(self)@.contains_key(ext_id) {
                    if 0 <= i < cleared.nodes@.len() {
                        let y = i as NodeId;
                        assert(cleared.adj(y as int, l) == old(self).adj_without(
                            old(self).ext_map()[ext_id],
                            y,
                            l,
                        ));
                        lemma_without(old(self).adj(i, l), old(self).ext_map()[ext_id]);
                    } else {
                        assert(cleared.adj(i, l) =~= Seq::<NodeId>::empty());
                    }
                }
            }
        }
        let old_max = self.max_level;
        let old_entry = self.entry;
        let node = Node::new_at(ext_id, level, vec, now);
        let node_id = self.attach(node);
        let ghost attached = *self;
        proof {
            assert(self.placed(&cleared, ext_id, vec@, now, level)) by {
                assert(self.slots()[node_id as int] == (Slot {
                    ext_id,
                    deleted: false,
                    level: level as int,
                }));
                assert(self.entries()[node_id as int] == (Entry { vector: vec@, last_hit: now }));
                assert forall|i: int| 0 <= i < node_id implies #[trigger] self.slots()[i]
                    == cleared.slots()[i] && self.entries()[i] == cleared.entries()[i] by {
                    assert(self.nodes@[i] == cleared.nodes@[i]);
                }
            }
        }
        let mut entry = match old_entry {
            Some(e) => e,
            None => node_id,
        };
        proof {
            // Nothing links to the new node yet.
            assert forall|i: int, k: int, x: NodeId| #[trigger]
                self.adj(i, k).contains(x) implies x != node_id by {
                if i != node_id {
                    crate::laws::law_links_sound(&cleared, i, k);
                }
            }
        }
        let ghost first = entry;
        let ghost mut eps: Seq<NodeId> = seq![entry];
        if node_id != entry && old_max > level {
            let mut l = old_max;
            while l > level
                invariant
                    self.wf(),
                    self.live(node_id as int),
                    self.uniform(self.vector(node_id as int).len()),
                    level <= l <= old_max,
                    old_entry is Some,
                    self.live(entry as int) && entry != node_id,
                    forall|i: int, k: int, x: NodeId| #[trigger]
                        self.adj(i, k).contains(x) ==> x != node_id,
                    eps.len() == old_max - l + 1,
                    eps.first() == first,
                    eps.last() == entry,
                    self.descent(metric, self.vector(node_id as int), old_max as int, eps),
                decreases l,
            {
                let ghost from = entry;
                entry = self.greedy(entry, node_id, l, metric);
                proof {
                    if entry != from {
                        let i = choose|i: int| #[trigger] self.adj(i, l as int).contains(entry);
                    }
                    self.lemma_descent_step(
                        metric,
                        self.vector(node_id as int),
                        old_max as int,
                        eps,
                        entry,
                    );
                    eps = eps.push(entry);
                }
                l -= 1;
            }
        }
        proof {
            if old_entry is Some {
                assert(attached.descended(
                    metric,
                    vec@,
                    old_max as int,
                    level as int,
                    first,
                    entry,
                ));
            }
        }
        let width = if ef >= m {
            if ef >= 1 {
                ef
            } else {
                1
            }
        } else {
            m
        };
        proof {
            assert forall|i: int, k: int| #[trigger] cleared.adj(i, k) == attached.adj(i, k) by {
                if i == node_id {
                    assert(cleared.adj(i, k) =~= Seq::<NodeId>::empty());
                    assert(attached.adj(i, k) =~= Seq::<NodeId>::empty());
                }
            }
        }
        let mut l = level + 1;
        while l > 0
            invariant
                self.wf(),
                self.same_frame(&attached),
                cleared.slot_count() as NodeId == node_id,
                forall|i: int, k: int| #[trigger] cleared.adj(i, k) == attached.adj(i, k),
                width == beam_width(ef, m),
                self.live(entry as int),
                forall|k: int|
                    l <= k <= level ==> #[trigger] self.laced(&cleared, metric, k, m, ef, entry),
                attached.clean() ==> self.clean(),
                forall|t: int| attached.tidy(t) ==> #[trigger] self.tidy(t),
                node_id == attached.nodes@.len() - 1,
                forall|k: int| #[trigger] attached.adj(node_id as int, k).len() == 0,
                forall|k: int| k < l ==> #[trigger] self.adj(node_id as int, k) == attached.adj(
                    node_id as int,
                    k,
                ),
                forall|i: int, k: int|
                    k < l || k > level ==> #[trigger] self.adj(i, k) == attached.adj(i, k),
                forall|i: int, k: int, x: NodeId| #[trigger]
                    attached.adj(i, k).contains(x) ==> x != node_id,
                forall|i: int, k: int| #[trigger]
                    attached.adj(i, k).len() <= m ==> self.adj(i, k).len() <= m,
                forall|y: NodeId, k: int| #[trigger]
                    self.adj(node_id as int, k).contains(y) ==> self.adj(y as int, k).contains(
                        node_id,
                    ) || attached.adj(y as int, k).len() >= m,
                forall|y: NodeId, k: int|
                    y != node_id && (#[trigger] self.adj(y as int, k)).contains(node_id)
                        ==> self.adj(node_id as int, k).contains(y),
                forall|y: NodeId, k: int, x: NodeId|
                    y != node_id && attached.adj(y as int, k).len() < m && attached.adj(
                        y as int,
                        k,
                    ).contains(x) && attached.live(x as int) ==> #[trigger] self.adj(
                        y as int,
                        k,
                    ).contains(x),
                forall|k: int| #[trigger] self.adj(node_id as int, k).len() <= m,
                forall|k: int| #[trigger]
                    self.pairwise_diverse(metric, node_id, self.adj(node_id as int, k)),
                forall|k: int, x: NodeId| #[trigger]
                    self.adj(node_id as int, k).contains(x) ==> self.live(x as int),
                forall|i: int, k: int, x: NodeId|
                    i != node_id && #[trigger] self.adj(i, k).contains(x) ==> x == node_id
                        || attached.adj(i, k).contains(x),
                old_entry is Some ==> self.live(entry as int) && entry != node_id,
                l == 0 && m >= 1 && old_entry is Some ==> self.adj(node_id as int, 0).len() >= 1,
                self.live(node_id as int),
                self.vector(node_id as int) == vec@,
                self.uniform(dims),
                dims == vec@.len(),
                l <= level + 1,
                level + 1 == self.nodes@[node_id as int].links@.len(),
            decreases l,
        {
            l -= 1;
            let neigh = self.ef_search_idx(entry, self.vec_of(node_id), width, l, metric);
            // Leave out the new node itself.
            let mut cands: Vec<Candidate> = Vec::new();
            let mut t: usize = 0;
            while t < neigh.len()
                invariant
                    t <= neigh@.len(),
                    self.measured(metric, self.vector(node_id as int), neigh@),
                    self.measured(metric, self.vector(node_id as int), cands@),
                    forall|k: int| 0 <= k < cands@.len() ==> (#[trigger] cands@[k]).0 != node_id,
                    distinct_ids(neigh@),
                    distinct_ids(cands@),
                    forall|k: int|
                        0 <= k < cands@.len() ==> neigh@.take(t as int).contains(
                            #[trigger] cands@[k],
                        ),
                    cands@ == others(neigh@.take(t as int), node_id),
                decreases neigh@.len() - t,
            {
                let c = neigh[t];
                let ghost prev = cands@;
                proof {
                    assert(neigh@.take(t + 1) =~= neigh@.take(t as int).push(c));
                    assert(neigh@.take(t + 1).drop_last() =~= neigh@.take(t as int));
                    lemma_push_contains(neigh@.take(t as int), c);
                }
                if c.0 != node_id {
                    cands.push(c);
                    proof {
                        assert forall|a: int, b: int| 0 <= a < b < cands@.len() implies (
                        #[trigger] cands@[a]).0 != (#[trigger] cands@[b]).0 by {
                            if b < prev.len() {
                                assert(prev[a].0 != prev[b].0);
                            } else {
                                assert(neigh@.take(t as int).contains(prev[a]));
                                let w = choose|w: int|
                                    0 <= w < neigh@.take(t as int).len() && neigh@.take(
                                        t as int,
                                    )[w] == prev[a];
                                assert(neigh@[w].0 != neigh@[t as int].0);
                            }
                        }
                    }
                }
                proof {
                    assert forall|k: int| 0 <= k < cands@.len() implies neigh@.take(
                        t + 1,
                    ).contains(#[trigger] cands@[k]) by {
                        if k < prev.len() {
                            assert(neigh@.take(t as int).contains(prev[k]));
                        }
                    }
                }
                t += 1;
            }
            // Fall back on the entry point so that the node is not orphaned.
            if cands.len() == 0 && entry != node_id && self.is_valid_nid(entry) {
                proof {
                    self.lemma_uniform(entry as int, dims);
                    self.lemma_uniform(node_id as int, dims);
                }
                let d = measure(metric, self.vec_of(entry), self.vec_of(node_id));
                cands.push((entry, d));
            }
            proof {
                if old_entry is Some {
                    assert(cands@[0].0 != node_id);
                }
            }
            let ghost mid = *self;
            proof {
                assert(neigh@.take(neigh@.len() as int) =~= neigh@);
                assert(mid.proposed(metric, node_id, entry, neigh@, cands@));
            }
            self.connect(node_id, &cands, m, l, metric);
            proof {
                assert forall|k: int| l < k <= level implies #[trigger] self.laced(
                    &cleared,
                    metric,
                    k,
                    m,
                    ef,
                    entry,
                ) by {
                    self.lemma_laced_frame(&mid, &cleared, metric, k, m, ef, entry);
                }
                let (sel, src, chosen) = choose|
                    sel: Seq<NodeId>,
                    src: Seq<int>,
                    chosen: Seq<NodeId>,
                |
                    #[trigger] self.linked_by(
                        &mid,
                        metric,
                        node_id,
                        cands@,
                        m,
                        l as int,
                        sel,
                        src,
                        chosen,
                    );
                assert forall|i: int| #[trigger]
                    mid.adj(i, l as int) == cleared.adj(i, l as int) by {
                    assert(mid.adj(i, l as int) == attached.adj(i, l as int));
                }
                self.lemma_laced_intro(
                    &cleared,
                    &mid,
                    metric,
                    l as int,
                    m,
                    ef,
                    entry,
                    neigh@,
                    cands@,
                    sel,
                    src,
                    chosen,
                );
                assert forall|i: int, k: int| k < l || k > level implies #[trigger] self.adj(i, k)
                    == attached.adj(i, k) by {
                    assert(self.adj(i, k) == mid.adj(i, k));
                }
                assert forall|i: int, k: int| #[trigger]
                    attached.adj(i, k).len() <= m implies self.adj(i, k).len() <= m by {
                    if k == l {
                        assert(mid.adj(i, k) == attached.adj(i, k));
                    } else {
                        assert(self.adj(i, k) == mid.adj(i, k));
                    }
                }
                assert forall|y: NodeId, k: int| #[trigger]
                    self.adj(node_id as int, k).contains(y) implies self.adj(
                    y as int,
                    k,
                ).contains(node_id) || attached.adj(y as int, k).len() >= m by {
                    if k == l {
                        assert(mid.adj(node_id as int, k) == attached.adj(node_id as int, k));
                        assert(mid.adj(y as int, k) == attached.adj(y as int, k));
                        assert(mid.adj(node_id as int, k).len() == 0);
                        assert(!mid.adj(node_id as int, k).contains(y));
                        if y == node_id {
                            crate::laws::law_links_sound(self, node_id as int, k);
                            let w = choose|w: int|
                                0 <= w < self.adj(node_id as int, k).len() && self.adj(
                                    node_id as int,
                                    k,
                                )[w] == y;
                        }
                    } else {
                        assert(self.adj(node_id as int, k) == mid.adj(node_id as int, k));
                        assert(self.adj(y as int, k) == mid.adj(y as int, k));
                    }
                }
                assert forall|y: NodeId, k: int|
                    y != node_id && (#[trigger] self.adj(y as int, k)).contains(node_id)
                        implies self.adj(node_id as int, k).contains(y) by {
                    if k == l {
                        assert(mid.adj(node_id as int, k) == attached.adj(node_id as int, k));
                        assert(mid.adj(y as int, k) == attached.adj(y as int, k));
                        assert(!attached.adj(y as int, k).contains(node_id));
                    } else {
                        assert(self.adj(node_id as int, k) == mid.adj(node_id as int, k));
                        assert(self.adj(y as int, k) == mid.adj(y as int, k));
                    }
                }
                assert forall|y: NodeId, k: int, x: NodeId|
                    y != node_id && attached.adj(y as int, k).len() < m && attached.adj(
                        y as int,
                        k,
                    ).contains(x) && attached.live(x as int) implies #[trigger] self.adj(
                    y as int,
                    k,
                ).contains(x) by {
                    if k == l {
                        assert(mid.adj(y as int, k) == attached.adj(y as int, k));
                        assert(mid.live(x as int) == attached.live(x as int));
                    } else {
                        assert(self.adj(y as int, k) == mid.adj(y as int, k));
                    }
                }
                assert forall|k: int| #[trigger]
                    self.pairwise_diverse(metric, node_id, self.adj(node_id as int, k)) by {
                    if k != l {
                        let list = mid.adj(node_id as int, k);
                        assert(mid.pairwise_diverse(metric, node_id, list));
                        assert forall|a: NodeId, b: NodeId|
                            #![trigger list.contains(a), list.contains(b)]
                            list.contains(a) && list.contains(b) && a != b implies closer(
                            metric,
                            self.vector(a as int),
                            self.vector(node_id as int),
                            self.vector(a as int),
                            self.vector(b as int),
                        ) || closer(
                            metric,
                            self.vector(b as int),
                            self.vector(node_id as int),
                            self.vector(b as int),
                            self.vector(a as int),
                        ) by {
                            assert(self.entries()[a as int] == mid.entries()[a as int]);
                            assert(self.entries()[b as int] == mid.entries()[b as int]);
                        }
                    }
                }
            }
        }
        proof {
            assert(self.placed(&cleared, ext_id, vec@, now, level));
            assert(self.meshed(&cleared, m)) by {
                assert forall|y: NodeId, l: int, x: NodeId|
                    y != node_id && cleared.adj(y as int, l).len() < m && cleared.adj(
                        y as int,
                        l,
                    ).contains(x) && cleared.live(x as int) implies #[trigger] self.adj(
                    y as int,
                    l,
                ).contains(x) by {
                    assert(attached.adj(y as int, l) == cleared.adj(y as int, l));
                    crate::laws::law_links_sound(&cleared, y as int, l);
                    assert(attached.live(x as int));
                }
            }
            assert(self.wired(&cleared, metric, level, m)) by {
                assert forall|i: int, l: int, x: NodeId|
                    i != node_id && #[trigger] self.adj(i, l).contains(x) implies x == node_id
                    || cleared.adj(i, l).contains(x) by {
                    if x != node_id {
                        assert(attached.adj(i, l).contains(x));
                    }
                }
            }
            if old_entry is Some {
                self.lemma_descended_frame(
                    &attached,
                    metric,
                    vec@,
                    old_max as int,
                    level as int,
                    first,
                    entry,
                );
            }
            assert(self.threaded(&cleared, metric, level, m, ef, entry));
            assert(self.added(&cleared, metric, ext_id, vec@, now, level, m, ef));
            if old(self)@.contains_key(ext_id) {
                assert(cleared.deleted(old(self), ext_id) && cleared.wf());
            }
        }
    }

    /// Inserts `vec` under `ext_id`, replacing a vector already stored under
    /// that id. The node's top layer is drawn at random and its access time
    /// is read from the clock.
    #[verifier::spinoff_prover]
    pub fn add<M: Metric>(&mut self, vec: Vec<u32>, ext_id: u64, metric: &M, m: usize, ef: usize)
        requires
            old(self).wf(),
            old(self).uniform(vec@.len()),
            m >= 2,
        ensures
            final(self).wf(),
            final(self).uniform(vec@.len()),
            exists|now: u64|
                final(self)@ == #[trigger] old(self)@.insert(
                    ext_id,
                    Entry { vector: vec@, last_hit: now },
                ),
            final(self).count() == old(self).count() + (if old(self)@.contains_key(ext_id) {
                0int
            } else {
                1int
            }),
            final(self).slot_count() == old(self).slot_count() + 1,
            old(self).clean() && !old(self)@.contains_key(ext_id) ==> final(self).clean(),
            old(self).clean() && old(self)@.contains_key(ext_id) && old(self).linked_back(
                old(self).ext_map()[ext_id] as int,
            ) ==> final(self).clean(),
            old(self).clean() && old(self)@.contains_key(ext_id) ==> final(self).tidy(
                old(self).ext_map()[ext_id] as int,
            ),
            exists|level: usize| #[trigger] final(self).wired(old(self), metric, level, m),
            exists|level: usize, now: u64| #[trigger]
                final(self).inserted(old(self), metric, ext_id, vec@, now, level, m, ef),
            final(self).ext_map() == old(self).ext_map().insert(
                ext_id,
                old(self).slot_count() as NodeId,
            ),
            final(self).older_kept(old(self), ext_id),
            old(self)@.contains_key(ext_id) ==> !final(self).live(
                old(self).ext_map()[ext_id] as int,
            ),
            final(self).spec_max_level() >= old(self).spec_max_level(),
            !old(self)@.contains_key(ext_id) ==> final(self).spec_entry() == (match old(
                self,
            ).spec_entry() {
                Some(e) => Some(e),
                None => Some(old(self).slot_count() as NodeId),
            }),
            forall|i: int, l: int| #[trigger]
                old(self).adj(i, l).len() <= m ==> final(self).adj(i, l).len() <= m,
    {
        let level = draw_level(m);
        let now = unix_now();
        let ghost v = vec@;
        self.add_with(vec, ext_id, metric, m, ef, level, now);
        proof {
            assert(self.wired(old(self), metric, level, m));
            assert(self.inserted(old(self), metric, ext_id, v, now, level, m, ef));
            assert(self.older_kept(old(self), ext_id));
        }
    }
}

} // verus!
