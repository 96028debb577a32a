//! Greedy descent, beam search within one layer, and the k-nearest query.

use crate::beam::{
    ascending, before, descending, distinct_ids, has_id, insert_ascending, insert_descending,
    lemma_insert_keeps, Candidate,
};
use crate::graph::{lemma_live_count_zero, Graph};
use crate::math::{dist_rank, measure, measures, no_farther, rank, Metric};
use crate::node::NodeId;
use std::collections::HashSet;
use vstd::prelude::*;

verus! {

/// A finite set of ids below `n` has at most `n` members.
pub proof fn lemma_bounded_set_len(s: Set<NodeId>, n: nat)
    requires
        s.finite(),
        forall|x: NodeId| s.contains(x) ==> x < n,
    ensures
        s.len() <= n,
    decreases n,
{
    if n == 0 {
        assert(s =~= Set::empty());
    } else {
        let top = (n - 1) as NodeId;
        if n - 1 <= usize::MAX && s.contains(top) {
            lemma_bounded_set_len(s.remove(top), (n - 1) as nat);
        } else {
            lemma_bounded_set_len(s, (n - 1) as nat);
        }
    }
}

/// A search hit: an external id and its measured distance to the query.
pub type Hit = (u64, u32);

/// Closest first.
pub open spec fn hits_ascending(hits: Seq<Hit>) -> bool {
    forall|i: int, j: int|
        0 <= i < j < hits.len() ==> rank((#[trigger] hits[i]).1) <= rank((#[trigger] hits[j]).1)
}

/// Some hit names the external id `e`.
pub open spec fn names(hits: Seq<Hit>, e: u64) -> bool {
    exists|i: int| 0 <= i < hits.len() && (#[trigger] hits[i]).0 == e
}

/// No external id occurs in two hits.
pub open spec fn hits_distinct(hits: Seq<Hit>) -> bool {
    forall|i: int, j: int| 0 <= i < j < hits.len()
        ==> (#[trigger] hits[i]).0 != (#[trigger] hits[j]).0
}

impl Graph {
    /// No live neighbour of `r` on `layer` was measured strictly closer to
    /// the query than `r` itself.
    pub open(crate) spec fn settled<M: Metric>(
        &self,
        metric: &M,
        r: NodeId,
        query: Seq<u32>,
        layer: int,
    ) -> bool {
        forall|j: int|
            0 <= j < self.adj(r as int, layer).len() && self.live(
                #[trigger] self.adj(r as int, layer)[j] as int,
            ) ==> no_farther(
                metric,
                self.vector(r as int),
                query,
                self.vector(self.adj(r as int, layer)[j] as int),
                query,
            )
    }

    /// `r` is where a greedy walk from the live node `start` towards `query`
    /// on `layer` may end: a live node that `start` reaches, that was
    /// measured no farther from the query than `start`, and that has no
    /// live neighbour measured strictly closer.
    pub open(crate) spec fn walked<M: Metric>(
        &self,
        metric: &M,
        query: Seq<u32>,
        layer: int,
        start: NodeId,
        r: NodeId,
    ) -> bool {
        &&& self.live(start as int)
        &&& self.live(r as int)
        &&& self.reaches(layer, start, r)
        &&& self.settled(metric, r, query, layer)
        &&& r == start || no_farther(metric, self.vector(r as int), query, self.vector(
            start as int,
        ), query)
    }

    /// `eps` is a descent from layer `top`: each node is where a greedy walk
    /// from the one before may end, on the next lower layer each time.
    pub open(crate) spec fn descent<M: Metric>(
        &self,
        metric: &M,
        query: Seq<u32>,
        top: int,
        eps: Seq<NodeId>,
    ) -> bool {
        forall|k: int|
            0 <= k < eps.len() - 1 ==> self.walked(
                metric,
                query,
                top - k,
                #[trigger] eps[k],
                eps[k + 1],
            )
    }

    /// `to` is where a greedy descent from `from`, through the layers from
    /// `top` down to the one above `floor`, may end; `from` itself if there
    /// is no such layer.
    pub open(crate) spec fn descended<M: Metric>(
        &self,
        metric: &M,
        query: Seq<u32>,
        top: int,
        floor: int,
        from: NodeId,
        to: NodeId,
    ) -> bool {
        if top <= floor {
            to == from
        } else {
            exists|eps: Seq<NodeId>| #[trigger]
                self.descent(metric, query, top, eps) && eps.len() == top - floor + 1
                    && eps.first() == from && eps.last() == to
        }
    }

    /// A walk in `other` is a walk in a graph with the same frame and the
    /// same adjacency on the layer.
    pub(crate) proof fn lemma_walked_frame<M: Metric>(
        &self,
        other: &Graph,
        metric: &M,
        query: Seq<u32>,
        layer: int,
        start: NodeId,
        r: NodeId,
    )
        requires
            other.walked(metric, query, layer, start, r),
            self.same_frame(other),
            forall|i: int| #[trigger] self.adj(i, layer) == other.adj(i, layer),
        ensures
            self.walked(metric, query, layer, start, r),
    {
        let path = choose|path: Seq<NodeId>| #[trigger]
            other.path_on(layer, path) && path.first() == start && path.last() == r;
        assert(self.path_on(layer, path)) by {
            assert forall|k: int| 0 <= k < path.len() implies self.live(
                #[trigger] path[k] as int,
            ) by {
                assert(other.live(path[k] as int));
            }
            assert forall|k: int| 0 <= k < path.len() - 1 implies self.adj(
                #[trigger] path[k] as int,
                layer,
            ).contains(path[k + 1]) by {
                assert(other.adj(path[k] as int, layer).contains(path[k + 1]));
            }
        }
        assert(self.entries()[r as int] == other.entries()[r as int]);
        assert(self.entries()[start as int] == other.entries()[start as int]);
        assert(self.settled(metric, r, query, layer)) by {
            assert forall|j: int|
                0 <= j < self.adj(r as int, layer).len() && self.live(
                    #[trigger] self.adj(r as int, layer)[j] as int,
                ) implies no_farther(
                metric,
                self.vector(r as int),
                query,
                self.vector(self.adj(r as int, layer)[j] as int),
                query,
            ) by {
                let x = other.adj(r as int, layer)[j];
                assert(other.live(x as int));
                assert(self.entries()[x as int] == other.entries()[x as int]);
            }
        }
    }

    /// A descent in `other` is a descent in a graph with the same frame and
    /// the same adjacency above `floor`.
    pub(crate) proof fn lemma_descended_frame<M: Metric>(
        &self,
        other: &Graph,
        metric: &M,
        query: Seq<u32>,
        top: int,
        floor: int,
        from: NodeId,
        to: NodeId,
    )
        requires
            other.descended(metric, query, top, floor, from, to),
            self.same_frame(other),
            forall|i: int, l: int| l > floor ==> #[trigger] self.adj(i, l) == other.adj(i, l),
        ensures
            self.descended(metric, query, top, floor, from, to),
    {
        if top > floor {
            let eps = choose|eps: Seq<NodeId>| #[trigger]
                other.descent(metric, query, top, eps) && eps.len() == top - floor + 1
                    && eps.first() == from && eps.last() == to;
            assert forall|k: int| 0 <= k < eps.len() - 1 implies self.walked(
                metric,
                query,
                top - k,
                #[trigger] eps[k],
                eps[k + 1],
            ) by {
                self.lemma_walked_frame(other, metric, query, top - k, eps[k], eps[k + 1]);
            }
            assert(self.descent(metric, query, top, eps));
        }
    }

    /// A descent goes on by one walk on the next lower layer.
    pub(crate) proof fn lemma_descent_step<M: Metric>(
        &self,
        metric: &M,
        query: Seq<u32>,
        top: int,
        eps: Seq<NodeId>,
        next: NodeId,
    )
        requires
            eps.len() >= 1,
            self.descent(metric, query, top, eps),
            self.walked(metric, query, top - (eps.len() - 1), eps.last(), next),
        ensures
            self.descent(metric, query, top, eps.push(next)),
    {
        let longer = eps.push(next);
        assert forall|k: int| 0 <= k < longer.len() - 1 implies self.walked(
            metric,
            query,
            top - k,
            #[trigger] longer[k],
            longer[k + 1],
        ) by {
            if k < eps.len() - 1 {
                assert(self.walked(metric, query, top - k, eps[k], eps[k + 1]));
            }
        }
    }

    /// Walks from `start` along `layer`, moving to a neighbour whenever it is
    /// strictly closer to the query, until no neighbour is.
    pub(crate) fn greedy_idx<M: Metric>(
        &self,
        start: NodeId,
        q: &[u32],
        layer: usize,
        metric: &M,
    ) -> (r: NodeId)
        requires
            self.wf(),
            self.uniform(q@.len()),
        ensures
            self.live(r as int) == self.live(start as int),
            !self.live(start as int) ==> r == start,
            self.live(start as int) ==> self.settled(metric, r, q@, layer as int),
            self.live(start as int) ==> r == start || no_farther(
                metric,
                self.vector(r as int),
                q@,
                self.vector(start as int),
                q@,
            ),
            r == start || exists|i: int| #[trigger] self.adj(i, layer as int).contains(r),
            self.live(start as int) ==> self.walked(metric, q@, layer as int, start, r),
    {
        if !self.is_valid_nid(start) || self.neighbors(start, layer).len() == 0 {
            proof {
                if self.live(start as int) {
                    self.lemma_reaches_itself(layer as int, start);
                }
            }
            return start;
        }
        let mut curr = start;
        let mut best = measure(metric, self.vec_of(curr), q);
        let ghost first = best;
        let mut done = false;
        proof {
            self.lemma_reaches_itself(layer as int, start);
        }
        while !done
            invariant
                self.wf(),
                self.uniform(q@.len()),
                self.live(curr as int),
                self.live(start as int),
                measures(metric, self.vector(curr as int), q@, best),
                measures(metric, self.vector(start as int), q@, first),
                rank(best) <= rank(first),
                done ==> self.settled(metric, curr, q@, layer as int),
                curr == start || exists|i: int| #[trigger] self.adj(i, layer as int).contains(curr),
                self.reaches(layer as int, start, curr),
            decreases rank(best), (if done { 0int } else { 1int }),
        {
            let neigh = self.neighbors(curr, layer);
            let ghost from = curr;
            let ghost from_best = best;
            let mut improved = false;
            let mut j: usize = 0;
            while j < neigh.len()
                invariant
                    self.wf(),
                    self.uniform(q@.len()),
                    self.live(curr as int),
                    self.live(from as int),
                    neigh@ == self.adj(from as int, layer as int),
                    j <= neigh@.len(),
                    measures(metric, self.vector(curr as int), q@, best),
                    measures(metric, self.vector(from as int), q@, from_best),
                    rank(best) <= rank(from_best),
                    improved ==> rank(best) < rank(from_best),
                    !improved ==> curr == from && best == from_best,
                    improved ==> neigh@.contains(curr),
                    !improved ==> forall|k: int|
                        0 <= k < j && self.live(#[trigger] neigh@[k] as int) ==> no_farther(
                            metric,
                            self.vector(from as int),
                            q@,
                            self.vector(neigh@[k] as int),
                            q@,
                        ),
                decreases neigh@.len() - j,
            {
                let nb = neigh[j];
                if self.is_valid_nid(nb) {
                    let d = measure(metric, self.vec_of(nb), q);
                    if dist_rank(d) < dist_rank(best) {
                        curr = nb;
                        best = d;
                        improved = true;
                    }
                }
                j += 1;
            }
            if !improved {
                done = true;
            } else {
                proof {
                    assert(self.adj(from as int, layer as int).contains(curr));
                    self.lemma_reaches_neighbour(layer as int, start, from, curr);
                }
            }
        }
        curr
    }

    /// Greedy descent towards the vector of node `target`.
    pub(crate) fn greedy<M: Metric>(
        &self,
        start: NodeId,
        target: NodeId,
        layer: usize,
        metric: &M,
    ) -> (r: NodeId)
        requires
            self.wf(),
            self.live(target as int),
            self.uniform(self.vector(target as int).len()),
        ensures
            self.live(r as int) == self.live(start as int),
            !self.live(start as int) ==> r == start,
            self.live(start as int) ==> self.settled(
                metric,
                r,
                self.vector(target as int),
                layer as int,
            ),
            r == start || exists|i: int| #[trigger] self.adj(i, layer as int).contains(r),
            self.live(start as int) ==> self.walked(
                metric,
                self.vector(target as int),
                layer as int,
                start,
                r,
            ),
    {
        self.greedy_idx(start, self.vec_of(target), layer, metric)
    }
}

/// Taking the last candidate away keeps every other id.
pub proof fn lemma_drop_last_keeps(s: Seq<Candidate>, id: NodeId)
    requires
        s.len() >= 1,
        has_id(s, id),
        id != s.last().0,
    ensures
        has_id(s.drop_last(), id),
{
    let k = choose|k: int| 0 <= k < s.len() && (#[trigger] s[k]).0 == id;
    assert(s.drop_last()[k].0 == id);
}

impl Graph {
    /// Every candidate is a live node with a distance the metric returned for
    /// its vector and the query.
    pub open(crate) spec fn measured<M: Metric>(
        &self,
        metric: &M,
        query: Seq<u32>,
        list: Seq<Candidate>,
    ) -> bool {
        forall|i: int|
            0 <= i < list.len() ==> self.live((#[trigger] list[i]).0 as int) && measures(
                metric,
                self.vector(list[i].0 as int),
                query,
                list[i].1,
            )
    }

    /// Every live neighbour of `v` on `layer` is in `seen`.
    pub open(crate) spec fn expanded(&self, layer: int, v: NodeId, seen: Set<NodeId>) -> bool {
        forall|k: int|
            0 <= k < self.adj(v as int, layer).len() && self.live(
                #[trigger] self.adj(v as int, layer)[k] as int,
            ) ==> seen.contains(self.adj(v as int, layer)[k])
    }

    /// Some measurement of `v` against the query ranks no better than
    /// `worst`.
    pub open(crate) spec fn outranked<M: Metric>(
        &self,
        metric: &M,
        query: Seq<u32>,
        v: NodeId,
        worst: u32,
    ) -> bool {
        exists|d: u32| #[trigger] measures(metric, self.vector(v as int), query, d)
            && rank(d) >= worst
    }

    /// `path` walks along live nodes, each linked to the next on `layer`.
    pub open(crate) spec fn path_on(&self, layer: int, path: Seq<NodeId>) -> bool {
        &&& path.len() >= 1
        &&& forall|k: int| 0 <= k < path.len() ==> self.live(#[trigger] path[k] as int)
        &&& forall|k: int|
            0 <= k < path.len() - 1 ==> self.adj(#[trigger] path[k] as int, layer).contains(
                path[k + 1],
            )
    }

    /// `to` can be reached from `from` along live nodes on `layer`.
    pub open(crate) spec fn reaches(&self, layer: int, from: NodeId, to: NodeId) -> bool {
        exists|path: Seq<NodeId>| #[trigger]
            self.path_on(layer, path) && path.first() == from && path.last() == to
    }

    /// A live node reaches itself.
    pub proof fn lemma_reaches_itself(&self, layer: int, a: NodeId)
        requires
            self.live(a as int),
        ensures
            self.reaches(layer, a, a),
    {
        let path = seq![a];
        assert(self.path_on(layer, path) && path.first() == a && path.last() == a);
    }

    /// What reaches a node reaches its live neighbours.
    pub proof fn lemma_reaches_neighbour(&self, layer: int, a: NodeId, b: NodeId, c: NodeId)
        requires
            self.reaches(layer, a, b),
            self.adj(b as int, layer).contains(c),
            self.live(c as int),
        ensures
            self.reaches(layer, a, c),
    {
        let path = choose|path: Seq<NodeId>| #[trigger]
            self.path_on(layer, path) && path.first() == a && path.last() == b;
        let longer = path.push(c);
        assert(self.path_on(layer, longer)) by {
            assert forall|k: int| 0 <= k < longer.len() implies self.live(
                #[trigger] longer[k] as int,
            ) by {
                if k < path.len() {}
            }
            assert forall|k: int| 0 <= k < longer.len() - 1 implies self.adj(
                #[trigger] longer[k] as int,
                layer,
            ).contains(longer[k + 1]) by {
                if k < path.len() - 1 {}
            }
        }
    }

    /// A set that holds the start of a path and, with each node, its live
    /// neighbours, holds the end of the path.
    pub proof fn lemma_closed_holds_path(&self, layer: int, seen: Set<NodeId>, path: Seq<NodeId>)
        requires
            self.path_on(layer, path),
            seen.contains(path.first()),
            forall|v: NodeId| seen.contains(v) ==> #[trigger] self.expanded(layer, v, seen),
        ensures
            seen.contains(path.last()),
        decreases path.len(),
    {
        if path.len() > 1 {
            let shorter = path.drop_last();
            assert(self.path_on(layer, shorter)) by {
                assert forall|k: int| 0 <= k < shorter.len() implies self.live(
                    #[trigger] shorter[k] as int,
                ) by {
                    assert(self.live(path[k] as int));
                }
            }
            self.lemma_closed_holds_path(layer, seen, shorter);
            let v = shorter.last();
            assert(self.expanded(layer, v, seen));
            assert(self.adj(path[path.len() - 2] as int, layer).contains(path[path.len() - 1]));
            let k = choose|k: int|
                0 <= k < self.adj(v as int, layer).len() && self.adj(v as int, layer)[k]
                    == path.last();
            assert(self.live(path[path.len() - 1] as int));
        }
    }

    /// The beam is settled: each live neighbour of a result is a result
    /// itself or was measured no closer than the farthest result.
    pub open(crate) spec fn beam_settled<M: Metric>(
        &self,
        metric: &M,
        query: Seq<u32>,
        layer: int,
        top: Seq<Candidate>,
    ) -> bool {
        forall|i: int, k: int|
            0 <= i < top.len() && 0 <= k < self.adj(top[i].0 as int, layer).len() && self.live(
                #[trigger] self.adj((#[trigger] top[i]).0 as int, layer)[k] as int,
            ) ==> has_id(top, self.adj(top[i].0 as int, layer)[k]) || self.outranked(
                metric,
                query,
                self.adj(top[i].0 as int, layer)[k],
                rank(top.last().1),
            )
    }

    /// Every node of the beam can be reached from `entry`.
    pub open(crate) spec fn beam_reached(
        &self,
        layer: int,
        entry: NodeId,
        top: Seq<Candidate>,
    ) -> bool {
        forall|i: int| 0 <= i < top.len() ==> self.reaches(layer, entry, (#[trigger] top[i]).0)
    }

    /// The beam holds every node that can be reached from `entry`.
    pub open(crate) spec fn beam_complete(&self, layer: int, entry: NodeId,
        top: Seq<Candidate>) -> bool {
        forall|b: NodeId| #[trigger] self.reaches(layer, entry, b) ==> has_id(top, b)
    }

    /// `top` is what a beam search of width `ef` from the live node `entry`
    /// for `query` on `layer` may return: at least one and at most `ef`
    /// live nodes (one, if `ef` is zero), each once, with measured
    /// distances, closest first; all of them reached from `entry`; settled;
    /// and, if fewer than `ef`, everything that `entry` reaches.
    pub open(crate) spec fn searched<M: Metric>(
        &self,
        metric: &M,
        query: Seq<u32>,
        layer: int,
        ef: usize,
        entry: NodeId,
        top: Seq<Candidate>,
    ) -> bool {
        &&& self.live(entry as int)
        &&& 1 <= top.len()
        &&& top.len() <= ef || top.len() == 1
        &&& self.measured(metric, query, top)
        &&& distinct_ids(top)
        &&& ascending(top)
        &&& self.beam_settled(metric, query, layer, top)
        &&& self.beam_reached(layer, entry, top)
        &&& top.len() < ef ==> self.beam_complete(layer, entry, top)
    }

    /// Beam search on one layer. Starting from `entry`, it expands the
    /// closest unexpanded candidate until none is left: each live neighbour
    /// that was not seen before is measured and, if the beam holds fewer than
    /// `ef` nodes or the neighbour is closer than the farthest of them, it
    /// joins the candidates and the beam, which then drops its farthest node
    /// if it holds more than `ef`. The result is the beam, closest first.
    pub(crate) fn ef_search_idx<M: Metric>(
        &self,
        entry: NodeId,
        query: &[u32],
        ef: usize,
        layer: usize,
        metric: &M,
    ) -> (top: Vec<Candidate>)
        requires
            self.wf(),
            self.uniform(query@.len()),
        ensures
            !self.live(entry as int) ==> top@.len() == 0,
            self.live(entry as int) ==> 1 <= top@.len() && (top@.len() <= ef || top@.len() == 1),
            self.measured(metric, query@, top@),
            distinct_ids(top@),
            ascending(top@),
            self.beam_settled(metric, query@, layer as int, top@),
            self.beam_reached(layer as int, entry, top@),
            self.live(entry as int) && top@.len() < ef ==> self.beam_complete(
                layer as int,
                entry,
                top@,
            ),
            self.live(entry as int) ==> self.searched(
                metric,
                query@,
                layer as int,
                ef,
                entry,
                top@,
            ),
    {
        let mut top: Vec<Candidate> = Vec::new();
        if !self.is_valid_nid(entry) {
            return top;
        }
        let n = self.nodes.len();
        let mut visited: HashSet<NodeId> = HashSet::new();
        let mut frontier: Vec<Candidate> = Vec::new();
        let d0 = measure(metric, self.vec_of(entry), query);
        visited.insert(entry);
        top.push((entry, d0));
        frontier.push((entry, d0));
        proof {
            lemma_bounded_set_len(visited@, n as nat);
            assert(top@[0].0 == entry);
            self.lemma_reaches_itself(layer as int, entry);
        }
        while frontier.len() > 0
            invariant
                self.wf(),
                self.uniform(query@.len()),
                n == self.nodes@.len(),
                visited@.finite(),
                visited@.contains(entry),
                forall|x: NodeId| visited@.contains(x) ==> x < n,
                forall|x: NodeId| visited@.contains(x) ==> #[trigger] self.reaches(
                    layer as int,
                    entry,
                    x,
                ),
                visited@.len() <= n,
                self.measured(metric, query@, top@),
                forall|i: int| 0 <= i < top@.len() ==> visited@.contains((#[trigger] top@[i]).0),
                forall|i: int| 0 <= i < frontier@.len()
                    ==> visited@.contains((#[trigger] frontier@[i]).0),
                distinct_ids(top@),
                ascending(top@),
                descending(frontier@),
                1 <= top@.len(),
                top@.len() <= ef || top@.len() == 1,
                // Nothing was turned away while the beam was not full.
                top@.len() < ef ==> forall|v: NodeId| visited@.contains(v) ==> has_id(top@, v),
                // What was seen is in the beam or no closer than its farthest node.
                forall|v: NodeId|
                    visited@.contains(v) ==> has_id(top@, v) || #[trigger] self.outranked(
                        metric,
                        query@,
                        v,
                        rank(top@.last().1),
                    ),
                // What is in the beam is still a candidate or was expanded.
                forall|v: NodeId|
                    has_id(top@, v) ==> has_id(frontier@, v) || #[trigger] self.expanded(
                        layer as int,
                        v,
                        visited@,
                    ),
            decreases 2 * (n - visited@.len()) + frontier@.len(),
        {
            let ghost budget = 2 * (n - visited@.len()) + frontier@.len();
            let ghost old_frontier = frontier@;
            let curr = match frontier.pop() {
                Some(c) => c.0,
                None => entry,
            };
            proof {
                assert(curr == old_frontier.last().0);
                assert forall|v: NodeId| has_id(top@, v) && v != curr implies has_id(frontier@, v)
                    || #[trigger] self.expanded(layer as int, v, visited@) by {
                    if has_id(old_frontier, v) {
                        lemma_drop_last_keeps(old_frontier, v);
                    }
                }
            }
            let neighs = self.neighbors(curr, layer);
            let mut j: usize = 0;
            while j < neighs.len()
                invariant
                    self.wf(),
                    self.uniform(query@.len()),
                    n == self.nodes@.len(),
                    neighs@ == self.adj(curr as int, layer as int),
                    j <= neighs@.len(),
                    visited@.finite(),
                    visited@.contains(entry),
                    self.reaches(layer as int, entry, curr),
                    forall|x: NodeId| visited@.contains(x) ==> x < n,
                    forall|x: NodeId| visited@.contains(x) ==> #[trigger] self.reaches(
                        layer as int,
                        entry,
                        x,
                    ),
                    visited@.len() <= n,
                    self.measured(metric, query@, top@),
                    forall|i: int|
                        0 <= i < top@.len() ==> visited@.contains((#[trigger] top@[i]).0),
                    forall|i: int|
                        0 <= i < frontier@.len() ==> visited@.contains((#[trigger] frontier@[i]).0),
                    distinct_ids(top@),
                    ascending(top@),
                    descending(frontier@),
                    1 <= top@.len(),
                    top@.len() <= ef || top@.len() == 1,
                    2 * (n - visited@.len()) + frontier@.len() < budget,
                    top@.len() < ef ==> forall|v: NodeId| visited@.contains(v) ==> has_id(top@, v),
                    forall|v: NodeId|
                        visited@.contains(v) ==> has_id(top@, v) || #[trigger] self.outranked(
                            metric,
                            query@,
                            v,
                            rank(top@.last().1),
                        ),
                    forall|v: NodeId|
                        has_id(top@, v) && v != curr
                            ==> has_id(frontier@, v) || #[trigger] self.expanded(
                            layer as int,
                            v,
                            visited@,
                        ),
                    forall|k: int|
                        0 <= k < j && self.live(#[trigger] neighs@[k] as int) ==> visited@.contains(
                            neighs@[k],
                        ),
                decreases neighs@.len() - j,
            {
                let nb = neighs[j];
                if self.is_valid_nid(nb) {
                    let ghost seen_before = visited@;
                    let fresh = visited.insert(nb);
                    proof {
                        assert(self.adj(curr as int, layer as int).contains(neighs@[j as int]));
                        self.lemma_reaches_neighbour(layer as int, entry, curr, nb);
                        assert forall|v: NodeId| #[trigger]
                            self.expanded(layer as int, v, seen_before) implies self.expanded(
                            layer as int,
                            v,
                            visited@,
                        ) by {}
                    }
                    if fresh {
                        proof {
                            lemma_bounded_set_len(visited@, n as nat);
                            assert(!has_id(top@, nb)) by {
                                if has_id(top@, nb) {
                                    let k = choose|k: int|
                                        0 <= k < top@.len() && (#[trigger] top@[k]).0 == nb;
                                }
                            }
                        }
                        let d = measure(metric, self.vec_of(nb), query);
                        let worst = dist_rank(top[top.len() - 1].1);
                        if top.len() < ef || dist_rank(d) < worst {
                            let ghost frontier_before = frontier@;
                            let fpos = insert_descending(&mut frontier, (nb, d));
                            let ghost top_before = top@;
                            let pos = insert_ascending(&mut top, (nb, d));
                            let ghost grown = top@;
                            proof {
                                lemma_insert_keeps(frontier_before, fpos as int, (nb, d));
                                lemma_insert_keeps(top_before, pos as int, (nb, d));
                                assert forall|v: NodeId| has_id(frontier_before, v) implies has_id(
                                    frontier@,
                                    v,
                                ) by {}
                                assert forall|i: int| 0 <= i < top@.len() implies self.live(
                                    (#[trigger] top@[i]).0 as int,
                                ) && measures(
                                    metric,
                                    self.vector(top@[i].0 as int),
                                    query@,
                                    top@[i].1,
                                ) && visited@.contains(top@[i].0) by {
                                    if i < pos {
                                        assert(top@[i] == top_before[i]);
                                    } else if i > pos {}
                                }
                            }
                            if top.len() > ef {
                                top.pop();
                                proof {
                                    // The beam was full: the newcomer is closer than the old
                                    // farthest node, so that node is the one that leaves.
                                    let w = top_before.last();
                                    if pos == top_before.len() {
                                        assert(grown[pos as int] == (nb, d));
                                    }
                                    assert(!before(w, top@.last()));
                                    assert(measures(metric, self.vector(w.0 as int), query@, w.1));
                                    assert forall|v: NodeId| has_id(top@, v)
                                        implies has_id(grown, v) by {
                                        let k = choose|k: int|
                                            0 <= k < top@.len() && (#[trigger] top@[k]).0 == v;
                                    }
                                    assert forall|v: NodeId| has_id(grown, v) && v != w.0
                                        implies has_id(
                                        top@,
                                        v,
                                    ) by {
                                        lemma_drop_last_keeps(grown, v);
                                    }
                                    assert forall|v: NodeId| visited@.contains(v)
                                        implies has_id(top@, v)
                                        || #[trigger] self.outranked(
                                        metric,
                                        query@,
                                        v,
                                        rank(top@.last().1),
                                    ) by {
                                        if v == w.0 {
                                            assert(measures(metric, self.vector(v as int), query@,
                                                w.1));
                                        } else if v != nb {
                                            if !has_id(top_before, v) {
                                                assert(self.outranked(
                                                    metric,
                                                    query@,
                                                    v,
                                                    rank(top_before.last().1),
                                                ));
                                                let dv = choose|dv: u32| #[trigger]
                                                    measures(metric, self.vector(v as int),
                                                        query@, dv)
                                                        && rank(dv) >= rank(top_before.last().1);
                                            }
                                        }
                                    }
                                    assert(distinct_ids(top@)) by {
                                        assert forall|a: int, b: int| 0 <= a < b < top@.len()
                                            implies (
                                        #[trigger] top@[a]).0 != (#[trigger] top@[b]).0 by {
                                            assert(grown[a].0 != grown[b].0);
                                        }
                                    }
                                    assert(ascending(top@));
                                }
                            }
                            proof {
                                assert forall|v: NodeId| has_id(top@, v) && v != curr
                                    implies has_id(
                                    frontier@,
                                    v,
                                ) || #[trigger] self.expanded(layer as int, v, visited@) by {
                                    if v != nb {
                                        let k = choose|k: int|
                                            0 <= k < top@.len() && (#[trigger] top@[k]).0 == v;
                                        if !has_id(frontier_before, v) {
                                            assert(self.expanded(layer as int, v, seen_before));
                                        }
                                    }
                                }
                            }
                        } else {
                            proof {
                                // Turned away: the beam is full and the newcomer is no closer
                                // than its farthest node.
                                assert(measures(metric, self.vector(nb as int), query@, d)
                                    && rank(d)
                                    >= rank(top@.last().1));
                                assert forall|v: NodeId|
                                    has_id(top@, v) && v != curr implies has_id(frontier@, v)
                                    || #[trigger] self.expanded(layer as int, v, visited@) by {
                                    if !has_id(frontier@, v) {
                                        assert(self.expanded(layer as int, v, seen_before));
                                    }
                                }
                            }
                        }
                    } else {
                        proof {
                            assert(visited@ =~= seen_before);
                        }
                    }
                }
                j += 1;
            }
        }
        proof {
            assert forall|v: NodeId| has_id(top@, v) implies #[trigger] self.expanded(
                layer as int,
                v,
                visited@,
            ) by {
                if has_id(frontier@, v) {
                    let k = choose|k: int| 0 <= k < frontier@.len()
                        && (#[trigger] frontier@[k]).0 == v;
                }
            }
            assert forall|i: int, k: int|
                0 <= i < top@.len() && 0 <= k < self.adj(top@[i].0 as int, layer as int).len()
                    && self.live(
                    #[trigger] self.adj((#[trigger] top@[i]).0 as int, layer as int)[k] as int,
                ) implies has_id(top@, self.adj(top@[i].0 as int, layer as int)[k])
                    || self.outranked(
                metric,
                query@,
                self.adj(top@[i].0 as int, layer as int)[k],
                rank(top@.last().1),
            ) by {
                let v = top@[i].0;
                assert(has_id(top@, v));
                assert(self.expanded(layer as int, v, visited@));
                assert(visited@.contains(self.adj(v as int, layer as int)[k]));
            }
            assert forall|i: int| 0 <= i < top@.len() implies self.reaches(
                layer as int,
                entry,
                (#[trigger] top@[i]).0,
            ) by {
                assert(visited@.contains(top@[i].0));
            }
            if top@.len() < ef {
                assert forall|b: NodeId| #[trigger] self.reaches(layer as int, entry, b)
                    implies has_id(
                    top@,
                    b,
                ) by {
                    let path = choose|path: Seq<NodeId>| #[trigger]
                        self.path_on(layer as int, path) && path.first() == entry
                            && path.last() == b;
                    self.lemma_closed_holds_path(layer as int, visited@, path);
                }
            }
        }
        top
    }
}

impl Graph {
    /// Every hit names a stored external id, with a distance the metric
    /// returned for that id's vector and the query.
    pub open(crate) spec fn hits_measured<M: Metric>(
        &self,
        metric: &M,
        query: Seq<u32>,
        hits: Seq<Hit>,
    ) -> bool {
        forall|i: int|
            0 <= i < hits.len() ==> self@.contains_key((#[trigger] hits[i]).0) && measures(
                metric,
                self@[hits[i].0].vector,
                query,
                hits[i].1,
            )
    }

    /// The hits name every node that can be reached on the base layer from
    /// some live node.
    pub open(crate) spec fn hits_exhaustive(&self, hits: Seq<Hit>) -> bool {
        exists|ep: NodeId|
            self.live(ep as int) && forall|b: NodeId| #[trigger]
                self.reaches(0, ep, b) ==> names(hits, self.slots()[b as int].ext_id)
    }

    /// `hits` are the closest candidates of `beam`, a settled beam on the
    /// base layer whose nodes can all be reached from the live node `ep`,
    /// under their external ids.
    pub open(crate) spec fn hits_of_beam<M: Metric>(
        &self,
        metric: &M,
        query: Seq<u32>,
        hits: Seq<Hit>,
        ep: NodeId,
        beam: Seq<Candidate>,
    ) -> bool {
        &&& hits.len() <= beam.len()
        &&& self.live(ep as int)
        &&& self.beam_reached(0, ep, beam)
        &&& self.measured(metric, query, beam)
        &&& distinct_ids(beam)
        &&& ascending(beam)
        &&& self.beam_settled(metric, query, 0, beam)
        &&& forall|j: int|
            0 <= j < hits.len() ==> (#[trigger] hits[j]).0 == self.slots()[beam[j].0 as int].ext_id
                && hits[j].1 == beam[j].1
    }

    /// The hits are what the search finds: a greedy descent from the entry
    /// point through the upper layers ends at `ep`; a beam search of width
    /// `max(ef, k)` from `ep` on the base layer returns `beam`; and the hits
    /// are the first `k` candidates of `beam`, or all of them if there are
    /// fewer, under their external ids.
    pub open(crate) spec fn hits_found<M: Metric>(
        &self,
        metric: &M,
        query: Seq<u32>,
        k: usize,
        ef: usize,
        hits: Seq<Hit>,
    ) -> bool {
        exists|ep: NodeId, beam: Seq<Candidate>|
            #![trigger self.hits_of_beam(metric, query, hits, ep, beam)]
            {
                &&& self.spec_entry() is Some
                &&& self.descended(
                    metric,
                    query,
                    self.spec_max_level() as int,
                    0,
                    self.spec_entry()->0,
                    ep,
                )
                &&& self.searched(metric, query, 0, if ef >= k {
                    ef
                } else {
                    k
                }, ep, beam)
                &&& self.hits_of_beam(metric, query, hits, ep, beam)
                &&& hits.len() == (if beam.len() < k {
                    beam.len()
                } else {
                    k as nat
                })
            }
    }

    /// What was found with a beam of one width was found with any width
    /// that gives the same beam for `k` hits.
    pub(crate) proof fn lemma_found_width<M: Metric>(
        &self,
        metric: &M,
        query: Seq<u32>,
        k: usize,
        ef: usize,
        other: usize,
        hits: Seq<Hit>,
    )
        requires
            self.hits_found(metric, query, k, ef, hits),
            (if ef >= k {
                ef
            } else {
                k
            }) == (if other >= k {
                other
            } else {
                k
            }),
        ensures
            self.hits_found(metric, query, k, other, hits),
    {
        let (ep, beam) = choose|ep: NodeId, beam: Seq<Candidate>|
            #![trigger self.hits_of_beam(metric, query, hits, ep, beam)]
            {
                &&& self.spec_entry() is Some
                &&& self.descended(
                    metric,
                    query,
                    self.spec_max_level() as int,
                    0,
                    self.spec_entry()->0,
                    ep,
                )
                &&& self.searched(metric, query, 0, if ef >= k {
                    ef
                } else {
                    k
                }, ep, beam)
                &&& self.hits_of_beam(metric, query, hits, ep, beam)
                &&& hits.len() == (if beam.len() < k {
                    beam.len()
                } else {
                    k as nat
                })
            };
        assert(self.hits_of_beam(metric, query, hits, ep, beam));
    }

    /// The hits are the front of some settled beam that was reached from a
    /// live node.
    pub open(crate) spec fn hits_settled<M: Metric>(
        &self,
        metric: &M,
        query: Seq<u32>,
        hits: Seq<Hit>,
    ) -> bool {
        exists|ep: NodeId, beam: Seq<Candidate>| #[trigger]
            self.hits_of_beam(metric, query, hits, ep, beam)
    }

    /// The hits are the front of a settled beam that holds every node its
    /// start reaches: a wider beam would hold the same nodes.
    pub open(crate) spec fn hits_thorough<M: Metric>(
        &self,
        metric: &M,
        query: Seq<u32>,
        hits: Seq<Hit>,
    ) -> bool {
        exists|ep: NodeId, beam: Seq<Candidate>| #[trigger]
            self.hits_of_beam(metric, query, hits, ep, beam) && self.beam_complete(0, ep, beam)
    }

    /// A beam of distinct live nodes that is as long as the graph counts
    /// nodes holds every live node.
    pub proof fn lemma_full_beam(&self, beam: Seq<Candidate>)
        requires
            self.wf(),
            distinct_ids(beam),
            forall|i: int| 0 <= i < beam.len() ==> self.live((#[trigger] beam[i]).0 as int),
            beam.len() >= self.count(),
        ensures
            forall|b: NodeId| self.live(b as int) ==> has_id(beam, b),
    {
        let slots = self.slots();
        let ids = Seq::new(beam.len(), |i: int| slots[beam[i].0 as int].ext_id);
        assert(ids.no_duplicates()) by {
            assert forall|i: int, j: int| 0 <= i < ids.len() && 0 <= j < ids.len() && i != j
                implies ids[i] != ids[j] by {
                assert(crate::graph::slot_live(slots, beam[i].0 as int));
                assert(crate::graph::slot_live(slots, beam[j].0 as int));
                if i < j {
                    assert(beam[i].0 != beam[j].0);
                } else {
                    assert(beam[j].0 != beam[i].0);
                }
            }
        }
        ids.unique_seq_to_set();
        assert(ids.to_set().subset_of(self.by_ext@.dom())) by {
            assert forall|e: u64| ids.to_set().contains(e) implies self.by_ext@.dom().contains(
                e,
            ) by {
                let i = choose|i: int| 0 <= i < ids.len() && ids[i] == e;
                assert(crate::graph::slot_live(slots, beam[i].0 as int));
            }
        }
        vstd::set_lib::lemma_len_subset(ids.to_set(), self.by_ext@.dom());
        vstd::set_lib::lemma_subset_equality(ids.to_set(), self.by_ext@.dom());
        assert forall|b: NodeId| self.live(b as int) implies has_id(beam, b) by {
            assert(crate::graph::slot_live(slots, b as int));
            let e = slots[b as int].ext_id;
            assert(self.by_ext@.dom().contains(e));
            assert(ids.to_set().contains(e));
            let i = choose|i: int| 0 <= i < ids.len() && ids[i] == e;
            assert(crate::graph::slot_live(slots, beam[i].0 as int));
            assert(beam[i].0 == b);
        }
    }

    /// Every live node can be reached from every live node on `layer`.
    pub open(crate) spec fn connected(&self, layer: int) -> bool {
        forall|a: NodeId, b: NodeId|
            self.live(a as int) && self.live(b as int) ==> #[trigger] self.reaches(layer, a, b)
    }

    /// The `k` nearest stored vectors the search finds for `query`, closest
    /// first, each with its external id and distance. The search descends
    /// greedily from the entry point through the upper layers and explores
    /// the base layer with a beam `max(ef, k)` wide; the hits are the `k`
    /// closest nodes of that beam. Where it returns fewer than `k` hits,
    /// these are all the vectors it could reach.
    pub fn knn<M: Metric>(&self, query: &[u32], k: usize, metric: &M, ef: usize) -> (hits: Vec<Hit>)
        requires
            self.wf(),
            self.uniform(query@.len()),
        ensures
            hits@.len() <= k,
            hits@.len() <= self.count(),
            (k == 0 || self.count() == 0) <==> hits@.len() == 0,
            self.hits_measured(metric, query@, hits@),
            hits_distinct(hits@),
            hits_ascending(hits@),
            0 < hits@.len() ==> self.hits_settled(metric, query@, hits@),
            0 < hits@.len() ==> self.hits_found(metric, query@, k, ef, hits@),
            0 < hits@.len() < k ==> self.hits_exhaustive(hits@),
            0 < hits@.len() && ef >= self.count() ==> self.hits_thorough(metric, query@, hits@),
    {
        let mut hits: Vec<Hit> = Vec::new();
        if self.nodes.len() == 0 || k == 0 {
            proof {
                lemma_live_count_zero(self.slots());
            }
            return hits;
        }
        // Use the entry point if it is live, else any live node from the top
        // layer down.
        let start = match self.entry {
            Some(e) => if self.is_valid_nid(e) {
                Some(e)
            } else {
                self.pick_entry()
            },
            None => self.pick_entry(),
        };
        let mut ep = match start {
            Some(e) => e,
            None => {
                return hits;
            },
        };
        let ghost first = ep;
        let ghost mut eps: Seq<NodeId> = seq![ep];
        let mut l = self.max_level;
        while l >= 1
            invariant
                self.wf(),
                self.uniform(query@.len()),
                self.live(ep as int),
                l <= self.max_level,
                eps.len() == self.max_level - l + 1,
                eps.first() == first,
                eps.last() == ep,
                self.descent(metric, query@, self.max_level as int, eps),
            decreases l,
        {
            ep = self.greedy_idx(ep, query, l, metric);
            proof {
                self.lemma_descent_step(metric, query@, self.max_level as int, eps, ep);
                eps = eps.push(ep);
            }
            l -= 1;
        }
        proof {
            assert(self.descended(metric, query@, self.max_level as int, 0, first, ep));
        }
        let width = if ef >= k {
            ef
        } else {
            k
        };
        let mut cand = self.ef_search_idx(ep, query, width, 0, metric);
        let ghost beam = cand@;
        cand.truncate(k);
        let mut i: usize = 0;
        while i < cand.len()
            invariant
                self.wf(),
                i <= cand@.len(),
                hits@.len() == i,
                self.measured(metric, query@, cand@),
                distinct_ids(cand@),
                ascending(cand@),
                forall|j: int|
                    0 <= j < i ==> {
                        &&& (#[trigger] hits@[j]).0 == self.nodes@[cand@[j].0 as int].ext_id
                        &&& hits@[j].1 == cand@[j].1
                    },
            decreases cand@.len() - i,
        {
            let (nid, dist) = cand[i];
            hits.push((self.nodes[nid].ext_id, dist));
            i += 1;
        }
        proof {
            assert forall|j: int| 0 <= j < hits@.len() implies self@.contains_key(
                (#[trigger] hits@[j]).0,
            ) && measures(metric, self@[hits@[j].0].vector, query@, hits@[j].1) by {
                let nid = cand@[j].0 as int;
                assert(self.live(nid));
                assert(crate::graph::slot_live(self.slots(), nid));
            }
            assert forall|a: int, b: int| 0 <= a < b < hits@.len()
                implies (#[trigger] hits@[a]).0 != (
            #[trigger] hits@[b]).0 by {
                let x = cand@[a].0 as int;
                let y = cand@[b].0 as int;
                assert(crate::graph::slot_live(self.slots(), x));
                assert(crate::graph::slot_live(self.slots(), y));
            }
            self.lemma_distinct_hits_bounded(hits@);
            assert(self.hits_of_beam(metric, query@, hits@, ep, beam));
            if hits@.len() > 0 {
                assert(self.spec_entry() == Some(first)) by {
                    if self.entry is None {
                        lemma_live_count_zero(self.slots());
                        assert(crate::graph::slot_live(self.slots(), ep as int));
                    }
                }
                assert(self.searched(metric, query@, 0, width, ep, beam));
                assert(self.hits_found(metric, query@, k, ef, hits@));
            }
            if ef >= self.count() {
                if beam.len() >= width {
                    self.lemma_full_beam(beam);
                    assert forall|b: NodeId| #[trigger] self.reaches(0, ep, b) implies has_id(
                        beam,
                        b,
                    ) by {
                        let path = choose|path: Seq<NodeId>| #[trigger]
                            self.path_on(0, path) && path.first() == ep && path.last() == b;
                        assert(self.live(path[path.len() - 1] as int));
                    }
                }
                assert(self.beam_complete(0, ep, beam));
            }
            if hits@.len() < k {
                assert forall|b: NodeId| #[trigger] self.reaches(0, ep, b) implies names(
                    hits@,
                    self.slots()[b as int].ext_id,
                ) by {
                    let j = choose|j: int| 0 <= j < beam.len() && (#[trigger] beam[j]).0 == b;
                    assert(hits@[j].0 == self.nodes@[cand@[j].0 as int].ext_id);
                }
            }
        }
        hits
    }

    /// Distinct stored external ids are no more than the graph counts.
    pub proof fn lemma_distinct_hits_bounded(&self, hits: Seq<Hit>)
        requires
            self.wf(),
            hits_distinct(hits),
            forall|i: int| 0 <= i < hits.len() ==> self@.contains_key((#[trigger] hits[i]).0),
        ensures
            hits.len() <= self.count(),
    {
        let ids = Seq::new(hits.len(), |i: int| hits[i].0);
        assert(ids.no_duplicates());
        ids.unique_seq_to_set();
        assert(ids.to_set().subset_of(self.by_ext@.dom()));
        vstd::set_lib::lemma_len_subset(ids.to_set(), self.by_ext@.dom());
    }
}

} // verus!
