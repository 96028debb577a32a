//! Candidate lists kept in distance order. They take the place of priority
//! queues in the searches: the closest or the farthest candidate is always at
//! one end of the list.

use crate::math::{dist_rank, rank};
use crate::node::NodeId;
use vstd::prelude::*;

verus! {

/// A node together with its measured distance to the query.
pub type Candidate = (NodeId, u32);

/// `a` comes strictly before `b`: it is closer, or equally close with the
/// smaller node id.
pub open spec fn before(a: Candidate, b: Candidate) -> bool {
    rank(a.1) < rank(b.1) || (rank(a.1) == rank(b.1) && a.0 < b.0)
}

/// Closest first.
pub open spec fn ascending(s: Seq<Candidate>) -> bool {
    forall|i: int, j: int| 0 <= i < j < s.len() ==> !before(#[trigger] s[j], #[trigger] s[i])
}

/// Farthest first.
pub open spec fn descending(s: Seq<Candidate>) -> bool {
    forall|i: int, j: int| 0 <= i < j < s.len() ==> !before(#[trigger] s[i], #[trigger] s[j])
}

/// No node occurs in two candidates.
pub open spec fn distinct_ids(s: Seq<Candidate>) -> bool {
    forall|i: int, j: int| 0 <= i < j < s.len() ==> (#[trigger] s[i]).0 != (#[trigger] s[j]).0
}

/// Some candidate is for node `id`.
pub open spec fn has_id(s: Seq<Candidate>, id: NodeId) -> bool {
    exists|i: int| 0 <= i < s.len() && (#[trigger] s[i]).0 == id
}

/// Whether `a` comes strictly before `b`.
pub fn precedes(a: Candidate, b: Candidate) -> (r: bool)
    ensures
        r == before(a, b),
{
    let ra = dist_rank(a.1);
    let rb = dist_rank(b.1);
    ra < rb || (ra == rb && a.0 < b.0)
}

/// Inserting a candidate adds its id and keeps every other id; the ids stay
/// distinct if the new one was not among them.
pub proof fn lemma_insert_keeps(s: Seq<Candidate>, pos: int, item: Candidate)
    requires
        0 <= pos <= s.len(),
    ensures
        forall|c: Candidate| s.insert(pos, item).contains(c) <==> (c == item || s.contains(c)),
        forall|id: NodeId| has_id(s.insert(pos, item), id) <==> (id == item.0 || has_id(s, id)),
        distinct_ids(s) && !has_id(s, item.0) ==> distinct_ids(s.insert(pos, item)),
{
    let t = s.insert(pos, item);
    assert forall|c: Candidate| t.contains(c) <==> (c == item || s.contains(c)) by {
        if t.contains(c) {
            let k = choose|k: int| 0 <= k < t.len() && t[k] == c;
        }
        if c == item {
            assert(t[pos] == c);
        }
        if s.contains(c) {
            let k = choose|k: int| 0 <= k < s.len() && s[k] == c;
            if k < pos {
                assert(t[k] == c);
            } else {
                assert(t[k + 1] == c);
            }
        }
    }
    assert forall|id: NodeId| has_id(t, id) <==> (id == item.0 || has_id(s, id)) by {
        if has_id(t, id) {
            let k = choose|k: int| 0 <= k < t.len() && (#[trigger] t[k]).0 == id;
        }
        if id == item.0 {
            assert(t[pos].0 == id);
        }
        if has_id(s, id) {
            let k = choose|k: int| 0 <= k < s.len() && (#[trigger] s[k]).0 == id;
            if k < pos {
                assert(t[k].0 == id);
            } else {
                assert(t[k + 1].0 == id);
            }
        }
    }
}

/// Inserts `item` so that the list stays closest-first.
pub fn insert_ascending(list: &mut Vec<Candidate>, item: Candidate) -> (pos: usize)
    requires
        ascending(old(list)@),
    ensures
        pos <= old(list)@.len(),
        final(list)@ == old(list)@.insert(pos as int, item),
        ascending(final(list)@),
{
    let mut pos = list.len();
    while pos > 0 && precedes(item, list[pos - 1])
        invariant
            pos <= list@.len(),
            list@ == old(list)@,
            forall|k: int| pos <= k < list@.len() ==> before(item, #[trigger] list@[k]),
        decreases pos,
    {
        pos -= 1;
    }
    list.insert(pos, item);
    pos
}

/// Inserts `item` so that the list stays farthest-first.
pub fn insert_descending(list: &mut Vec<Candidate>, item: Candidate) -> (pos: usize)
    requires
        descending(old(list)@),
    ensures
        pos <= old(list)@.len(),
        final(list)@ == old(list)@.insert(pos as int, item),
        descending(final(list)@),
{
    let mut pos = list.len();
    while pos > 0 && precedes(list[pos - 1], item)
        invariant
            pos <= list@.len(),
            list@ == old(list)@,
            forall|k: int| pos <= k < list@.len() ==> before(#[trigger] list@[k], item),
        decreases pos,
    {
        pos -= 1;
    }
    list.insert(pos, item);
    pos
}

} // verus!
