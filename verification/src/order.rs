//! Nodes by age: merge sort on pairs of access time and node id.

use crate::node::NodeId;
use vstd::prelude::*;
use vstd::seq_lib::{lemma_multiset_commutative, to_multiset_build};

verus! {

/// The access time of a node, and the node.
pub type Aged = (u64, NodeId);

/// `a` was touched no later than `b`; of two nodes touched in the same
/// second the one with the smaller id counts as older.
pub open spec fn no_younger(a: Aged, b: Aged) -> bool {
    a.0 < b.0 || (a.0 == b.0 && a.1 <= b.1)
}

/// Oldest first.
pub open spec fn by_age(s: Seq<Aged>) -> bool {
    forall|i: int, j: int| 0 <= i < j < s.len() ==> no_younger(#[trigger] s[i], #[trigger] s[j])
}

/// Whether `a` is no younger than `b`.
pub fn older_or_same(a: Aged, b: Aged) -> (r: bool)
    ensures
        r == no_younger(a, b),
{
    a.0 < b.0 || (a.0 == b.0 && a.1 <= b.1)
}

/// Merges two lists that are ordered by age into one.
pub fn merge_by_age(a: &Vec<Aged>, b: &Vec<Aged>) -> (out: Vec<Aged>)
    requires
        by_age(a@),
        by_age(b@),
    ensures
        by_age(out@),
        out@.to_multiset() == a@.to_multiset().add(b@.to_multiset()),
{
    let mut out: Vec<Aged> = Vec::new();
    let mut i: usize = 0;
    let mut j: usize = 0;
    proof {
        broadcast use vstd::multiset::group_multiset_axioms;

        assert(a@.take(0) =~= Seq::<Aged>::empty());
        assert(b@.take(0) =~= Seq::<Aged>::empty());
        Seq::<Aged>::empty().to_multiset_ensures();
        vstd::seq_lib::to_multiset_len(Seq::<Aged>::empty());
    }
    while i < a.len() || j < b.len()
        invariant
            by_age(a@),
            by_age(b@),
            i <= a@.len(),
            j <= b@.len(),
            out@.len() == i + j,
            by_age(out@),
            out@.to_multiset() == a@.take(i as int).to_multiset().add(
                b@.take(j as int).to_multiset(),
            ),
            forall|k: int| 0 <= k < out@.len() && i < a@.len()
                ==> no_younger(#[trigger] out@[k], a@[i as int]),
            forall|k: int| 0 <= k < out@.len() && j < b@.len()
                ==> no_younger(#[trigger] out@[k], b@[j as int]),
        decreases a@.len() - i + b@.len() - j,
    {
        let from_a = if i >= a.len() {
            false
        } else if j >= b.len() {
            true
        } else {
            older_or_same(a[i], b[j])
        };
        let ghost before = out@;
        if from_a {
            let x = a[i];
            out.push(x);
            proof {
                broadcast use vstd::multiset::group_multiset_axioms;

                to_multiset_build(before, x);
                to_multiset_build(a@.take(i as int), x);
                assert(a@.take(i + 1) =~= a@.take(i as int).push(x));
            }
            i += 1;
        } else {
            let x = b[j];
            out.push(x);
            proof {
                broadcast use vstd::multiset::group_multiset_axioms;

                to_multiset_build(before, x);
                to_multiset_build(b@.take(j as int), x);
                assert(b@.take(j + 1) =~= b@.take(j as int).push(x));
            }
            j += 1;
        }
    }
    proof {
        assert(a@.take(a@.len() as int) =~= a@);
        assert(b@.take(b@.len() as int) =~= b@);
    }
    out
}

/// The elements of `list` from `from` up to `to`.
pub fn copy_range(list: &Vec<Aged>, from: usize, to: usize) -> (out: Vec<Aged>)
    requires
        from <= to <= list@.len(),
    ensures
        out@ == list@.subrange(from as int, to as int),
{
    let mut out: Vec<Aged> = Vec::new();
    let mut i = from;
    while i < to
        invariant
            from <= i <= to,
            to <= list@.len(),
            out@ == list@.subrange(from as int, i as int),
        decreases to - i,
    {
        out.push(list[i]);
        i += 1;
    }
    out
}

/// `list` ordered by age: the same elements, oldest first.
pub fn sort_by_age(list: &Vec<Aged>) -> (out: Vec<Aged>)
    ensures
        by_age(out@),
        out@.to_multiset() == list@.to_multiset(),
    decreases list@.len(),
{
    let n = list.len();
    if n <= 1 {
        let out = copy_range(list, 0, n);
        proof {
            assert(out@ =~= list@);
        }
        return out;
    }
    let mid = n / 2;
    let left = copy_range(list, 0, mid);
    let right = copy_range(list, mid, n);
    proof {
        assert(list@ =~= left@ + right@);
        lemma_multiset_commutative(left@, right@);
    }
    let a = sort_by_age(&left);
    let b = sort_by_age(&right);
    merge_by_age(&a, &b)
}

/// A sorted list has the elements of the list it was sorted from, as often,
/// and is as long.
pub proof fn lemma_same_elements(sorted: Seq<Aged>, list: Seq<Aged>)
    requires
        sorted.to_multiset() == list.to_multiset(),
    ensures
        sorted.len() == list.len(),
        forall|x: Aged| #[trigger] sorted.contains(x) <==> list.contains(x),
        list.no_duplicates() ==> sorted.no_duplicates(),
{
    vstd::seq_lib::to_multiset_len(sorted);
    vstd::seq_lib::to_multiset_len(list);
    assert forall|x: Aged| #[trigger] sorted.contains(x) <==> list.contains(x) by {
        vstd::seq_lib::to_multiset_contains(sorted, x);
        vstd::seq_lib::to_multiset_contains(list, x);
    }
    if list.no_duplicates() {
        list.lemma_multiset_has_no_duplicates();
        sorted.lemma_multiset_has_no_duplicates_conv();
    }
}

} // verus!
