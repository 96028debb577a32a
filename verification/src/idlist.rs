//! Small operations on lists of node ids.

use crate::node::NodeId;
use vstd::prelude::*;

verus! {

/// Strictly increasing, hence free of duplicates.
pub open spec fn increasing(s: Seq<NodeId>) -> bool {
    forall|i: int, j: int| 0 <= i < j < s.len() ==> s[i] < s[j]
}

/// An increasing list holds no id twice.
pub proof fn lemma_increasing_distinct(s: Seq<NodeId>)
    requires
        increasing(s),
    ensures
        s.no_duplicates(),
{
    assert forall|i: int, j: int| 0 <= i < s.len() && 0 <= j < s.len() && i != j implies s[i]
        != s[j] by {}
}

/// A sequence with `a` pushed onto it holds `a` and what it held before.
pub proof fn lemma_push_contains<A>(s: Seq<A>, a: A)
    ensures
        forall|y: A| #[trigger] s.push(a).contains(y) <==> (y == a || s.contains(y)),
{
    assert forall|y: A| #[trigger] s.push(a).contains(y) <==> (y == a || s.contains(y)) by {
        if s.push(a).contains(y) {
            let k = choose|k: int| 0 <= k < s.push(a).len() && s.push(a)[k] == y;
        }
        if y == a {
            assert(s.push(a)[s.len() as int] == y);
        }
        if s.contains(y) {
            let k = choose|k: int| 0 <= k < s.len() && s[k] == y;
            assert(s.push(a)[k] == y);
        }
    }
}

/// A copy of `list`.
pub fn copy_of<T: Copy>(list: &[T]) -> (out: Vec<T>)
    ensures
        out@ == list@,
{
    let mut out: Vec<T> = Vec::new();
    let mut i: usize = 0;
    while i < list.len()
        invariant
            i <= list@.len(),
            out@ == list@.take(i as int),
        decreases list@.len() - i,
    {
        out.push(list[i]);
        i += 1;
    }
    out
}

/// Whether `id` occurs in `list`.
pub fn has(list: &[NodeId], id: NodeId) -> (r: bool)
    ensures
        r == list@.contains(id),
{
    let mut i: usize = 0;
    while i < list.len()
        invariant
            i <= list@.len(),
            forall|k: int| 0 <= k < i ==> list@[k] != id,
        decreases list@.len() - i,
    {
        if list[i] == id {
            return true;
        }
        i += 1;
    }
    false
}

/// `list` without every occurrence of `id`, the other ids in their order.
pub open spec fn without(list: Seq<NodeId>, id: NodeId) -> Seq<NodeId>
    decreases list.len(),
{
    if list.len() == 0 {
        Seq::empty()
    } else if list.last() == id {
        without(list.drop_last(), id)
    } else {
        without(list.drop_last(), id).push(list.last())
    }
}

/// Taking an id out makes a list no longer, and leaves no occurrence of it.
pub proof fn lemma_without(list: Seq<NodeId>, id: NodeId)
    ensures
        without(list, id).len() <= list.len(),
        !without(list, id).contains(id),
        forall|x: NodeId| #[trigger] without(list, id).contains(x) ==> list.contains(x),
        !list.contains(id) ==> without(list, id) == list,
    decreases list.len(),
{
    if list.len() > 0 {
        let rest = list.drop_last();
        lemma_without(rest, id);
        lemma_push_contains(without(rest, id), list.last());
        assert forall|x: NodeId| #[trigger] without(list, id).contains(x) implies list.contains(
            x,
        ) by {
            if x == list.last() {
                assert(list[list.len() - 1] == x);
            } else {
                assert(without(rest, id).contains(x));
                let k = choose|k: int| 0 <= k < rest.len() && rest[k] == x;
                assert(list[k] == x);
            }
        }
        if !list.contains(id) {
            assert(list[list.len() - 1] != id);
            assert(!rest.contains(id)) by {
                if rest.contains(id) {
                    let k = choose|k: int| 0 <= k < rest.len() && rest[k] == id;
                    assert(list[k] == id);
                }
            }
            assert(rest.push(list.last()) =~= list);
        }
    }
}

/// `list` without `id`, the other ids in their order.
pub fn without_id(list: &[NodeId], id: NodeId) -> (out: Vec<NodeId>)
    ensures
        out@ == without(list@, id),
        forall|x: NodeId| #[trigger] out@.contains(x) <==> list@.contains(x) && x != id,
        list@.no_duplicates() ==> out@.no_duplicates(),
        out@.len() <= list@.len(),
        !list@.contains(id) ==> out@ == list@,
        list@.no_duplicates() && list@.contains(id) ==> out@.len() + 1 == list@.len(),
{
    let mut out: Vec<NodeId> = Vec::new();
    let ghost mut src: Seq<int> = Seq::empty();
    let mut i: usize = 0;
    proof {
        assert(list@.take(0) =~= Seq::<NodeId>::empty());
    }
    while i < list.len()
        invariant
            i <= list@.len(),
            out@ == without(list@.take(i as int), id),
            src.len() == out@.len(),
            out@.len() <= i,
            forall|k: int| 0 <= k < src.len()
                ==> 0 <= #[trigger] src[k] < i && out@[k] == list@[src[k]],
            forall|a: int, b: int| 0 <= a < b < src.len() ==> src[a] < src[b],
            forall|k: int| 0 <= k < out@.len() ==> out@[k] != id,
            forall|k: int| 0 <= k < i && list@[k] != id ==> out@.contains(#[trigger] list@[k]),
            (forall|k: int| 0 <= k < i ==> list@[k] != id) ==> out@ == list@.take(i as int),
            list@.no_duplicates() && (exists|k: int| 0 <= k < i && list@[k] == id) ==> out@.len()
                + 1 == i,
        decreases list@.len() - i,
    {
        let x = list[i];
        proof {
            assert(list@.take(i + 1).drop_last() =~= list@.take(i as int));
        }
        if x != id {
            let ghost prev = out@;
            out.push(x);
            proof {
                src = src.push(i as int);
                assert forall|k: int| 0 <= k < i + 1 && list@[k] != id implies out@.contains(
                    #[trigger] list@[k],
                ) by {
                    if k < i {
                        let w = choose|w: int| 0 <= w < prev.len() && prev[w] == list@[k];
                        assert(out@[w] == list@[k]);
                    } else {
                        assert(out@[out@.len() - 1] == x);
                    }
                }
                if list@.no_duplicates() && (exists|k: int| 0 <= k < i + 1 && list@[k] == id) {
                    let k = choose|k: int| 0 <= k < i + 1 && list@[k] == id;
                }
            }
        } else {
            proof {
                if list@.no_duplicates() {
                    if exists|k: int| 0 <= k < i && list@[k] == id {
                        let k = choose|k: int| 0 <= k < i && list@[k] == id;
                    }
                }
            }
        }
        i += 1;
    }
    proof {
        assert(list@.take(list@.len() as int) =~= list@);
        assert forall|x: NodeId| out@.contains(x) implies list@.contains(x) && x != id by {
            let w = choose|w: int| 0 <= w < out@.len() && out@[w] == x;
            assert(list@[src[w]] == x);
        }
        if list@.no_duplicates() {
            assert forall|a: int, b: int| 0 <= a < out@.len() && 0 <= b < out@.len() && a
                != b implies out@[a] != out@[b] by {
                assert(out@[a] == list@[src[a]]);
                assert(out@[b] == list@[src[b]]);
            }
        }
        if list@.no_duplicates() && list@.contains(id) {
            let k = choose|k: int| 0 <= k < list@.len() && list@[k] == id;
        }
    }
    out
}

/// Puts `id` at its place in an increasing list, unless it is there already.
pub fn insert_unique(list: &mut Vec<NodeId>, id: NodeId)
    requires
        increasing(old(list)@),
    ensures
        increasing(final(list)@),
        forall|x: NodeId| #[trigger] final(list)@.contains(x)
            <==> (x == id || old(list)@.contains(x)),
        final(list)@.len() == old(list)@.len() + (if old(list)@.contains(id) {
            0int
        } else {
            1int
        }),
{
    let mut pos = list.len();
    while pos > 0 && list[pos - 1] > id
        invariant
            pos <= list@.len(),
            list@ == old(list)@,
            increasing(list@),
            forall|k: int| pos <= k < list@.len() ==> id < list@[k],
        decreases pos,
    {
        pos -= 1;
    }
    if pos > 0 && list[pos - 1] == id {
        return ;
    }
    proof {
        assert(!list@.contains(id)) by {
            if list@.contains(id) {
                let k = choose|k: int| 0 <= k < list@.len() && list@[k] == id;
            }
        }
    }
    list.insert(pos, id);
    proof {
        let s = old(list)@;
        let t = list@;
        assert forall|x: NodeId| #[trigger] t.contains(x) <==> (x == id || s.contains(x)) by {
            if t.contains(x) {
                let k = choose|k: int| 0 <= k < t.len() && t[k] == x;
            }
            if x == id {
                assert(t[pos as int] == x);
            }
            if s.contains(x) {
                let k = choose|k: int| 0 <= k < s.len() && s[k] == x;
                if k < pos {
                    assert(t[k] == x);
                } else {
                    assert(t[k + 1] == x);
                }
            }
        }
    }
}

} // verus!
