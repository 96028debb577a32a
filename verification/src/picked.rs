//! The short list of neighbours chosen for one node on one layer, kept
//! inline while it is small.

use crate::node::{NodeId, MAX_LINKS_PER_LVL};
use smallvec::SmallVec;
use vstd::prelude::*;

verus! {

/// A selection of node ids, held in a small vector that stays inline up to
/// `MAX_LINKS_PER_LVL` ids.
#[verifier::external_body]
pub struct Picked {
    inner: SmallVec<[NodeId; MAX_LINKS_PER_LVL]>,
}

/// The ids a selection holds, in the order they were chosen.
pub uninterp spec fn picked(s: Picked) -> Seq<NodeId>;

/// Longest selection that is ever grown: growing one that holds fewer ids
/// cannot overflow the capacity computation.
pub const PICK_LIMIT: usize = 0x0400_0000;

/// `SmallVec::new`: an empty selection.
#[verifier::external_body]
pub(crate) fn picked_new() -> (s: Picked)
    ensures
        picked(s) == Seq::<NodeId>::empty(),
{
    Picked { inner: SmallVec::new() }
}

/// `SmallVec::push`: appends `id` at the end. Below `PICK_LIMIT` ids the
/// next capacity fits the address space, so the call does not panic.
#[verifier::external_body]
pub(crate) fn picked_push(s: &mut Picked, id: NodeId)
    requires
        picked(*old(s)).len() < PICK_LIMIT,
    ensures
        picked(*final(s)) == picked(*old(s)).push(id),
{
    s.inner.push(id)
}

/// `SmallVec::len`: the number of ids held.
#[verifier::external_body]
pub(crate) fn picked_len(s: &Picked) -> (n: usize)
    ensures
        n == picked(*s).len(),
{
    s.inner.len()
}

/// `SmallVec::as_slice`: the ids held, in order.
#[verifier::external_body]
pub(crate) fn picked_slice(s: &Picked) -> (r: &[NodeId])
    ensures
        r@ == picked(*s),
{
    s.inner.as_slice()
}

} // verus!
