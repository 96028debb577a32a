//! Draws the top layer of a new node.
//!
//! A node climbs from one layer to the next with probability `1 / M`, so the
//! layer is geometrically distributed: `P(level >= l) = M^(-l)`.

use rand::rngs::ThreadRng;
use rand::Rng;
use vstd::prelude::*;

verus! {

/// `rand::rngs::ThreadRng`, the handle to the thread-local generator; nothing
/// is known of what it holds.
#[verifier::external_type_specification]
#[verifier::external_body]
pub struct ExThreadRng(ThreadRng);

/// Highest layer the sampler hands out. With `M >= 2` a node reaches it with
/// probability at most `2^-63`.
pub const MAX_LEVEL: usize = 63;

/// `rand::thread_rng`: a handle to the thread-local generator, which the
/// operating system seeds on first use.
#[verifier::external_body]
pub(crate) fn thread_generator() -> ThreadRng {
    rand::thread_rng()
}

/// `Rng::gen_range` on `0..bound`: some value below `bound`, uniformly drawn.
/// The range is not empty, so the call does not panic.
#[verifier::external_body]
pub(crate) fn draw_below(rng: &mut ThreadRng, bound: usize) -> (r: usize)
    requires
        bound >= 1,
    ensures
        r < bound,
{
    rng.gen_range(0..bound)
}

/// Whether a node that drew `draw` out of `0..m` climbs one more layer: one
/// value in `m` does.
pub fn climbs(draw: usize) -> (r: bool)
    ensures
        r == (draw == 0),
{
    draw == 0
}

/// Where a node at `level` goes on `draw`: one layer up on a climbing draw,
/// unless it is at `MAX_LEVEL` already; nowhere on any other draw.
pub open spec fn step(level: usize, draw: usize) -> Option<usize> {
    if draw == 0 && level < MAX_LEVEL {
        Some((level + 1) as usize)
    } else {
        None
    }
}

/// The layer after `level` for a node that drew `draw`, or nothing if the
/// node stays where it is.
pub fn next_level(level: usize, draw: usize) -> (next: Option<usize>)
    ensures
        next == step(level, draw),
{
    if climbs(draw) && level < MAX_LEVEL {
        Some(level + 1)
    } else {
        None
    }
}

/// Draws a top layer for degree bound `m`: starts at layer 0 and moves as
/// [`next_level`] says on each draw below `m`, until a draw lets it stay.
pub fn draw_level(m: usize) -> (level: usize)
    requires
        m >= 2,
    ensures
        level <= MAX_LEVEL,
{
    let mut rng = thread_generator();
    let mut level: usize = 0;
    loop
        invariant
            m >= 2,
            level <= MAX_LEVEL,
        ensures
            level <= MAX_LEVEL,
        decreases MAX_LEVEL - level,
    {
        let draw = draw_below(&mut rng, m);
        match next_level(level, draw) {
            Some(up) => {
                level = up;
            },
            None => {
                break ;
            },
        }
    }
    level
}

} // verus!
