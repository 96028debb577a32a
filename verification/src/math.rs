//! Distance metrics and the total order the index puts on distances.

use vstd::prelude::*;

verus! {

/// A distance between two vectors of equal length; smaller means closer.
///
/// Vectors and the returned distance are single-precision bit patterns. The
/// index asks nothing of an implementation beyond being callable on vectors of
/// equal length: every statement the index makes about a distance is made
/// through [`measures`], that is, about values the metric actually returned.
pub trait Metric {
    fn distance(&self, a: &[u32], b: &[u32]) -> (d: u32)
        requires
            a@.len() == b@.len(),
    ;
}

/// `d` is a value that `metric` may return for the pair `(a, b)`.
pub open spec fn measures<M: Metric>(metric: &M, a: Seq<u32>, b: Seq<u32>, d: u32) -> bool {
    exists|x: &[u32], y: &[u32]|
        x@ == a && y@ == b && #[trigger] call_ensures(M::distance, (metric, x, y), d)
}

/// Some measurement of `(a, b)` ranks strictly before some measurement of
/// `(c, d)`. For a metric that returns one value per pair this reads
/// "`a` is strictly closer to `b` than `c` is to `d`".
pub open spec fn closer<M: Metric>(
    metric: &M,
    a: Seq<u32>,
    b: Seq<u32>,
    c: Seq<u32>,
    d: Seq<u32>,
) -> bool {
    exists|d1: u32, d2: u32|
        #![trigger measures(metric, a, b, d1), measures(metric, c, d, d2)]
        measures(metric, a, b, d1) && measures(metric, c, d, d2) && rank(d1) < rank(d2)
}

/// Some measurement of `(a, b)` ranks no later than some measurement of
/// `(c, d)`: "`a` is at least as close to `b` as `c` is to `d`".
pub open spec fn no_farther<M: Metric>(
    metric: &M,
    a: Seq<u32>,
    b: Seq<u32>,
    c: Seq<u32>,
    d: Seq<u32>,
) -> bool {
    exists|d1: u32, d2: u32|
        #![trigger measures(metric, a, b, d1), measures(metric, c, d, d2)]
        measures(metric, a, b, d1) && measures(metric, c, d, d2) && rank(d1) <= rank(d2)
}

/// The metric returns at most one value for each pair of vectors.
pub open spec fn single_valued<M: Metric>(metric: &M) -> bool {
    forall|a: Seq<u32>, b: Seq<u32>, d1: u32, d2: u32|
        #![trigger measures(metric, a, b, d1), measures(metric, a, b, d2)]
        measures(metric, a, b, d1) && measures(metric, a, b, d2) ==> d1 == d2
}

/// For a metric that returns one value per pair, "closer" and "no farther"
/// compare the ranks of those values.
pub proof fn law_single_valued_compares<M: Metric>(
    metric: &M,
    a: Seq<u32>,
    b: Seq<u32>,
    c: Seq<u32>,
    d: Seq<u32>,
    ab: u32,
    cd: u32,
)
    requires
        single_valued(metric),
        measures(metric, a, b, ab),
        measures(metric, c, d, cd),
    ensures
        closer(metric, a, b, c, d) <==> rank(ab) < rank(cd),
        no_farther(metric, a, b, c, d) <==> rank(ab) <= rank(cd),
{
    if closer(metric, a, b, c, d) {
        let (d1, d2) = choose|d1: u32, d2: u32|
            #![trigger measures(metric, a, b, d1), measures(metric, c, d, d2)]
            measures(metric, a, b, d1) && measures(metric, c, d, d2) && rank(d1) < rank(d2);
    }
    if no_farther(metric, a, b, c, d) {
        let (d1, d2) = choose|d1: u32, d2: u32|
            #![trigger measures(metric, a, b, d1), measures(metric, c, d, d2)]
            measures(metric, a, b, d1) && measures(metric, c, d, d2) && rank(d1) <= rank(d2);
    }
}

/// Calls the metric and records what it returned.
pub fn measure<M: Metric>(metric: &M, a: &[u32], b: &[u32]) -> (d: u32)
    requires
        a@.len() == b@.len(),
    ensures
        measures(metric, a@, b@, d),
{
    metric.distance(a, b)
}

/// The sign bit of a single-precision bit pattern.
pub const SIGN_BIT: u32 = 0x8000_0000;

/// The bit pattern of positive infinity: every exponent bit set, no
/// mantissa bit.
pub const INFINITY_BITS: u32 = 0x7f80_0000;

/// The sign bit of a single-precision bit pattern is set.
pub open spec fn is_negative(bits: u32) -> bool {
    bits >= SIGN_BIT
}

/// The bit pattern without its sign bit: exponent and mantissa.
pub open spec fn magnitude(bits: u32) -> u32 {
    if bits >= SIGN_BIT {
        (bits - SIGN_BIT) as u32
    } else {
        bits
    }
}

/// The bit pattern encodes a NaN: all exponent bits set, mantissa non-zero.
pub open spec fn is_nan(bits: u32) -> bool {
    magnitude(bits) > INFINITY_BITS
}

/// The position of a distance in the index's total order.
///
/// Numbers are ranked by numeric value, the two zeros share one rank, and
/// every NaN takes the last rank.
pub open spec fn rank(bits: u32) -> u32 {
    if is_nan(bits) {
        u32::MAX
    } else if is_negative(bits) {
        (SIGN_BIT - magnitude(bits)) as u32
    } else {
        (SIGN_BIT + bits) as u32
    }
}

/// Computes the rank of a distance; `dist_rank(a) < dist_rank(b)` is the
/// comparison every search and pruning step uses.
pub fn dist_rank(bits: u32) -> (r: u32)
    ensures
        r == rank(bits),
{
    let mag: u32 = if bits >= SIGN_BIT {
        bits - SIGN_BIT
    } else {
        bits
    };
    if mag > INFINITY_BITS {
        u32::MAX
    } else if bits >= SIGN_BIT {
        SIGN_BIT - mag
    } else {
        SIGN_BIT + bits
    }
}

/// Among numbers of one sign the rank follows the magnitude: upwards for
/// non-negative numbers, downwards for negative ones.
pub proof fn law_rank_follows_magnitude(a: u32, b: u32)
    requires
        !is_nan(a),
        !is_nan(b),
        is_negative(a) == is_negative(b),
    ensures
        !is_negative(a) ==> (rank(a) < rank(b) <==> magnitude(a) < magnitude(b)),
        is_negative(a) ==> (rank(a) < rank(b) <==> magnitude(a) > magnitude(b)),
{}

/// A negative number ranks before a non-negative one, except that the two
/// zeros tie.
pub proof fn law_rank_negative_first(a: u32, b: u32)
    requires
        !is_nan(a),
        !is_nan(b),
        is_negative(a),
        !is_negative(b),
    ensures
        rank(a) <= rank(b),
        rank(a) == rank(b) <==> magnitude(a) == 0 && magnitude(b) == 0,
{}

/// Every NaN ranks last, and two bit patterns share a rank only if both are
/// NaN, both are zero, or they are the same pattern.
pub proof fn law_rank_ties(a: u32, b: u32)
    ensures
        is_nan(a) ==> rank(b) <= rank(a),
        rank(a) == rank(b) <==> (is_nan(a) && is_nan(b)) || (magnitude(a) == 0 && magnitude(b)
            == 0) || a == b,
{}

} // verus!
