//! Builder for configuring an index.

use crate::graph::{Entry, Graph};
use crate::math::Metric;
use crate::Hnsw;
use vstd::prelude::*;

verus! {

/// Default degree bound.
pub const DEF_M: usize = 16;

/// Default beam width while inserting.
pub const DEF_EF_CONSTRUCTION: usize = 200;

/// Default beam width of searches.
pub const DEF_EF_SEARCH: usize = 128;

/// The parameters of an index under construction.
pub struct HnswBuilder<M: Metric> {
    pub dims: Option<usize>,
    pub m: usize,
    pub ef_construction: usize,
    pub ef_search: usize,
    pub metric: M,
}

/// `x`, or `floor` if that is larger.
pub open spec fn at_least(x: usize, floor: usize) -> usize {
    if x >= floor {
        x
    } else {
        floor
    }
}

impl<M: Metric> HnswBuilder<M> {
    /// A builder with the default parameters and no dimensionality yet.
    pub fn new(metric: M) -> (b: Self)
        ensures
            b == (HnswBuilder {
                dims: None,
                m: DEF_M,
                ef_construction: DEF_EF_CONSTRUCTION,
                ef_search: DEF_EF_SEARCH,
                metric,
            }),
    {
        HnswBuilder {
            dims: None,
            m: DEF_M,
            ef_construction: DEF_EF_CONSTRUCTION,
            ef_search: DEF_EF_SEARCH,
            metric,
        }
    }

    /// Sets the dimensionality of the vectors.
    pub fn dims(self, d: usize) -> (b: Self)
        ensures
            b == (HnswBuilder { dims: Some(d), ..self }),
    {
        let mut b = self;
        b.dims = Some(d);
        b
    }

    /// Sets the degree bound, clamped to at least 2.
    pub fn m(self, m: usize) -> (b: Self)
        ensures
            b == (HnswBuilder { m: at_least(m, 2), ..self }),
    {
        let mut b = self;
        b.m = if m >= 2 {
            m
        } else {
            2
        };
        b
    }

    /// Sets the beam width used while inserting, clamped to at least 1.
    pub fn ef_construction(self, ef: usize) -> (b: Self)
        ensures
            b == (HnswBuilder { ef_construction: at_least(ef, 1), ..self }),
    {
        let mut b = self;
        b.ef_construction = if ef >= 1 {
            ef
        } else {
            1
        };
        b
    }

    /// Sets the default beam width of searches, clamped to at least 1.
    pub fn ef_search(self, ef: usize) -> (b: Self)
        ensures
            b == (HnswBuilder { ef_search: at_least(ef, 1), ..self }),
    {
        let mut b = self;
        b.ef_search = if ef >= 1 {
            ef
        } else {
            1
        };
        b
    }

    /// Replaces the metric, keeping every other parameter.
    pub fn metric<T: Metric>(self, metric: T) -> (b: HnswBuilder<T>)
        ensures
            b == (HnswBuilder {
                dims: self.dims,
                m: self.m,
                ef_construction: self.ef_construction,
                ef_search: self.ef_search,
                metric,
            }),
    {
        HnswBuilder {
            dims: self.dims,
            m: self.m,
            ef_construction: self.ef_construction,
            ef_search: self.ef_search,
            metric,
        }
    }

    /// An empty index with the builder's parameters. The degree bound is
    /// clamped to at least 2 and the beam widths to at least 1; a
    /// dimensionality that was never set is zero.
    pub fn build(self) -> (h: Hnsw<M>)
        ensures
            h.wf(),
            h.spec_graph().clean(),
            h.spec_graph().blank(),
            h@ == Map::<u64, Entry>::empty(),
            h.spec_len() == 0,
            h.spec_total_bytes() == 0,
            h.spec_slots() == 0,
            h.spec_dims() == (match self.dims {
                Some(d) => d,
                None => 0,
            }),
            h.spec_m() == at_least(self.m, 2),
            h.spec_ef() == at_least(self.ef_search, 1),
            h.spec_efc() == at_least(self.ef_construction, 1),
            h.spec_metric() == self.metric,
    {
        let dims = match self.dims {
            Some(d) => d,
            None => 0,
        };
        let m = if self.m >= 2 {
            self.m
        } else {
            2
        };
        let ef = if self.ef_search >= 1 {
            self.ef_search
        } else {
            1
        };
        let efc = if self.ef_construction >= 1 {
            self.ef_construction
        } else {
            1
        };
        Hnsw {
            dims,
            m,
            ef,
            efc,
            metric: self.metric,
            graph: Graph::new(),
        }
    }
}

} // verus!
