//! Robust binary search over a linear range or a compressed DAG of candidates, for oracles
//! whose answers may be flaky.
//!
//! The library holds the run-length maps over which candidate weights are kept (`range_map`
//! and its variants), the DAG of segments with its ancestor sets (`dag`), the vote-inversion
//! counters from which an oracle's flakiness is estimated (`flakiness_tracker`,
//! `compressed_dag_flakiness_tracker`), and the topological ordering of segments
//! (`segments`).

use vstd::prelude::*;

pub mod compressed_dag_flakiness_tracker;
pub mod dag;
pub mod flakiness_tracker;
pub mod range_map;
pub mod range_map2;
pub mod range_map3;
pub mod range_map5;
pub mod range_map6;
pub mod segments;

verus! {

/// Reference to a node in a CompressedDAG.
#[derive(Default, Copy, Clone, Debug, PartialEq, Eq, Structural)]
pub struct CompressedDAGNodeRef {
    /// Index of the segment in the CompressedDAG.
    pub segment: usize,
    /// Index of the expanded node within the segment.
    pub index: usize,
}

/// A segment in a CompressedDAG: one DAG node standing for a linear chain of `len` candidates.
#[derive(Clone, Debug)]
pub struct CompressedDAGSegment {
    len: usize,
}

impl CompressedDAGSegment {
    /// The number of candidates the segment stands for.
    pub closed spec fn spec_len(&self) -> nat {
        self.len as nat
    }

    /// Creates a CompressedDAGSegment of a given size.
    pub fn new(len: usize) -> (r: Self)
        ensures
            r.spec_len() == len,
    {
        CompressedDAGSegment { len }
    }

    /// Returns the size of the segment.
    pub fn len(&self) -> (r: usize)
        ensures
            r == self.spec_len(),
    {
        self.len
    }

    /// Returns true if the segment is empty.
    pub fn is_empty(&self) -> (r: bool)
        ensures
            r == (self.spec_len() == 0),
    {
        self.len == 0
    }
}

/// A DAG whose nodes are CompressedDAGSegments, each standing for a linear chain of nodes of a
/// conceptual expanded graph: only the first node of a chain has edges from outside it, and only
/// the last one has edges to outside it.
pub type CompressedDAG = dag::DAG<CompressedDAGSegment>;

} // verus!
