//! Half-edge names order by their index.
use vstd::prelude::*;
use std::cmp::Ordering;
use vstd::std_specs::cmp::{PartialOrdSpec, PartialOrdSpecImpl};
use crate::half_edge_mesh::HalfEdgeId;

verus! {

impl PartialOrd for HalfEdgeId {
    fn partial_cmp(&self, other: &Self) -> (r: Option<Ordering>) {
        if self.0 < other.0 {
            Some(Ordering::Less)
        } else if self.0 == other.0 {
            Some(Ordering::Equal)
        } else {
            Some(Ordering::Greater)
        }
    }
}

impl PartialOrdSpecImpl for HalfEdgeId {
    open spec fn obeys_partial_cmp_spec() -> bool {
        true
    }

    open spec fn partial_cmp_spec(&self, other: &Self) -> Option<Ordering> {
        if self.0 < other.0 {
            Some(Ordering::Less)
        } else if self.0 == other.0 {
            Some(Ordering::Equal)
        } else {
            Some(Ordering::Greater)
        }
    }
}

/// Comparing two half-edge names compares their indices.
pub proof fn lemma_id_order(a: HalfEdgeId, b: HalfEdgeId)
    ensures
        (PartialOrdSpec::partial_cmp_spec(&a, &b) == Some(Ordering::Less)) <==> a.0 < b.0,
        (PartialOrdSpec::partial_cmp_spec(&a, &b) == Some(Ordering::Equal)) <==> a.0 == b.0,
        (PartialOrdSpec::partial_cmp_spec(&a, &b) == Some(Ordering::Greater)) <==> a.0 > b.0,
{
}

} // verus!
