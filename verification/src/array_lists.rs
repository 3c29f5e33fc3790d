//! The `arrayvec` crate's `ArrayVec`, in the three shapes the library fills: the six edges
//! an edge contraction removes, and the up to six face neighbours and up to twelve edge
//! neighbours of an octree cell.
use vstd::prelude::*;
use arrayvec::ArrayVec;
use crate::half_edge_mesh::HalfEdgeId;
use crate::octree::OctreePath;

verus! {

#[verifier::external_type_specification]
#[verifier::external_body]
#[verifier::reject_recursive_types(T)]
pub struct ExArrayVec<T, const CAP: usize>(ArrayVec<T, CAP>);

/// The half edges held by an `ArrayVec` of six edge names, in order.
pub uninterp spec fn removed_list_items(v: ArrayVec<HalfEdgeId, 6>) -> Seq<HalfEdgeId>;

/// `ArrayVec`'s `From<[T; CAP]>`: a full `ArrayVec` holding the array's items in order.
#[verifier::external_body]
pub(crate) fn removed_list_from(items: [HalfEdgeId; 6]) -> (r: ArrayVec<HalfEdgeId, 6>)
    ensures
        removed_list_items(r) == items@,
{
    ArrayVec::from(items)
}

/// The cells held by an `ArrayVec` of up to six octree cells, in order.
pub uninterp spec fn face_list_items(v: ArrayVec<OctreePath, 6>) -> Seq<OctreePath>;

/// The cells held by an `ArrayVec` of up to twelve octree cells, in order.
pub uninterp spec fn edge_list_items(v: ArrayVec<OctreePath, 12>) -> Seq<OctreePath>;

/// `ArrayVec::new`: an empty list.
#[verifier::external_body]
pub(crate) fn face_list_new() -> (r: ArrayVec<OctreePath, 6>)
    ensures
        face_list_items(r) == Seq::<OctreePath>::empty(),
{
    ArrayVec::new()
}

/// `ArrayVec::push` on a list below capacity: appends `p`.
#[verifier::external_body]
pub(crate) fn face_list_push(v: &mut ArrayVec<OctreePath, 6>, p: OctreePath)
    requires
        face_list_items(*old(v)).len() < 6,
    ensures
        face_list_items(*final(v)) == face_list_items(*old(v)).push(p),
{
    v.push(p);
}

/// `ArrayVec::new`: an empty list.
#[verifier::external_body]
pub(crate) fn edge_list_new() -> (r: ArrayVec<OctreePath, 12>)
    ensures
        edge_list_items(r) == Seq::<OctreePath>::empty(),
{
    ArrayVec::new()
}

/// `ArrayVec::push` on a list below capacity: appends `p`.
#[verifier::external_body]
pub(crate) fn edge_list_push(v: &mut ArrayVec<OctreePath, 12>, p: OctreePath)
    requires
        edge_list_items(*old(v)).len() < 12,
    ensures
        edge_list_items(*final(v)) == edge_list_items(*old(v)).push(p),
{
    v.push(p);
}

} // verus!
