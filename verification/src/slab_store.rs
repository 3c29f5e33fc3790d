//! The `slab` crate's `Slab`, as the half-edge mesh uses it for its vertices and edges.
use vstd::prelude::*;
use slab::Slab;
use crate::half_edge_mesh::{HalfEdge, HalfEdgeVertex};

verus! {

#[verifier::external_type_specification]
#[verifier::external_body]
#[verifier::reject_recursive_types(T)]
pub struct ExSlab<T>(Slab<T>);

/// What a slab of half edges holds: its occupied keys and their entries.
pub uninterp spec fn edge_slab_contents(s: Slab<HalfEdge>) -> Map<usize, HalfEdge>;

/// What a slab of vertices holds: its occupied keys and their entries.
pub uninterp spec fn vertex_slab_contents(s: Slab<HalfEdgeVertex>) -> Map<usize, HalfEdgeVertex>;

/// `Slab`'s `FromIterator<(usize, T)>` on `items` numbered from 0: each item is stored under
/// its position.
#[verifier::external_body]
pub(crate) fn edge_slab_from_vec(items: Vec<HalfEdge>) -> (r: Slab<HalfEdge>)
    ensures
        edge_slab_contents(r) == Map::new(|k: usize| k < items.len(), |k: usize| items@[k as int]),
{
    items.into_iter().enumerate().collect()
}

/// `Slab::get`: the entry under `key`, if that key is occupied.
#[verifier::external_body]
pub(crate) fn edge_slab_get(s: &Slab<HalfEdge>, key: usize) -> (r: Option<&HalfEdge>)
    ensures
        match r {
            Some(e) => edge_slab_contents(*s).contains_key(key) && *e == edge_slab_contents(*s)[key],
            None => !edge_slab_contents(*s).contains_key(key),
        },
{
    s.get(key)
}

/// `Slab`'s `IndexMut`, used to overwrite the entry under an occupied `key`.
#[verifier::external_body]
pub(crate) fn edge_slab_set(s: &mut Slab<HalfEdge>, key: usize, value: HalfEdge)
    requires
        edge_slab_contents(*old(s)).contains_key(key),
    ensures
        edge_slab_contents(*final(s)) == edge_slab_contents(*old(s)).insert(key, value),
{
    s[key] = value;
}

/// `Slab::remove`: takes out the entry under an occupied `key`.
#[verifier::external_body]
pub(crate) fn edge_slab_remove(s: &mut Slab<HalfEdge>, key: usize) -> (r: HalfEdge)
    requires
        edge_slab_contents(*old(s)).contains_key(key),
    ensures
        r == edge_slab_contents(*old(s))[key],
        edge_slab_contents(*final(s)) == edge_slab_contents(*old(s)).remove(key),
{
    s.remove(key)
}

/// `Slab::iter`, keeping the keys: the occupied keys in increasing order. Keys are
/// positions in the slab's `Vec` of entries, so none reaches `usize::MAX`.
#[verifier::external_body]
pub(crate) fn edge_slab_keys(s: &Slab<HalfEdge>) -> (r: Vec<usize>)
    ensures
        forall|i: int, j: int| 0 <= i < j < r.len() ==> r[i] < r[j],
        forall|i: int| 0 <= i < r.len() ==> r[i] < usize::MAX,
        forall|k: usize| edge_slab_contents(*s).contains_key(k) <==> r@.contains(k),
{
    s.iter().map(|(k, _)| k).collect()
}

/// `Slab`'s `FromIterator<(usize, T)>` on `items` numbered from 0: each item is stored under
/// its position.
#[verifier::external_body]
pub(crate) fn vertex_slab_from_vec(items: Vec<HalfEdgeVertex>) -> (r: Slab<HalfEdgeVertex>)
    ensures
        vertex_slab_contents(r) == Map::new(|k: usize| k < items.len(), |k: usize| items@[k as int]),
{
    items.into_iter().enumerate().collect()
}

/// `Slab::get`: the entry under `key`, if that key is occupied.
#[verifier::external_body]
pub(crate) fn vertex_slab_get(s: &Slab<HalfEdgeVertex>, key: usize) -> (r: Option<&HalfEdgeVertex>)
    ensures
        match r {
            Some(v) => vertex_slab_contents(*s).contains_key(key) && *v == vertex_slab_contents(*s)[key],
            None => !vertex_slab_contents(*s).contains_key(key),
        },
{
    s.get(key)
}

/// `Slab`'s `IndexMut`, used to overwrite the entry under an occupied `key`.
#[verifier::external_body]
pub(crate) fn vertex_slab_set(s: &mut Slab<HalfEdgeVertex>, key: usize, value: HalfEdgeVertex)
    requires
        vertex_slab_contents(*old(s)).contains_key(key),
    ensures
        vertex_slab_contents(*final(s)) == vertex_slab_contents(*old(s)).insert(key, value),
{
    s[key] = value;
}

/// `Slab::remove`: takes out the entry under an occupied `key`.
#[verifier::external_body]
pub(crate) fn vertex_slab_remove(s: &mut Slab<HalfEdgeVertex>, key: usize) -> (r: HalfEdgeVertex)
    requires
        vertex_slab_contents(*old(s)).contains_key(key),
    ensures
        r == vertex_slab_contents(*old(s))[key],
        vertex_slab_contents(*final(s)) == vertex_slab_contents(*old(s)).remove(key),
{
    s.remove(key)
}

/// `Slab::iter`, keeping the keys: the occupied keys in increasing order. Keys are
/// positions in the slab's `Vec` of entries, so none reaches `usize::MAX`.
#[verifier::external_body]
pub(crate) fn vertex_slab_keys(s: &Slab<HalfEdgeVertex>) -> (r: Vec<usize>)
    ensures
        forall|i: int, j: int| 0 <= i < j < r.len() ==> r[i] < r[j],
        forall|i: int| 0 <= i < r.len() ==> r[i] < usize::MAX,
        forall|k: usize| vertex_slab_contents(*s).contains_key(k) <==> r@.contains(k),
{
    s.iter().map(|(k, _)| k).collect()
}

/// `Slab::len`: the number of occupied keys.
#[verifier::external_body]
pub(crate) fn vertex_slab_len(s: &Slab<HalfEdgeVertex>) -> (r: usize)
    ensures
        r == vertex_slab_contents(*s).dom().len(),
{
    s.len()
}

/// `Slab::len`: the number of occupied keys.
#[verifier::external_body]
pub(crate) fn edge_slab_len(s: &Slab<HalfEdge>) -> (r: usize)
    ensures
        r == edge_slab_contents(*s).dom().len(),
{
    s.len()
}

} // verus!
