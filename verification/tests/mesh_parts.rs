use patina::directed_mesh_edge::DirectedMeshEdge;
use patina::mesh::Mesh;
use patina::mesh_edge::MeshEdge;
use patina::mesh_triangle::MeshTriangle;

#[test]
fn mesh_edge_orders_its_vertices() {
    let e = MeshEdge::new(5, 2);
    assert_eq!(e.v1(), 2);
    assert_eq!(e.v2(), 5);
    assert_eq!(e.vertices(), [2, 5]);
    assert!(e.shares_vertex(&MeshEdge::new(5, 9)));
    assert!(!e.shares_vertex(&MeshEdge::new(3, 9)));
    assert_eq!(MeshEdge::from([7, 1]).vertices(), [7, 1]);
}

#[test]
fn directed_edges() {
    let d = DirectedMeshEdge::new(4, 1);
    assert_eq!(d.v1(), 4);
    assert_eq!(d.v2(), 1);
    assert_eq!(d.vertices(), [4, 1]);
    assert_eq!(d.inverted(), DirectedMeshEdge::new(1, 4));
    assert_eq!(d.edge(), MeshEdge::new(1, 4));
    assert_eq!(DirectedMeshEdge::from([3, 8]), DirectedMeshEdge::new(3, 8));
}

#[test]
fn triangles_start_at_smallest_vertex() {
    assert_eq!(MeshTriangle::new(3, 1, 2).vertices(), [1, 2, 3]);
    assert_eq!(MeshTriangle::new(2, 3, 1).vertices(), [1, 2, 3]);
    assert_eq!(MeshTriangle::new(1, 3, 2).vertices(), [1, 3, 2]);
    let mut t = MeshTriangle::new(0, 1, 2);
    t.invert();
    assert_eq!(t.vertices(), [0, 2, 1]);
    let es = MeshTriangle::new(0, 4, 2).ordered_edges();
    assert_eq!(es[1], DirectedMeshEdge::new(4, 2));
    let us = MeshTriangle::new(0, 4, 2).edges();
    assert_eq!(us[1], MeshEdge::new(2, 4));
    let mut t = MeshTriangle::from([5, 6, 7]);
    t.vertices_mut()[0] = 9;
    assert_eq!(t.vertices(), [9, 6, 7]);
}

#[test]
fn mesh_holds_what_it_was_given() {
    let m = Mesh::new(vec![1u8, 2, 3], vec![MeshTriangle::new(0, 1, 2)]);
    assert_eq!(m.vertices(), &[1, 2, 3]);
    assert_eq!(m.triangles(), &[MeshTriangle::new(0, 1, 2)]);
}
