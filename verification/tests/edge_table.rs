use patina::directed_mesh_edge::DirectedMeshEdge;
use patina::edge_table::EdgeTable;
use patina::mesh::Mesh;
use patina::mesh_edge::MeshEdge;
use patina::mesh_triangle::MeshTriangle;

fn tetrahedron() -> Mesh<[f64; 3]> {
    Mesh::new(
        vec![[0.0; 3]; 4],
        vec![
            MeshTriangle::new(0, 1, 2),
            MeshTriangle::new(1, 0, 3),
            MeshTriangle::new(2, 1, 3),
            MeshTriangle::new(0, 2, 3),
        ],
    )
}

#[test]
fn half_wings_name_triangle_and_opposite_vertex() {
    let table = EdgeTable::new(&tetrahedron());
    let w = table.half_wing(DirectedMeshEdge::new(0, 1));
    assert_eq!(w.triangle(), 0);
    assert_eq!(w.vertex(), 2);
    let w = table.half_wing(DirectedMeshEdge::new(1, 0));
    assert_eq!(w.triangle(), 1);
    assert_eq!(w.vertex(), 3);
    let w = table.half_wing(DirectedMeshEdge::new(3, 2));
    assert_eq!(w.triangle(), 2);
    assert_eq!(w.vertex(), 1);
}

#[test]
fn wings_cover_both_sides() {
    let table = EdgeTable::new(&tetrahedron());
    let [a, b] = table.directed_wing(DirectedMeshEdge::new(2, 1));
    assert_eq!((a.triangle(), a.vertex()), (2, 3));
    assert_eq!((b.triangle(), b.vertex()), (0, 0));
    let [a, b] = table.wing(MeshEdge::new(3, 0));
    assert_eq!((a.triangle(), a.vertex()), (1, 1));
    assert_eq!((b.triangle(), b.vertex()), (3, 2));
}

#[test]
fn later_triangle_wins_a_repeated_side() {
    let mesh = Mesh::new(
        vec![[0.0; 3]; 4],
        vec![MeshTriangle::new(0, 1, 2), MeshTriangle::new(0, 1, 3)],
    );
    let table = EdgeTable::new(&mesh);
    let w = table.half_wing(DirectedMeshEdge::new(0, 1));
    assert_eq!((w.triangle(), w.vertex()), (1, 3));
}
