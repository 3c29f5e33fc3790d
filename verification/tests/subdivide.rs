use patina::directed_mesh_edge::DirectedMeshEdge;
use patina::mesh_edge::MeshEdge;
use patina::mesh_triangle::MeshTriangle;
use patina::subdivide::{split_triangles, EdgeSplits};

#[test]
fn splits_are_numbered_after_the_old_vertices() {
    let splits = EdgeSplits::new(
        &[DirectedMeshEdge::new(0, 1), DirectedMeshEdge::new(2, 1)],
        10,
    );
    assert_eq!(splits.get(MeshEdge::new(0, 1)), Some(10));
    assert_eq!(splits.get(MeshEdge::new(1, 2)), Some(11));
    assert_eq!(splits.get(MeshEdge::new(0, 2)), None);
    let again = EdgeSplits::new(
        &[DirectedMeshEdge::new(0, 1), DirectedMeshEdge::new(1, 0)],
        4,
    );
    assert_eq!(again.get(MeshEdge::new(0, 1)), Some(5));
}

#[test]
fn undivided_triangle_is_kept() {
    let splits = EdgeSplits::new(&[], 3);
    let tris = [MeshTriangle::new(0, 1, 2)];
    assert_eq!(split_triangles(&tris, &splits), vec![MeshTriangle::new(0, 1, 2)]);
}

#[test]
fn one_divided_side_gives_two_triangles() {
    let splits = EdgeSplits::new(&[DirectedMeshEdge::new(1, 2)], 3);
    let tris = [MeshTriangle::new(0, 1, 2)];
    assert_eq!(
        split_triangles(&tris, &splits),
        vec![MeshTriangle::new(1, 3, 0), MeshTriangle::new(3, 2, 0)]
    );
}

#[test]
fn two_divided_sides_give_three_triangles() {
    let splits = EdgeSplits::new(
        &[DirectedMeshEdge::new(0, 1), DirectedMeshEdge::new(1, 2)],
        3,
    );
    let tris = [MeshTriangle::new(0, 1, 2)];
    assert_eq!(
        split_triangles(&tris, &splits),
        vec![
            MeshTriangle::new(3, 1, 4),
            MeshTriangle::new(0, 3, 4),
            MeshTriangle::new(2, 0, 4),
        ]
    );
}

#[test]
fn three_divided_sides_give_four_triangles() {
    let splits = EdgeSplits::new(
        &[
            DirectedMeshEdge::new(0, 1),
            DirectedMeshEdge::new(1, 2),
            DirectedMeshEdge::new(2, 0),
        ],
        3,
    );
    let tris = [MeshTriangle::new(0, 1, 2)];
    assert_eq!(
        split_triangles(&tris, &splits),
        vec![
            MeshTriangle::new(3, 1, 4),
            MeshTriangle::new(4, 2, 5),
            MeshTriangle::new(5, 0, 3),
            MeshTriangle::new(3, 4, 5),
        ]
    );
}
