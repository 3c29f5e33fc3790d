use patina::directed_mesh_edge::DirectedMeshEdge;
use patina::edge_mesh2::EdgeMesh2;
use patina::mesh_triangle::MeshTriangle;
use patina::tri_mesh2::TriMesh2;

#[test]
fn tri_mesh_holds_its_parts() {
    let m = TriMesh2::new(vec![[0.0, 0.0], [1.0, 0.0], [0.0, 1.0]], vec![MeshTriangle::new(0, 1, 2)]);
    assert_eq!(m.vertices().len(), 3);
    assert_eq!(m.tris(), &[MeshTriangle::new(0, 1, 2)]);
}

#[test]
fn polygons_close_into_loops() {
    let mut m: EdgeMesh2<[f64; 2]> = EdgeMesh2::new();
    m.add_polygon(vec![[0.0, 0.0], [1.0, 0.0], [0.0, 1.0]]);
    m.add_polygon(vec![[5.0, 5.0], [6.0, 5.0]]);
    assert_eq!(m.vertices().len(), 5);
    assert_eq!(m.vertices()[3], [5.0, 5.0]);
    let edges: Vec<[usize; 2]> = m.edges().iter().map(|e| e.vertices()).collect();
    assert_eq!(edges, vec![[0, 1], [1, 2], [2, 0], [3, 4], [4, 3]]);
}

#[test]
fn added_meshes_are_shifted_and_maybe_reversed() {
    let mut a: EdgeMesh2<u8> = EdgeMesh2::from_vecs(vec![1, 2], vec![DirectedMeshEdge::new(0, 1)]);
    let b: EdgeMesh2<u8> = EdgeMesh2::from_vecs(vec![3, 4, 5], vec![DirectedMeshEdge::new(0, 2)]);
    a.add_mesh(&b, false);
    a.add_mesh(&b, true);
    assert_eq!(a.vertices(), &[1, 2, 3, 4, 5, 3, 4, 5]);
    let edges: Vec<[usize; 2]> = a.edges().iter().map(|e| e.vertices()).collect();
    assert_eq!(edges, vec![[0, 1], [2, 4], [7, 5]]);
}

#[test]
fn dead_vertices_are_dropped_and_the_rest_renumbered() {
    let m: EdgeMesh2<char> = EdgeMesh2::from_vecs(
        vec!['a', 'b', 'c', 'd', 'e'],
        vec![DirectedMeshEdge::new(3, 1), DirectedMeshEdge::new(1, 4), DirectedMeshEdge::new(4, 3)],
    );
    let live = m.without_dead_vertices();
    assert_eq!(live.vertices(), &['d', 'b', 'e']);
    let edges: Vec<[usize; 2]> = live.edges().iter().map(|e| e.vertices()).collect();
    assert_eq!(edges, vec![[0, 1], [1, 2], [2, 0]]);
}

#[test]
fn loops_are_walked_from_the_smallest_unvisited_vertex() {
    let m: EdgeMesh2<char> = EdgeMesh2::from_vecs(
        vec!['a', 'b', 'c', 'd', 'e'],
        vec![
            DirectedMeshEdge::new(3, 4),
            DirectedMeshEdge::new(2, 0),
            DirectedMeshEdge::new(4, 3),
            DirectedMeshEdge::new(0, 1),
            DirectedMeshEdge::new(1, 2),
        ],
    );
    assert_eq!(m.as_polygons(), vec![vec!['a', 'b', 'c'], vec!['d', 'e']]);
}

#[test]
fn a_walk_stops_at_a_vertex_met_before() {
    let m: EdgeMesh2<u8> = EdgeMesh2::from_vecs(
        vec![0, 1, 2],
        vec![
            DirectedMeshEdge::new(0, 1),
            DirectedMeshEdge::new(1, 0),
            DirectedMeshEdge::new(2, 1),
        ],
    );
    assert_eq!(m.as_polygons(), vec![vec![0, 1], vec![2]]);
}
