use patina::half_edge_mesh::{HalfEdgeError, HalfEdgeId, HalfEdgeMesh};
use patina::mesh::Mesh;
use patina::mesh_triangle::MeshTriangle;

fn tetrahedron() -> Mesh<[f64; 3]> {
    Mesh::new(
        vec![
            [0.0, 0.0, 0.0],
            [1.0, 0.0, 0.0],
            [0.0, 1.0, 0.0],
            [0.0, 0.0, 1.0],
        ],
        vec![
            MeshTriangle::new(0, 1, 2),
            MeshTriangle::new(1, 0, 3),
            MeshTriangle::new(2, 1, 3),
            MeshTriangle::new(0, 2, 3),
        ],
    )
}

#[test]
fn half_edge_mesh_test() {
    let mesh = tetrahedron();
    let mut hem = HalfEdgeMesh::new(&mesh);
    hem.check_manifold().unwrap();
    assert_eq!(
        vec![9, 3, 0],
        hem.fan(0).into_iter().map(usize::from).collect::<Vec<_>>()
    );
    assert_eq!(
        vec![6, 1, 5],
        hem.fan(1).into_iter().map(usize::from).collect::<Vec<_>>()
    );
    assert_eq!(
        vec![10, 2, 8],
        hem.fan(2).into_iter().map(usize::from).collect::<Vec<_>>()
    );
    assert_eq!(
        vec![11, 7, 4],
        hem.fan(3).into_iter().map(usize::from).collect::<Vec<_>>()
    );
    let mesh2 = hem.as_mesh();
    assert_eq!(mesh, mesh2);

    hem.contract_edge(HalfEdgeId(0));
    hem.check_manifold().unwrap();
    hem.contract_edge(HalfEdgeId(1));
    hem.check_manifold().unwrap();
}

#[test]
fn contract_edge_reports_removed_edges() {
    let mut hem = HalfEdgeMesh::new(&tetrahedron());
    let removed = hem.contract_edge(HalfEdgeId(0));
    let removed: Vec<usize> = removed.iter().map(|e| e.index()).collect();
    // Edge 0 runs 0 -> 1 in triangle (0, 1, 2); its twin is edge 5 in triangle (0, 3, 1).
    assert_eq!(removed, vec![0, 2, 9, 5, 3, 11]);
    assert_eq!(hem.edge_count(), 6);
    assert_eq!(hem.vertex_count(), 3);
    for id in removed {
        assert!(hem.get(HalfEdgeId(id)).is_none());
    }
    // Every edge that left vertex 0 now leaves vertex 1.
    for id in hem.edges() {
        assert_ne!(hem.edge(id).vertex(), 0);
    }
}

#[test]
fn contract_edge_removes_last_pillow() {
    let mut hem = HalfEdgeMesh::new(&tetrahedron());
    hem.contract_edge(HalfEdgeId(0));
    let removed = hem.contract_edge(HalfEdgeId(1));
    assert_eq!(removed.len(), 6);
    assert_eq!(hem.edge_count(), 0);
    assert_eq!(hem.vertex_count(), 0);
    assert_eq!(hem.check_manifold(), Ok(()));
}

#[test]
fn as_mesh_after_contraction_renumbers_vertices() {
    let mut hem = HalfEdgeMesh::new(&tetrahedron());
    hem.contract_edge(HalfEdgeId(0));
    let m = hem.as_mesh();
    assert_eq!(m.vertices().len(), 3);
    assert_eq!(m.vertices()[0], [1.0, 0.0, 0.0]);
    assert_eq!(m.triangles().len(), 2);
    for t in m.triangles() {
        for v in t.vertices() {
            assert!(v < 3);
        }
    }
}

#[test]
fn walker_visits_fan() {
    let hem = HalfEdgeMesh::new(&tetrahedron());
    let mut walker = hem.walk(2);
    let mut seen = vec![];
    while let Some(e) = walker.step(&hem) {
        seen.push(e.index());
    }
    assert_eq!(seen, vec![10, 2, 8]);
}

#[test]
fn mesh_triangle_of_edge() {
    let hem = HalfEdgeMesh::new(&tetrahedron());
    assert_eq!(hem.mesh_triangle(HalfEdgeId(4)), MeshTriangle::new(1, 0, 3));
    assert_eq!(hem.mesh_triangle(HalfEdgeId(5)).vertices(), [0, 3, 1]);
}

#[test]
fn pillow_is_manifold_and_contracts_away() {
    let mesh = Mesh::new(
        vec![[0.0, 0.0, 0.0], [1.0, 0.0, 0.0], [0.0, 1.0, 0.0]],
        vec![MeshTriangle::new(0, 1, 2), MeshTriangle::new(0, 2, 1)],
    );
    let hem = HalfEdgeMesh::new(&mesh);
    assert_eq!(hem.check_manifold(), Ok(()));
    let mut hem = HalfEdgeMesh::new(&mesh);
    let removed = hem.contract_edge(HalfEdgeId(0));
    assert_eq!(removed.len(), 6);
    assert_eq!(hem.edge_count(), 0);
}

#[test]
fn check_manifold_reports_shared_vertex() {
    let mut vertices = vec![[0.0; 3]; 7];
    vertices[1] = [1.0, 0.0, 0.0];
    let mesh = Mesh::new(
        vertices,
        vec![
            MeshTriangle::new(0, 1, 2),
            MeshTriangle::new(1, 0, 3),
            MeshTriangle::new(2, 1, 3),
            MeshTriangle::new(0, 2, 3),
            MeshTriangle::new(0, 4, 5),
            MeshTriangle::new(4, 0, 6),
            MeshTriangle::new(5, 4, 6),
            MeshTriangle::new(0, 5, 6),
        ],
    );
    let hem = HalfEdgeMesh::new(&mesh);
    assert!(matches!(hem.check_manifold(), Err(HalfEdgeError::BadFan(0, _))));
}

#[test]
fn contraction_blocked_by_degree_and_shared_neighbours() {
    let hem = HalfEdgeMesh::new(&tetrahedron());
    // In a tetrahedron the two ends of an edge share only the two vertices across it.
    assert!(!hem.contraction_blocked(HalfEdgeId(0), 30));
    // Each vertex has three neighbours and three edges out: 3 + 3 = 6.
    assert!(hem.contraction_blocked(HalfEdgeId(0), 6));
    assert!(!hem.contraction_blocked(HalfEdgeId(0), 7));
}

#[test]
fn round_trip_keeps_vertices_and_triangles() {
    let mesh = tetrahedron();
    let hem = HalfEdgeMesh::new(&mesh);
    let back = hem.as_mesh();
    assert_eq!(back.vertices(), mesh.vertices());
    assert_eq!(back.triangles(), mesh.triangles());
}

fn octahedron() -> Mesh<[f64; 3]> {
    Mesh::new(
        vec![
            [1.0, 0.0, 0.0],
            [-1.0, 0.0, 0.0],
            [0.0, 1.0, 0.0],
            [0.0, -1.0, 0.0],
            [0.0, 0.0, 1.0],
            [0.0, 0.0, -1.0],
        ],
        vec![
            MeshTriangle::new(0, 2, 4),
            MeshTriangle::new(2, 1, 4),
            MeshTriangle::new(1, 3, 4),
            MeshTriangle::new(3, 0, 4),
            MeshTriangle::new(2, 0, 5),
            MeshTriangle::new(1, 2, 5),
            MeshTriangle::new(3, 1, 5),
            MeshTriangle::new(0, 3, 5),
        ],
    )
}

#[test]
fn unblocked_contraction_keeps_octahedron_manifold() {
    let mesh = octahedron();
    let mut contracted = 0;
    for id in 0..24 {
        let mut hem = HalfEdgeMesh::new(&mesh);
        hem.check_manifold().unwrap();
        assert!(!hem.contraction_blocked(HalfEdgeId(id), 30));
        hem.contract_edge(HalfEdgeId(id));
        assert!(hem.check_manifold().is_ok());
        assert_eq!(hem.vertex_count(), 5);
        assert_eq!(hem.edge_count(), 18);
        contracted += 1;
    }
    assert_eq!(contracted, 24);
}

#[test]
fn repeated_unblocked_contractions_stay_manifold() {
    let mut hem = HalfEdgeMesh::new(&octahedron());
    while hem.vertex_count() > 3 {
        let next = hem
            .edges()
            .into_iter()
            .find(|&id| !hem.contraction_blocked(id, 30));
        match next {
            Some(id) => {
                hem.contract_edge(id);
                hem.check_manifold().unwrap();
            }
            None => break,
        }
    }
    assert!(hem.vertex_count() <= 4);
}

#[test]
fn half_edge_ids_order_by_index() {
    assert!(HalfEdgeId::new(2) < HalfEdgeId::new(5));
    assert!(HalfEdgeId::new(5) > HalfEdgeId::new(2));
    assert!(HalfEdgeId::new(3) <= HalfEdgeId::new(3));
    assert_eq!(HalfEdgeId::new(7).index(), 7);
}
