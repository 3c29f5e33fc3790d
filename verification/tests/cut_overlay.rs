use patina::bimesh2::{kept_edges, split_edges, VertexKind};
use patina::directed_mesh_edge::DirectedMeshEdge;
use patina::mesh_cut::cut_edges;

fn ends(edges: &[DirectedMeshEdge]) -> Vec<(usize, usize)> {
    edges.iter().map(|e| (e.v1(), e.v2())).collect()
}

#[test]
fn cut_square_keeps_lower_half() {
    let edges = vec![
        DirectedMeshEdge::new(0, 1),
        DirectedMeshEdge::new(1, 2),
        DirectedMeshEdge::new(2, 3),
        DirectedMeshEdge::new(3, 0),
    ];
    let cut = cut_edges(&[true, true, false, false], 2, &edges);
    assert_eq!(cut.kept, vec![0, 1]);
    assert_eq!(cut.crossings, vec![1, 3]);
    assert_eq!(
        ends(&cut.edges),
        vec![(2, 3), (0, 1), (1, 4), (5, 0), (3, 5), (4, 2)]
    );
}

#[test]
fn split_edges_chain_through_cuts() {
    let edges = split_edges(&[(0, 1), (1, 2)], &[vec![5, 6], vec![]]);
    assert_eq!(ends(&edges), vec![(0, 5), (5, 6), (6, 1), (1, 2)]);
}

#[test]
fn kept_edges_follow_vertex_kinds() {
    let kinds = [
        VertexKind::Mesh { mesh: 0, interior: false },
        VertexKind::Mesh { mesh: 0, interior: true },
        VertexKind::Intersect { cross: true },
        VertexKind::Intersect { cross: false },
    ];
    let edges = vec![
        DirectedMeshEdge::new(0, 2),
        DirectedMeshEdge::new(1, 2),
        DirectedMeshEdge::new(2, 3),
    ];
    assert_eq!(ends(&kept_edges(&kinds, &edges, 0, false, true)), vec![(2, 0), (3, 2)]);
    assert_eq!(ends(&kept_edges(&kinds, &edges, 1, true, false)), vec![(1, 2), (2, 3)]);
}
