use patina::transvoxel::cube_edge::{CubeEdge, CubeEdgeSet};
use patina::transvoxel::cube_face::{CubeFace, CubeFaceSet};
use patina::transvoxel::cube_tetr::{CubeTetr, CubeTetrMesh};
use patina::transvoxel::cube_vertex::{oriented, CubeVertex, CubeVertexSet};

#[test]
fn test_volume() {
    let all_edges = CubeEdge::all();
    let all_faces = CubeFace::all();
    for edge_mask in 0u32..(1 << 12) {
        let mut edge_set = CubeEdgeSet::new();
        for (i, edge) in all_edges.iter().enumerate() {
            if edge_mask & (1 << i) != 0 {
                edge_set.set(*edge, true);
            }
        }
        for face_mask in 0u32..(1 << 6) {
            let mut face_set = CubeFaceSet::new();
            for (i, face) in all_faces.iter().enumerate() {
                if face_mask & (1 << i) != 0 {
                    face_set.set(*face, true);
                }
            }
            assert_eq!(
                CubeTetrMesh::divided_cube(&face_set, &edge_set).volume6(),
                48
            );
        }
    }
}

#[test]
fn basic_cube_has_six_tetrahedra_of_volume_eight() {
    let mesh = CubeTetrMesh::basic_cube();
    assert_eq!(mesh.tetrs().len(), 6);
    for t in mesh.tetrs() {
        assert_eq!(t.signed_volume6().abs(), 8);
    }
    assert_eq!(mesh.volume6(), 48);
}

#[test]
fn divided_cube_without_marks_is_basic_cube() {
    let mesh = CubeTetrMesh::divided_cube(&CubeFaceSet::new(), &CubeEdgeSet::new());
    assert_eq!(mesh.volume6(), 48);
    assert!(mesh.tetrs().len() >= 6);
}

#[test]
fn signed_volume_of_unit_corner() {
    let t = CubeTetr::new([
        CubeVertex::new(0, 0, 0),
        CubeVertex::new(2, 0, 0),
        CubeVertex::new(0, 2, 0),
        CubeVertex::new(0, 0, 2),
    ]);
    assert_eq!(t.signed_volume6(), 8);
    let flipped = CubeTetr::new([
        CubeVertex::new(0, 0, 0),
        CubeVertex::new(0, 2, 0),
        CubeVertex::new(2, 0, 0),
        CubeVertex::new(0, 0, 2),
    ]);
    assert_eq!(flipped.signed_volume6(), -8);
}

#[test]
fn vertex_sets() {
    let mut s = CubeVertexSet::new();
    assert!(!s.get(CubeVertex::new(1, 1, 1)));
    s.insert(CubeVertex::new(1, 1, 1));
    assert!(s.get(CubeVertex::new(1, 1, 1)));
    s.set(CubeVertex::new(1, 1, 1), false);
    assert!(!s.get(CubeVertex::new(1, 1, 1)));
    let corners = CubeVertexSet::corners();
    assert!(corners.get(CubeVertex::new(2, 0, 2)));
    assert!(!corners.get(CubeVertex::new(1, 0, 2)));
    assert!(CubeVertexSet::all().get(CubeVertex::new(1, 0, 2)));
}

#[test]
fn vertex_arithmetic() {
    let mut v = CubeVertex::new(1, 2, 0);
    assert_eq!(v.x(), 1);
    assert_eq!(v.get(1), 2);
    v.set(2, 2);
    assert_eq!(v.z(), 2);
    assert_eq!(v.add(CubeVertex::splat(1)), CubeVertex::new(2, 3, 3));
}

#[test]
fn edges_and_faces() {
    let edges = CubeEdge::all();
    assert_eq!(edges.len(), 12);
    let e = edges[5];
    assert_eq!(e.axis(), 1);
    assert_eq!(e.axis1(), 2);
    assert_eq!(e.axis2(), 0);
    assert!(!e.side1());
    assert!(e.side2());
    assert_eq!(e.vertex(1), CubeVertex::new(2, 1, 0));
    let f = CubeFace::new(2, true);
    assert_eq!(f.face_center(), CubeVertex::new(1, 1, 2));
    assert_eq!(f.other_axes(), [0, 1]);
    assert_eq!(f.other_axes_orders(), [[0, 1], [1, 0]]);
    let m = f.midpoints();
    assert_eq!(m[0], CubeVertex::new(0, 1, 2));
    assert_eq!(m[3], CubeVertex::new(1, 2, 2));
}

#[test]
fn marked_sets_add_samples() {
    let mut faces = CubeFaceSet::new();
    assert!(faces.is_empty());
    faces.set(CubeFace::new(0, false), true);
    assert!(!faces.is_empty());
    assert!(faces.get(CubeFace::new(0, false)));
    let mut mask = CubeVertexSet::new();
    faces.add_samples_to(&mut mask);
    assert!(mask.get(CubeVertex::new(0, 1, 1)));
    let mut edges = CubeEdgeSet::new();
    edges.set(CubeEdge::all()[0], true);
    assert!(!edges.is_empty());
    let mut mask = CubeVertexSet::new();
    edges.add_samples_to(&mut mask);
    assert!(mask.get(CubeVertex::new(1, 0, 0)));
}

use patina::transvoxel::cube_input::CubeInput;
use patina::transvoxel::cube_triangle::{CubeTri, CubeTriMesh};

#[test]
fn cube_triangles_become_mesh_triangles() {
    let a = CubeVertex::new(0, 0, 0);
    let b = CubeVertex::new(2, 0, 0);
    let c = CubeVertex::new(0, 2, 0);
    let t = CubeTri::new([(a, b), (b, c), (c, a)]);
    assert_eq!(t.vertices()[1], (b, c));
    let mesh = CubeTriMesh::new(vec![t, t]).into_mesh();
    assert_eq!(mesh.vertices().len(), 6);
    assert_eq!(mesh.vertices()[0], CubeVertex::new(2, 0, 0));
    assert_eq!(mesh.vertices()[1], CubeVertex::new(2, 2, 0));
    assert_eq!(mesh.triangles()[1].vertices(), [3, 4, 5]);
}

#[test]
fn cutting_a_tetrahedron() {
    let t = CubeTetr::new([
        CubeVertex::new(0, 0, 0),
        CubeVertex::new(2, 0, 0),
        CubeVertex::new(0, 2, 0),
        CubeVertex::new(0, 0, 2),
    ]);
    let vs = *t.vertices();
    assert!(CubeTetr::cut_question(&[], &vs).is_none());
    let (tri, p) = CubeTetr::cut_question(&vs[..1], &vs[1..]).unwrap();
    assert_eq!(tri, [vs[1], vs[2], vs[3]]);
    assert_eq!(p, vs[0]);
    let one = t.as_mesh_wound(&vs[..1], &vs[1..], false);
    assert_eq!(one.triangles().len(), 1);
    assert_eq!(*one.triangles()[0].vertices(), [(vs[0], vs[1]), (vs[0], vs[2]), (vs[0], vs[3])]);
    let flipped = t.as_mesh_wound(&vs[..1], &vs[1..], true);
    assert_eq!(*flipped.triangles()[0].vertices(), [(vs[0], vs[2]), (vs[0], vs[1]), (vs[0], vs[3])]);
    assert_eq!(t.as_mesh_wound(&vs[..2], &vs[2..], false).triangles().len(), 2);
    assert_eq!(t.as_mesh_wound(&vs[..3], &vs[3..], true).triangles().len(), 1);
    assert!(t.as_mesh_wound(&vs, &[], true).triangles().is_empty());
}

#[test]
fn debug_mesh_shows_every_face() {
    let mesh = CubeTetrMesh::basic_cube().as_debug_tri_mesh();
    assert_eq!(mesh.triangles().len(), 24);
}

#[test]
fn cube_with_one_inside_corner() {
    let mut inside = CubeVertexSet::new();
    inside.insert(CubeVertex::new(0, 0, 0));
    let input = CubeInput::new(CubeFaceSet::new(), CubeEdgeSet::new(), inside);
    let questions = input.cut_questions();
    assert_eq!(questions.len(), 6);
    let cut_count = questions.iter().filter(|q| q.is_some()).count();
    assert_eq!(cut_count, 6);
    let answers = vec![false; questions.len()];
    let mesh = input.as_mesh_answered(&answers);
    assert_eq!(mesh.triangles().len(), 6);
    let empty = CubeInput::new(CubeFaceSet::new(), CubeEdgeSet::new(), CubeVertexSet::new());
    assert!(empty.cut_questions().iter().all(|q| q.is_none()));
    assert!(empty.as_mesh_answered(&[false; 6]).triangles().is_empty());
}

#[test]
fn orientation_follows_the_right_hand_rule() {
    let o = CubeVertex::new(0, 0, 0);
    let x = CubeVertex::new(2, 0, 0);
    let y = CubeVertex::new(0, 2, 0);
    assert!(oriented([o, x, y], CubeVertex::new(0, 0, 2)));
    assert!(!oriented([o, y, x], CubeVertex::new(0, 0, 2)));
    assert!(!oriented([o, x, y], CubeVertex::new(1, 1, 0)));
}

#[test]
fn cut_faces_the_outside_corners() {
    let t = CubeTetr::new([
        CubeVertex::new(0, 0, 0),
        CubeVertex::new(2, 0, 0),
        CubeVertex::new(0, 2, 0),
        CubeVertex::new(0, 0, 2),
    ]);
    let vs = *t.vertices();
    // The point (0, 0, 0) is not on the outer side of the triangle (x, y, z), so the
    // triangle keeps its order.
    let one = t.as_mesh(&vs[..1], &vs[1..]);
    assert_eq!(*one.triangles()[0].vertices(), [(vs[0], vs[1]), (vs[0], vs[2]), (vs[0], vs[3])]);
    let three = t.as_mesh(&vs[1..], &vs[..1]);
    assert_eq!(three.triangles().len(), 1);
    assert!(t.as_mesh(&vs, &[]).triangles().is_empty());
}

#[test]
fn cube_cut_with_one_inside_corner_has_six_pieces() {
    let mut inside = CubeVertexSet::new();
    inside.insert(CubeVertex::new(0, 0, 0));
    let input = CubeInput::new(CubeFaceSet::new(), CubeEdgeSet::new(), inside);
    assert_eq!(input.as_mesh().triangles().len(), 6);
}
