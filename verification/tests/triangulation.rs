use patina::mesh_triangle::MeshTriangle;
use patina::trap_decomp::{Ray, Vertical};
use patina::triangulation::{diagonalize_monotonic, mono_vertices, MonoSide, MonoVertex};
use std::cell::Cell;

fn mono(list: &[(usize, MonoSide)]) -> Vec<MonoVertex> {
    list.iter().map(|&(v, s)| MonoVertex::new(v, s)).collect()
}

#[test]
fn triangle_is_one_piece() {
    // The triangle (0, 0), (2, 1), (1, 2) in sweep order; (1, 2) lies on the upper chain.
    let m = mono(&[(0, MonoSide::Up), (2, MonoSide::Down), (1, MonoSide::Up)]);
    let mut tris = vec![];
    diagonalize_monotonic(&m, &|_: MeshTriangle| true, &mut tris);
    assert_eq!(tris.len(), 1);
    assert_eq!(tris[0].vertices(), [0, 1, 2]);
}

#[test]
fn two_vertices_give_one_piece() {
    let m = mono(&[(4, MonoSide::Up), (7, MonoSide::Down)]);
    let mut tris = vec![MeshTriangle::new(0, 1, 2)];
    diagonalize_monotonic(&m, &|_: MeshTriangle| true, &mut tris);
    assert_eq!(tris.len(), 2);
    assert_eq!(tris[0].vertices(), [0, 1, 2]);
    assert_eq!(tris[1].vertices(), [4, 7, 7]);
}

#[test]
fn opposite_chain_fans_out_to_the_stack() {
    // Two lower vertices, then an upper one: it fans out to both.
    let m = mono(&[
        (0, MonoSide::Up),
        (1, MonoSide::Up),
        (2, MonoSide::Up),
        (3, MonoSide::Down),
        (4, MonoSide::Up),
    ]);
    let mut tris = vec![];
    diagonalize_monotonic(&m, &|_: MeshTriangle| false, &mut tris);
    assert_eq!(tris.len(), 3);
    // Vertex 2 cannot cut off (2, 1, 0); vertex 3 then fans out to 2, 1 and 0.
    assert_eq!(tris[0].vertices(), [1, 2, 3]);
    assert_eq!(tris[1].vertices(), [0, 1, 3]);
    // The last vertex closes the fan on the stack (2, 3).
    assert_eq!(tris[2].vertices(), [2, 4, 3]);
}

#[test]
fn count_does_not_depend_on_the_answers() {
    let sides = [
        MonoSide::Up,
        MonoSide::Up,
        MonoSide::Down,
        MonoSide::Down,
        MonoSide::Up,
        MonoSide::Up,
        MonoSide::Up,
        MonoSide::Down,
        MonoSide::Up,
    ];
    let m: Vec<MonoVertex> = sides.iter().enumerate().map(|(v, &s)| MonoVertex::new(v + 10, s)).collect();
    for pattern in 0u32..16 {
        let calls = Cell::new(0u32);
        let keeps = |_: MeshTriangle| {
            let k = calls.get();
            calls.set(k + 1);
            pattern & (1 << (k % 4)) != 0
        };
        let mut tris = vec![];
        diagonalize_monotonic(&m, &keeps, &mut tris);
        assert_eq!(tris.len(), m.len() - 2);
        for t in &tris {
            let [a, b, c] = t.vertices();
            assert!(a != b && b != c && a != c);
            assert!([a, b, c].iter().all(|v| (10..19).contains(v)));
        }
    }
}

#[test]
fn chain_vertices_keep_their_side() {
    let chain = vec![
        Vertical::new(5, Ray::NoRay, false),
        Vertical::new(6, Ray::All, true),
        Vertical::new(7, Ray::NoRay, false),
    ];
    let m = mono_vertices(&chain);
    assert_eq!(m, mono(&[(5, MonoSide::Up), (6, MonoSide::Down), (7, MonoSide::Up)]));
    assert_eq!(m[1].vertex(), 6);
    assert_eq!(m[1].side(), MonoSide::Down);
}
