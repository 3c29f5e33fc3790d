use patina::mesh_edge::MeshEdge;
use patina::trap_decomp::{Ray, Trap, TrapSweep, Vertical};
use patina::directed_mesh_edge::DirectedMeshEdge;
use patina::monotone_decomp::{monotone_chains, monotone_polygon, MonotoneDecomp};

#[test]
fn verticals_without_rays_ignore_direction() {
    let a = Vertical::new(3, Ray::NoRay, true);
    let b = Vertical::new(3, Ray::NoRay, false);
    assert!(a == b);
    let c = Vertical::new(3, Ray::Edge(MeshEdge::new(1, 2)), true);
    let d = Vertical::new(3, Ray::Edge(MeshEdge::new(1, 2)), false);
    assert!(c != d);
    assert!(c == Vertical::new(3, Ray::Edge(MeshEdge::new(2, 1)), true));
    assert!(c != Vertical::new(4, Ray::Edge(MeshEdge::new(1, 2)), true));
    assert!(Vertical::new(1, Ray::All, true) != Vertical::new(1, Ray::NoRay, true));
}

#[test]
fn trap_parts() {
    let t = Trap::new(
        Vertical::new(0, Ray::NoRay, false),
        Vertical::new(5, Ray::All, true),
        true,
        false,
    );
    assert_eq!(t.left().vertex(), 0);
    assert_eq!(t.right().ray(), Ray::All);
    assert!(t.right().down());
    assert!(t.top_direction());
    assert!(!t.bottom_direction());
}

fn quad_traps() -> Vec<Trap> {
    let v0 = Vertical::new(0, Ray::NoRay, false);
    let v1 = Vertical::new(1, Ray::Edge(MeshEdge::new(0, 2)), false);
    let v2 = Vertical::new(2, Ray::Edge(MeshEdge::new(1, 3)), true);
    let v3 = Vertical::new(3, Ray::NoRay, false);
    vec![
        Trap::new(v0, v1, true, true),
        Trap::new(v1, Vertical::new(7, Ray::All, true), false, true),
        Trap::new(v1, v2, true, true),
        Trap::new(v2, v3, true, true),
    ]
}

#[test]
fn chains_follow_the_trapezoids() {
    let chains = monotone_chains(&quad_traps());
    assert_eq!(chains.len(), 1);
    let vertices: Vec<usize> = chains[0].iter().map(|v| v.vertex()).collect();
    assert_eq!(vertices, vec![0, 1, 2, 3]);
}

#[test]
fn two_separate_chains() {
    let a = Vertical::new(0, Ray::NoRay, false);
    let b = Vertical::new(1, Ray::Edge(MeshEdge::new(8, 9)), false);
    let e = Vertical::new(2, Ray::NoRay, false);
    let c = Vertical::new(4, Ray::NoRay, false);
    let d = Vertical::new(5, Ray::All, true);
    let f = Vertical::new(6, Ray::NoRay, true);
    let chains = monotone_chains(&[
        Trap::new(a, b, true, true),
        Trap::new(c, d, true, true),
        Trap::new(b, e, true, true),
        Trap::new(d, f, true, true),
    ]);
    assert_eq!(chains.len(), 2);
    let first: Vec<usize> = chains[0].iter().map(|v| v.vertex()).collect();
    let second: Vec<usize> = chains[1].iter().map(|v| v.vertex()).collect();
    assert_eq!(first, vec![0, 1, 2]);
    assert_eq!(second, vec![4, 5, 6]);
}

#[test]
fn polygon_runs_lower_then_upper_back() {
    let chains = monotone_chains(&quad_traps());
    assert_eq!(monotone_polygon(&chains[0]), vec![0, 1, 3, 2]);
    let chain = vec![
        Vertical::new(0, Ray::NoRay, true),
        Vertical::new(1, Ray::All, true),
        Vertical::new(2, Ray::All, false),
        Vertical::new(3, Ray::All, true),
        Vertical::new(4, Ray::NoRay, false),
    ];
    assert_eq!(monotone_polygon(&chain), vec![2, 4, 3, 1, 0]);
}

#[test]
fn decomposition_builds_index_polygons() {
    let polygons = MonotoneDecomp::new(quad_traps()).build();
    assert_eq!(polygons, vec![vec![0, 1, 3, 2]]);
    assert!(MonotoneDecomp::new(vec![]).build().is_empty());
}

fn quad_sweep() -> Vec<Trap> {
    // The quadrilateral 0 (0, 1), 1 (1, 0), 3 (3, 1), 2 (2, 2), swept in x order 0, 1, 2, 3.
    let edges = vec![
        DirectedMeshEdge::new(0, 1),
        DirectedMeshEdge::new(1, 3),
        DirectedMeshEdge::new(3, 2),
        DirectedMeshEdge::new(2, 0),
    ];
    let mut sweep = TrapSweep::new(edges);
    let mut traps = vec![];
    traps.extend(sweep.visit(0, 0, 0, &[1, 2]));
    assert_eq!(sweep.active_edges().len(), 2);
    traps.extend(sweep.visit(1, 0, 1, &[3]));
    traps.extend(sweep.visit(2, 1, 1, &[3]));
    traps.extend(sweep.visit(3, 0, 2, &[]));
    assert!(sweep.active_edges().is_empty());
    traps
}

#[test]
fn sweep_closes_quad_trapezoids() {
    let traps = quad_sweep();
    assert_eq!(traps.len(), 3);
    assert_eq!(traps[0].left().vertex(), 0);
    assert_eq!(traps[0].left().ray(), Ray::NoRay);
    assert_eq!(traps[0].right().vertex(), 1);
    assert_eq!(traps[0].right().ray(), Ray::Edge(MeshEdge::new(0, 2)));
    assert!(!traps[0].right().down());
    assert_eq!(traps[1].left().vertex(), 1);
    assert_eq!(traps[1].right().vertex(), 2);
    assert_eq!(traps[1].right().ray(), Ray::Edge(MeshEdge::new(1, 3)));
    assert!(traps[1].right().down());
    assert_eq!(traps[2].left().vertex(), 2);
    assert_eq!(traps[2].right().vertex(), 3);
    assert_eq!(traps[2].right().ray(), Ray::NoRay);
    assert!(traps.iter().all(|t| t.top_direction() && t.bottom_direction()));
}

#[test]
fn swept_quad_is_one_monotone_polygon() {
    let polygons = MonotoneDecomp::new(quad_sweep()).try_build().unwrap();
    assert_eq!(polygons, vec![vec![1, 3, 2, 0]]);
}

#[test]
fn unfinished_chains_do_not_join() {
    let a = Vertical::new(0, Ray::NoRay, false);
    let b = Vertical::new(1, Ray::All, false);
    assert!(MonotoneDecomp::new(vec![Trap::new(a, b, true, true)]).try_build().is_none());
}
