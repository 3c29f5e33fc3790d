use patina::octree::{Octree, OctreeIndex, OctreePath, OctreeView, OctreeViewMut};
use patina::transvoxel::cube_edge::CubeEdge;
use patina::transvoxel::cube_face::CubeFace;

#[test]
fn lib_test() {}

#[test]
fn test_octree_path() {
    let path = OctreePath::new_root();
    assert_eq!("(-, -, -)", path.debug_string());
    let path = path.push_back(OctreeIndex::from([true, false, false]));
    assert_eq!("(1, 0, 0)", path.debug_string());
    let path = path.push_back(OctreeIndex::from([false, true, false]));
    assert_eq!("(10, 01, 00)", path.debug_string());
    let path = path.push_back(OctreeIndex::from([false, false, true]));
    assert_eq!("(100, 010, 001)", path.debug_string());
    let (index, path) = path.view().unwrap();
    assert_eq!("<100>", index.debug_string());
    assert_eq!("(00, 10, 01)", path.debug_string());
    let (index, path) = path.view().unwrap();
    assert_eq!("<010>", index.debug_string());
    assert_eq!("(0, 0, 1)", path.debug_string());
    let (index, path) = path.view().unwrap();
    assert_eq!("<001>", index.debug_string());
    assert_eq!("(-, -, -)", path.debug_string());
    assert!(path.view().is_none());
}

#[test]
fn view_undoes_push_back_on_one_step_path() {
    let root = OctreePath::new_root();
    let child = root.push_back(OctreeIndex::from([true, true, false]));
    assert_eq!(child.depth(), 1);
    assert_eq!(child.position(), [1, 1, 0]);
    let (index, rest) = child.view().unwrap();
    assert_eq!(index.into_array(), [true, true, false]);
    assert_eq!(rest.depth(), 0);
    assert_eq!(rest.debug_string(), root.debug_string());
}

#[test]
fn view_then_push_back_commute() {
    let p = OctreePath::new_root()
        .push_back(OctreeIndex::from([true, false, false]))
        .push_back(OctreeIndex::from([false, true, true]));
    let extended = p.push_back(OctreeIndex::from([true, true, true]));
    let (i1, r1) = extended.view().unwrap();
    let (i2, r2) = p.view().unwrap();
    assert_eq!(i1.into_array(), i2.into_array());
    let r2 = r2.push_back(OctreeIndex::from([true, true, true]));
    assert_eq!(r1.debug_string(), r2.debug_string());
}

#[test]
fn neighbours_of_a_corner_cell() {
    let p = OctreePath::new_root()
        .push_back(OctreeIndex::from([false, false, false]))
        .push_back(OctreeIndex::from([false, false, false]));
    let faces = p.face_adjacent();
    assert_eq!(faces.len(), 3);
    assert_eq!(faces[0].position(), [1, 0, 0]);
    assert_eq!(faces[1].position(), [0, 1, 0]);
    assert_eq!(faces[2].position(), [0, 0, 1]);
    let edges = p.edge_adjacent();
    assert_eq!(edges.len(), 3);
    for e in edges.iter() {
        assert_eq!(e.depth(), 2);
    }
}

#[test]
fn neighbours_of_an_inner_cell() {
    let p = OctreePath::new_root()
        .push_back(OctreeIndex::from([false, false, false]))
        .push_back(OctreeIndex::from([true, true, true]));
    assert_eq!(p.position(), [1, 1, 1]);
    assert_eq!(p.face_adjacent().len(), 6);
    assert_eq!(p.edge_adjacent().len(), 12);
    assert!(OctreePath::new_root().face_adjacent().is_empty());
}

#[test]
fn face_and_edge_neighbour_for() {
    let p = OctreePath::new_root().push_back(OctreeIndex::from([false, true, false]));
    let up = p.face_adjacent_for(CubeFace::new(1, true));
    assert!(up.is_none());
    let right = p.face_adjacent_for(CubeFace::new(0, true)).unwrap();
    assert_eq!(right.position(), [1, 1, 0]);
    let diag = p.edge_adjacent_for(CubeEdge::all()[2]);
    assert!(diag.is_none());
}

#[test]
fn octree_branches_into_children() {
    let mut tree: Octree<u32, u8> = Octree::new_root();
    assert!(matches!(tree.view(), OctreeView::Leaf(_, 0)));
    *tree.key_mut() = 7;
    assert_eq!(*tree.key(), 7);
    let values = [[[0u8, 1], [2, 3]], [[4, 5], [6, 7]]];
    tree.set_branch(values);
    assert_eq!(*tree.key(), 7);
    assert_eq!(tree.path().depth(), 0);
    match tree.view() {
        OctreeView::Branch(b) => {
            let c = b.child(OctreeIndex::from([true, false, true]));
            assert!(matches!(c.view(), OctreeView::Leaf(_, 5)));
            assert_eq!(c.path().position(), [1, 0, 1]);
            let flat = b.children_flat();
            for (i, child) in flat.iter().enumerate() {
                match child.view() {
                    OctreeView::Leaf(_, v) => assert_eq!(*v as usize, i),
                    OctreeView::Branch(_) => panic!("expected a leaf"),
                }
            }
        }
        OctreeView::Leaf(_, _) => panic!("expected a branch"),
    }
    match tree.view_mut() {
        OctreeViewMut::Branch(b) => {
            let c = b.child_mut(OctreeIndex::from([false, false, false]));
            *c.key_mut() = 3;
        }
        OctreeViewMut::Leaf(_, _) => panic!("expected a branch"),
    }
    if let OctreeView::Branch(b) = tree.view() {
        assert_eq!(*b.child(OctreeIndex::from([false, false, false])).key(), 3);
    }
    let leaf: Octree<u32, u8> = Octree::new_leaf(OctreePath::new_root(), 9);
    assert!(matches!(leaf.view(), OctreeView::Leaf(0, 9)));
}
