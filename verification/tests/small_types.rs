use patina::bvh::BvhLeafView;
use patina::exact::NotExact;
use patina::sdf_leaf::{SdfEmpty, SdfFull, SdfLeaf};

#[test]
fn not_exact_compares_equal_to_itself() {
    assert_eq!(NotExact, NotExact);
    assert_eq!(format!("{:?}", NotExact), "NotExact");
}

#[test]
fn leaves_wrap_their_shape() {
    let leaf: SdfLeaf<3, SdfEmpty<3>> = SdfLeaf::new(SdfEmpty);
    assert_eq!(format!("{:?}", leaf.inner()), "SdfEmpty");
    let full: SdfLeaf<2, SdfFull<2>> = SdfLeaf::new(SdfFull);
    assert_eq!(format!("{:?}", full.inner()), "SdfFull");
}

#[test]
fn bvh_leaf_view_hands_back_its_leaf() {
    let mesh = vec![1, 2, 3];
    let leaf = 7usize;
    let view: BvhLeafView<'_, 3, Vec<i32>, usize> = BvhLeafView::new(&mesh, &leaf);
    assert_eq!(*view.leaf(), 7);
    assert_eq!(view.mesh().len(), 3);
}
