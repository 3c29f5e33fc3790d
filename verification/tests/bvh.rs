use patina::bvh::{partition_leaves, BvhBuilder};

fn sorted(mut v: Vec<usize>) -> Vec<usize> {
    v.sort();
    v
}

#[test]
fn small_group_is_one_leaf_node() {
    let mut b = BvhBuilder::new();
    let never = |_: &[usize]| -> Vec<bool> { panic!("a small group is never split") };
    let root = b.add_leaves(&[7, 8, 9], &never);
    assert_eq!(root, 0);
    let nodes = b.into_nodes();
    assert_eq!(nodes.len(), 1);
    assert!(nodes[0].nodes().is_empty());
    assert_eq!(nodes[0].leaves(), &[7, 8, 9]);
}

#[test]
fn large_group_splits_as_told() {
    let mut b = BvhBuilder::new();
    // Send the larger half of each group to the right.
    let halves = |s: &[usize]| -> Vec<bool> { s.iter().map(|&x| x >= 4).collect() };
    let root = b.add_leaves(&[0, 5, 1, 6, 2, 7, 3, 4], &halves);
    let nodes = b.into_nodes();
    assert_eq!(root, nodes.len() - 1);
    assert_eq!(nodes.len(), 3);
    assert_eq!(nodes[0].leaves(), &[0, 1, 2, 3]);
    assert_eq!(nodes[1].leaves(), &[5, 6, 7, 4]);
    assert_eq!(nodes[2].nodes(), &[0, 1]);
    assert!(nodes[2].leaves().is_empty());
}

#[test]
fn one_sided_split_keeps_the_group_whole() {
    let mut b = BvhBuilder::new();
    let all_right = |s: &[usize]| -> Vec<bool> { vec![true; s.len()] };
    b.add_leaves(&[3, 1, 4, 1, 5], &all_right);
    let wrong_length = |_: &[usize]| -> Vec<bool> { vec![true] };
    b.add_leaves(&[9, 2, 6, 5], &wrong_length);
    let nodes = b.into_nodes();
    assert_eq!(nodes.len(), 2);
    assert_eq!(nodes[0].leaves(), &[3, 1, 4, 1, 5]);
    assert_eq!(nodes[1].leaves(), &[9, 2, 6, 5]);
}

#[test]
fn every_leaf_lands_in_one_node() {
    let mut b = BvhBuilder::new();
    let alternate = |s: &[usize]| -> Vec<bool> { (0..s.len()).map(|i| i % 2 == 1).collect() };
    let leaves: Vec<usize> = (0..37).map(|i| (i * 7) % 11).collect();
    b.add_node(&leaves[..20], &leaves[20..], &alternate);
    let nodes = b.into_nodes();
    let mut held = vec![];
    for n in &nodes {
        assert!(n.nodes().is_empty() || (n.nodes().len() == 2 && n.leaves().is_empty()));
        held.extend_from_slice(n.leaves());
    }
    assert_eq!(sorted(held), sorted(leaves));
    assert_eq!(nodes.last().unwrap().nodes().len(), 2);
}

#[test]
fn partition_keeps_order_on_each_side() {
    let (l, r) = partition_leaves(&[10, 11, 12, 13, 14], &[true, false, false, true, false]);
    assert_eq!(l, vec![11, 12, 14]);
    assert_eq!(r, vec![10, 13]);
}
