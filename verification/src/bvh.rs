//! The structure of a bounding volume hierarchy: which leaves each node holds and which
//! nodes it splits into, and a leaf as its users see it. The boxes and the cost of a split
//! are measured by the caller, which tells the builder how to split each group of leaves.
use vstd::prelude::*;
use vstd::multiset::Multiset;

verus! {

broadcast use {vstd::seq_lib::group_to_multiset_ensures, vstd::multiset::group_multiset_axioms};

/// A leaf of a hierarchy over a mesh of type `M`, in `N` dimensions, holding a `V`.
pub struct BvhLeafView<'a, const N: usize, M, V> {
    mesh: &'a M,
    leaf: &'a V,
}

impl<'a, const N: usize, M, V> BvhLeafView<'a, N, M, V> {
    pub closed spec fn spec_mesh(&self) -> &'a M {
        self.mesh
    }

    pub closed spec fn spec_leaf(&self) -> &'a V {
        self.leaf
    }

    pub fn new(mesh: &'a M, leaf: &'a V) -> (r: Self)
        ensures
            r.spec_mesh() == mesh,
            r.spec_leaf() == leaf,
    {
        BvhLeafView { mesh, leaf }
    }

    /// What the leaf holds.
    pub fn leaf(&self) -> (r: &'a V)
        ensures
            r == self.spec_leaf(),
    {
        self.leaf
    }

    /// The mesh the hierarchy covers.
    pub fn mesh(&self) -> (r: &'a M)
        ensures
            r == self.spec_mesh(),
    {
        self.mesh
    }
}


/// A node of a hierarchy: the nodes it splits into (none for a leaf node, two otherwise)
/// and the leaves it holds directly.
pub struct BvhNode {
    nodes: Vec<usize>,
    leaves: Vec<usize>,
}

impl View for BvhNode {
    type V = (Seq<usize>, Seq<usize>);

    closed spec fn view(&self) -> (Seq<usize>, Seq<usize>) {
        (self.nodes@, self.leaves@)
    }
}

impl BvhNode {
    /// The indices of the nodes this one splits into.
    pub fn nodes(&self) -> (r: &[usize])
        ensures
            r@ == self@.0,
    {
        self.nodes.as_slice()
    }

    /// The leaves this node holds directly.
    pub fn leaves(&self) -> (r: &[usize])
        ensures
            r@ == self@.1,
    {
        self.leaves.as_slice()
    }
}

/// Every leaf held by the first `n` nodes, counted with multiplicity.
pub open spec fn leaves_upto(ns: Seq<(Seq<usize>, Seq<usize>)>, n: int) -> Multiset<usize>
    decreases n,
{
    if n <= 0 {
        Multiset::empty()
    } else {
        leaves_upto(ns, n - 1).add(ns[n - 1].1.to_multiset())
    }
}

/// Every leaf held by a node of `ns`, counted with multiplicity.
pub open spec fn all_leaves(ns: Seq<(Seq<usize>, Seq<usize>)>) -> Multiset<usize> {
    leaves_upto(ns, ns.len() as int)
}

/// Node `i` of `ns` is a leaf node, or splits into two nodes built before it and holds no
/// leaves itself.
pub open spec fn node_shaped(ns: Seq<(Seq<usize>, Seq<usize>)>, i: int) -> bool {
    ||| ns[i].0.len() == 0
    ||| ns[i].0.len() == 2 && ns[i].1.len() == 0 && ns[i].0[0] < i && ns[i].0[1] < i
}

/// Every node of `ns` is shaped as [`node_shaped`] says.
pub open spec fn well_shaped(ns: Seq<(Seq<usize>, Seq<usize>)>) -> bool {
    forall|i: int| 0 <= i < ns.len() ==> #[trigger] node_shaped(ns, i)
}

proof fn lemma_leaves_upto_prefix(ns: Seq<(Seq<usize>, Seq<usize>)>, more: Seq<(Seq<usize>, Seq<usize>)>, n: int)
    requires
        0 <= n <= ns.len(),
    ensures
        leaves_upto(ns + more, n) == leaves_upto(ns, n),
    decreases n,
{
    if n > 0 {
        lemma_leaves_upto_prefix(ns, more, n - 1);
        assert((ns + more)[n - 1] == ns[n - 1]);
    }
}

proof fn lemma_leaves_push(ns: Seq<(Seq<usize>, Seq<usize>)>, node: (Seq<usize>, Seq<usize>))
    ensures
        all_leaves(ns.push(node)) == all_leaves(ns).add(node.1.to_multiset()),
{
    lemma_leaves_upto_prefix(ns, seq![node], ns.len() as int);
    assert(ns + seq![node] =~= ns.push(node));
}

fn copied(s: &[usize]) -> (r: Vec<usize>)
    ensures
        r@ == s@,
{
    let mut r: Vec<usize> = Vec::new();
    let mut i: usize = 0;
    while i < s.len()
        invariant
            i <= s.len(),
            r@ == s@.take(i as int),
        decreases s.len() - i,
    {
        r.push(s[i]);
        i = i + 1;
        assert(r@ =~= s@.take(i as int));
    }
    assert(s@.take(s.len() as int) =~= s@);
    r
}

/// The first `n` of `leaves` whose entry in `sides` is `side`, in order.
pub open spec fn picked(leaves: Seq<usize>, sides: Seq<bool>, side: bool, n: int) -> Seq<usize>
    decreases n,
{
    if n <= 0 {
        Seq::empty()
    } else if sides[n - 1] == side {
        picked(leaves, sides, side, n - 1).push(leaves[n - 1])
    } else {
        picked(leaves, sides, side, n - 1)
    }
}

/// Splits `leaves` in two by `sides`: those marked `false` go left and those marked `true`
/// right, each side keeping its order. Together they hold every leaf once.
pub fn partition_leaves(leaves: &[usize], sides: &[bool]) -> (r: (Vec<usize>, Vec<usize>))
    requires
        sides.len() == leaves.len(),
    ensures
        r.0@ == picked(leaves@, sides@, false, leaves.len() as int),
        r.1@ == picked(leaves@, sides@, true, leaves.len() as int),
        r.0@.to_multiset().add(r.1@.to_multiset()) == leaves@.to_multiset(),
        r.0.len() + r.1.len() == leaves.len(),
{
    let mut left: Vec<usize> = Vec::new();
    let mut right: Vec<usize> = Vec::new();
    let mut i: usize = 0;
    while i < leaves.len()
        invariant
            i <= leaves.len(),
            sides.len() == leaves.len(),
            left@ == picked(leaves@, sides@, false, i as int),
            right@ == picked(leaves@, sides@, true, i as int),
            left.len() + right.len() == i,
            left@.to_multiset().add(right@.to_multiset()) == leaves@.take(i as int).to_multiset(),
        decreases leaves.len() - i,
    {
        proof {
            assert(leaves@.take(i + 1) =~= leaves@.take(i as int).push(leaves@[i as int]));
        }
        let ghost (l0, r0) = (left@, right@);
        let x = leaves[i];
        if sides[i] {
            right.push(x);
            assert(left@.to_multiset().add(right@.to_multiset()) =~= l0.to_multiset().add(
                r0.to_multiset(),
            ).insert(x));
        } else {
            left.push(x);
            assert(left@.to_multiset().add(right@.to_multiset()) =~= l0.to_multiset().add(
                r0.to_multiset(),
            ).insert(x));
        }
        i = i + 1;
    }
    assert(leaves@.take(leaves.len() as int) =~= leaves@);
    (left, right)
}

/// Builds the nodes of a hierarchy bottom up: a node is pushed after the nodes it splits into.
pub struct BvhBuilder {
    nodes: Vec<BvhNode>,
    max_split_size: usize,
}

impl View for BvhBuilder {
    type V = Seq<(Seq<usize>, Seq<usize>)>;

    closed spec fn view(&self) -> Seq<(Seq<usize>, Seq<usize>)> {
        self.nodes@.map_values(|n: BvhNode| n@)
    }
}

impl BvhBuilder {
    /// Groups of fewer leaves than this are never split.
    pub closed spec fn spec_max_split_size(&self) -> usize {
        self.max_split_size
    }

    /// A builder with no nodes, splitting groups of four leaves or more.
    pub fn new() -> (r: Self)
        ensures
            r@ == Seq::<(Seq<usize>, Seq<usize>)>::empty(),
            r.spec_max_split_size() == 4,
    {
        let r = BvhBuilder { nodes: Vec::new(), max_split_size: 4 };
        assert(r@ =~= Seq::<(Seq<usize>, Seq<usize>)>::empty());
        r
    }

    /// The nodes built so far, in the order they were pushed.
    pub fn into_nodes(self) -> (r: Vec<BvhNode>)
        ensures
            r@.map_values(|n: BvhNode| n@) == self@,
    {
        self.nodes
    }

    fn push(&mut self, node: BvhNode) -> (r: usize)
        ensures
            final(self)@ == old(self)@.push(node@),
            final(self).spec_max_split_size() == old(self).spec_max_split_size(),
            r == old(self)@.len(),
    {
        let ghost before = self@;
        self.nodes.push(node);
        assert(self@ =~= before.push(node@));
        self.nodes.len() - 1
    }

    /// Pushes a leaf node holding `leaves`; returns its index.
    pub fn add_leaf(&mut self, leaves: &[usize]) -> (r: usize)
        ensures
            final(self)@ == old(self)@.push((Seq::<usize>::empty(), leaves@)),
            final(self).spec_max_split_size() == old(self).spec_max_split_size(),
            r == old(self)@.len(),
    {
        let node = BvhNode { nodes: Vec::new(), leaves: copied(leaves) };
        assert(node@ == (Seq::<usize>::empty(), leaves@));
        self.push(node)
    }

    /// Pushes a node splitting into the nodes built from `left` and from `right` (each as
    /// [`Self::add_leaves`] builds it, splitting further where `split_by` says); returns its index.
    pub fn add_node<F: Fn(&[usize]) -> Vec<bool>>(&mut self, left: &[usize], right: &[usize], split_by: &F) -> (r: usize)
        requires
            well_shaped(old(self)@),
            forall|s: &[usize]| call_requires(*split_by, (s,)),
        ensures
            well_shaped(final(self)@),
            final(self).spec_max_split_size() == old(self).spec_max_split_size(),
            old(self)@.len() < final(self)@.len(),
            final(self)@.take(old(self)@.len() as int) == old(self)@,
            r == final(self)@.len() - 1,
            final(self)@[r as int].0.len() == 2,
            all_leaves(final(self)@) == all_leaves(old(self)@).add(left@.to_multiset()).add(
                right@.to_multiset(),
            ),
    {
        let ghost start = self@;
        let l = self.add_leaves(left, split_by);
        let ghost mid = self@;
        let r = self.add_leaves(right, split_by);
        let ghost end = self@;
        let node = BvhNode { nodes: vec![l, r], leaves: Vec::new() };
        let i = self.push(node);
        proof {
            lemma_leaves_push(end, node@);
            assert(node@.1 =~= Seq::<usize>::empty());
            assert(node@.1.to_multiset() =~= Multiset::empty());
            assert(self@.take(start.len() as int) =~= start) by {
                assert(mid.take(start.len() as int) == start);
                assert(end.take(mid.len() as int) == mid);
            }
            assert forall|k: int| 0 <= k < self@.len() implies #[trigger] node_shaped(self@, k) by {
                if k < end.len() {
                    assert(node_shaped(end, k));
                    assert(self@[k] == end[k]);
                }
            }
        }
        i
    }

    /// Builds the nodes holding `leaves` and returns the index of their root. A group smaller
    /// than [`Self::spec_max_split_size`] becomes one leaf node. A larger group is split as
    /// `split_by` says: the leaves whose entry in its answer is `true` go to the right, the
    /// others to the left, each side keeping its order and split further in turn. Where one
    /// side would be empty, or the answer does not give one entry per leaf, the group stays
    /// one leaf node. Every leaf lands in exactly one new node.
    pub fn add_leaves<F: Fn(&[usize]) -> Vec<bool>>(&mut self, leaves: &[usize], split_by: &F) -> (r: usize)
        requires
            well_shaped(old(self)@),
            forall|s: &[usize]| call_requires(*split_by, (s,)),
        ensures
            well_shaped(final(self)@),
            final(self).spec_max_split_size() == old(self).spec_max_split_size(),
            old(self)@.len() < final(self)@.len(),
            final(self)@.take(old(self)@.len() as int) == old(self)@,
            r == final(self)@.len() - 1,
            all_leaves(final(self)@) == all_leaves(old(self)@).add(leaves@.to_multiset()),
            leaves.len() < old(self).spec_max_split_size() ==> final(self)@ == old(self)@.push(
                (Seq::<usize>::empty(), leaves@),
            ),
            final(self)@[r as int].0.len() == 0 ==> final(self)@ == old(self)@.push(
                (Seq::<usize>::empty(), leaves@),
            ),
        decreases leaves.len(),
    {
        let ghost start = self@;
        if leaves.len() < self.max_split_size {
            let r = self.add_leaf(leaves);
            proof {
                lemma_leaves_push(start, (Seq::<usize>::empty(), leaves@));
                assert(self@.take(start.len() as int) =~= start);
                assert forall|k: int| 0 <= k < self@.len() implies #[trigger] node_shaped(self@, k) by {
                    if k < start.len() {
                        assert(node_shaped(start, k));
                    }
                }
            }
            return r;
        }
        let sides = split_by(leaves);
        let (left, right) = if sides.len() == leaves.len() {
            partition_leaves(leaves, sides.as_slice())
        } else {
            (Vec::new(), Vec::new())
        };
        if left.len() == 0 || right.len() == 0 {
            let r = self.add_leaf(leaves);
            proof {
                lemma_leaves_push(start, (Seq::<usize>::empty(), leaves@));
                assert(self@.take(start.len() as int) =~= start);
                assert forall|k: int| 0 <= k < self@.len() implies #[trigger] node_shaped(self@, k) by {
                    if k < start.len() {
                        assert(node_shaped(start, k));
                    }
                }
            }
            return r;
        }
        let l = self.add_leaves(left.as_slice(), split_by);
        let ghost mid = self@;
        let r = self.add_leaves(right.as_slice(), split_by);
        let ghost end = self@;
        let node = BvhNode { nodes: vec![l, r], leaves: Vec::new() };
        let i = self.push(node);
        proof {
            lemma_leaves_push(end, node@);
            assert(node@.1 =~= Seq::<usize>::empty());
            assert(node@.1.to_multiset() =~= Multiset::empty());
            assert(self@.take(start.len() as int) =~= start) by {
                assert(mid.take(start.len() as int) == start);
                assert(end.take(mid.len() as int) == mid);
            }
            assert forall|k: int| 0 <= k < self@.len() implies #[trigger] node_shaped(self@, k) by {
                if k < end.len() {
                    assert(node_shaped(end, k));
                    assert(self@[k] == end[k]);
                }
            }
        }
        i
    }
}

} // verus!
