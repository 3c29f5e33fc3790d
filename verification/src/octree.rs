use vstd::prelude::*;
use crate::transvoxel::cube_face::CubeFace;
use crate::transvoxel::cube_edge::{CubeEdge, edge_at};
use crate::transvoxel::cube_face::face_at;
use crate::array_lists::{face_list_items, edge_list_items, face_list_new, face_list_push, edge_list_new, edge_list_push};
use arrayvec::ArrayVec;

verus! {

/// One step down an octree: which half of the cell to take along each axis.
#[derive(Copy, Clone, Debug)]
pub struct OctreeIndex(pub [bool; 3]);

/// Bit `k` of `x`.
pub open spec fn bit(x: usize, k: usize) -> bool {
    ((x >> k) & 1) == 1
}

/// The three axis choices of an index.
pub open spec fn index_bits(i: OctreeIndex) -> (bool, bool, bool) {
    (i.0[0], i.0[1], i.0[2])
}

impl From<[bool; 3]> for OctreeIndex {
    fn from(value: [bool; 3]) -> (r: Self)
        ensures
            r.0 == value,
    {
        OctreeIndex(value)
    }
}

impl vstd::std_specs::convert::FromSpecImpl<[bool; 3]> for OctreeIndex {
    open spec fn obeys_from_spec() -> bool {
        true
    }

    open spec fn from_spec(v: [bool; 3]) -> Self {
        OctreeIndex(v)
    }
}

impl OctreeIndex {
    /// The axis choices, as `[x, y, z]`.
    pub fn into_array(self) -> (r: [bool; 3])
        ensures
            r == self.0,
    {
        self.0
    }

    /// The index written as `<xyz>` with one binary digit per axis.
    pub fn debug_string(&self) -> (r: String)
        ensures
            r@ == seq!['<'] + seq![bit_char(self.0[0]), bit_char(self.0[1]), bit_char(self.0[2])] + seq!['>'],
    {
        let mut s = String::new();
        proof {
            reveal_strlit("<");
            reveal_strlit(">");
            reveal_strlit("0");
            reveal_strlit("1");
        }
        s.append("<");
        let mut a: usize = 0;
        while a < 3
            invariant
                a <= 3,
                s@ == seq!['<'] + Seq::new(a as nat, |j: int| bit_char(self.0[j])),
            decreases 3 - a,
        {
            proof {
                reveal_strlit("0");
                reveal_strlit("1");
            }
            if self.0[a] {
                s.append("1");
            } else {
                s.append("0");
            }
            assert(Seq::new((a + 1) as nat, |j: int| bit_char(self.0[j])) =~= Seq::new(a as nat, |j: int| bit_char(self.0[j])).push(bit_char(self.0[a as int])));
            a = a + 1;
        }
        s.append(">");
        assert(Seq::new(3, |j: int| bit_char(self.0[j])) =~= seq![bit_char(self.0[0]), bit_char(self.0[1]), bit_char(self.0[2])]);
        s
    }
}

/// `'1'` for a set bit, `'0'` otherwise.
pub open spec fn bit_char(b: bool) -> char {
    if b { '1' } else { '0' }
}

/// The address of an octree cell: its depth and its integer position at that depth along
/// each axis.
#[derive(Copy, Clone, Hash, Ord, Eq, PartialEq, PartialOrd, Debug)]
pub struct OctreePath {
    depth: usize,
    position: [usize; 3],
}

/// The steps of a path with the given depth and position: step `i` reads bit `depth - 1 - i`
/// of each coordinate, the most significant bit first.
pub open spec fn steps_of(depth: usize, position: [usize; 3]) -> Seq<(bool, bool, bool)> {
    Seq::new(
        depth as nat,
        |i: int|
            (
                bit(position[0], (depth - 1 - i) as usize),
                bit(position[1], (depth - 1 - i) as usize),
                bit(position[2], (depth - 1 - i) as usize),
            ),
    )
}

proof fn lemma_push_bits(p: usize, b: usize, d: usize, k: usize)
    requires
        p < (1usize << d),
        d + 1 < usize::BITS,
        b <= 1,
        k < d,
    ensures
        ((((p << 1usize) + b) as usize) >> ((k + 1) as usize)) & 1 == (p >> k) & 1,
{
    assert(((((p << 1usize) + b) as usize) >> ((k + 1) as usize)) & 1 == (p >> k) & 1) by (bit_vector)
        requires
            p < (1usize << d),
            d + 1 < usize::BITS,
            b <= 1,
            k < d,
    ;
}

proof fn lemma_push_low(p: usize, b: usize, d: usize)
    requires
        p < (1usize << d),
        d + 1 < usize::BITS,
        b <= 1,
    ensures
        ((((p << 1usize) + b) as usize) >> 0usize) & 1 == b,
        (((p << 1usize) + b) as usize) < (1usize << ((d + 1) as usize)),
{
    assert(((((p << 1usize) + b) as usize) >> 0usize) & 1 == b) by (bit_vector)
        requires
            p < (1usize << d),
            d + 1 < usize::BITS,
            b <= 1,
    ;
    assert((((p << 1usize) + b) as usize) < (1usize << ((d + 1) as usize))) by (bit_vector)
        requires
            p < (1usize << d),
            d + 1 < usize::BITS,
            b <= 1,
    ;
}

proof fn lemma_push_no_overflow(p: usize, d: usize)
    requires
        p < (1usize << d),
        d + 1 < usize::BITS,
    ensures
        (p << 1usize) < (1usize << ((d + 1) as usize)),
        (p << 1usize) + 1 <= usize::MAX,
{
    assert((p << 1usize) < (1usize << ((d + 1) as usize))) by (bit_vector)
        requires
            p < (1usize << d),
            d + 1 < usize::BITS,
    ;
}

proof fn lemma_view_bits(p: usize, d: usize, k: usize)
    requires
        1 <= d < usize::BITS,
        p < (1usize << d),
        k < d - 1,
    ensures
        ((p & (1usize << ((d - 1) as usize))) != 0) == (((p >> ((d - 1) as usize)) & 1) == 1),
        ((p & (((1usize << ((d - 1) as usize)) - 1) as usize)) >> k) & 1 == (p >> k) & 1,
        (p & (((1usize << ((d - 1) as usize)) - 1) as usize)) < (1usize << ((d - 1) as usize)),
{
    assert(((p & (1usize << ((d - 1) as usize))) != 0) == (((p >> ((d - 1) as usize)) & 1) == 1)) by (bit_vector)
        requires
            1 <= d < usize::BITS,
    ;
    assert(((p & (((1usize << ((d - 1) as usize)) - 1) as usize)) >> k) & 1 == (p >> k) & 1) by (bit_vector)
        requires
            1 <= d < usize::BITS,
            k < d - 1,
    ;
    assert((p & (((1usize << ((d - 1) as usize)) - 1) as usize)) < (1usize << ((d - 1) as usize))) by (bit_vector)
        requires
            1 <= d < usize::BITS,
    ;
}

proof fn lemma_view_top_bit(p: usize, d: usize)
    requires
        1 <= d < usize::BITS,
    ensures
        ((p & (1usize << ((d - 1) as usize))) != 0) == (((p >> ((d - 1) as usize)) & 1) == 1),
{
    assert(((p & (1usize << ((d - 1) as usize))) != 0) == (((p >> ((d - 1) as usize)) & 1) == 1)) by (bit_vector)
        requires
            1 <= d < usize::BITS,
    ;
}

proof fn lemma_mask_bound(p: usize, d: usize)
    requires
        1 <= d < usize::BITS,
    ensures
        (p & (((1usize << ((d - 1) as usize)) - 1) as usize)) < (1usize << ((d - 1) as usize)),
        1usize << ((d - 1) as usize) >= 1,
{
    assert((p & (((1usize << ((d - 1) as usize)) - 1) as usize)) < (1usize << ((d - 1) as usize))) by (bit_vector)
        requires
            1 <= d < usize::BITS,
    ;
    assert(1usize << ((d - 1) as usize) >= 1) by (bit_vector)
        requires
            1 <= d < usize::BITS,
    ;
}

proof fn lemma_one_shl_positive(d: usize)
    requires
        d < usize::BITS,
    ensures
        (1usize << d) >= 1,
{
    assert((1usize << d) >= 1) by (bit_vector)
        requires
            d < usize::BITS,
    ;
}

impl OctreePath {
    #[verifier::type_invariant]
    closed spec fn valid(self) -> bool {
        &&& self.depth < usize::BITS
        &&& self.position[0] < (1usize << self.depth)
        &&& self.position[1] < (1usize << self.depth)
        &&& self.position[2] < (1usize << self.depth)
    }

    pub closed spec fn spec_depth(&self) -> usize {
        self.depth
    }

    /// The cell's integer coordinates at its depth.
    pub closed spec fn spec_position(&self) -> [usize; 3] {
        self.position
    }

    /// The depth is below the word size and each coordinate fits in `depth` bits, as for
    /// every path the library builds.
    pub closed spec fn bounded(&self) -> bool {
        self.valid()
    }

    /// The steps from the root to the cell, first step first.
    pub closed spec fn steps(&self) -> Seq<(bool, bool, bool)> {
        steps_of(self.depth, self.position)
    }

    /// The whole cube.
    pub fn new_root() -> (r: Self)
        ensures
            r.spec_depth() == 0,
            r.spec_position() == [0usize, 0, 0],
            r.steps() == Seq::<(bool, bool, bool)>::empty(),
            r.bounded(),
    {
        proof {
            assert((1usize << 0usize) == 1) by (bit_vector);
        }
        let r = OctreePath { depth: 0, position: [0; 3] };
        assert(r.steps() =~= Seq::<(bool, bool, bool)>::empty());
        proof {
            use_type_invariant(&r);
        }
        r
    }

    /// The child of this cell on the side `index` chooses along each axis.
    pub fn push_back(&self, index: OctreeIndex) -> (r: Self)
        requires
            self.spec_depth() + 1 < usize::BITS,
        ensures
            r.spec_depth() == self.spec_depth() + 1,
            r.steps() == self.steps().push(index_bits(index)),
            r.bounded(),
    {
        proof {
            use_type_invariant(self);
        }
        let d = self.depth;
        let mut position = [0usize; 3];
        let mut a: usize = 0;
        while a < 3
            invariant
                a <= 3,
                d == self.depth,
                d + 1 < usize::BITS,
                self.position[0] < (1usize << d),
                self.position[1] < (1usize << d),
                self.position[2] < (1usize << d),
                forall|j: int| 0 <= j < a ==> #[trigger] position[j] == (self.position[j] << 1usize) + (if index.0[j] { 1usize } else { 0usize }),
            decreases 3 - a,
        {
            proof {
                lemma_push_no_overflow(self.position[a as int], d);
            }
            let b: usize = if index.0[a] { 1 } else { 0 };
            position[a] = (self.position[a] << 1) + b;
            a = a + 1;
        }
        proof {
            assert forall|a: int| 0 <= a < 3 implies position[a] < (1usize << ((d + 1) as usize)) by {
                let b: usize = if index.0[a] { 1 } else { 0 };
                lemma_push_low(self.position[a], b, d);
            }
        }
        let r = OctreePath { depth: d + 1, position };
        proof {
            assert forall|i: int| 0 <= i < d + 1 implies #[trigger] r.steps()[i] == self.steps().push(index_bits(index))[i] by {
                if i < d {
                    let k = (d - 1 - i) as usize;
                    assert((d + 1 - 1 - i) as usize == (k + 1) as usize);
                    let b0: usize = if index.0[0] { 1 } else { 0 };
                    let b1: usize = if index.0[1] { 1 } else { 0 };
                    let b2: usize = if index.0[2] { 1 } else { 0 };
                    lemma_push_bits(self.position[0], b0, d, k);
                    lemma_push_bits(self.position[1], b1, d, k);
                    lemma_push_bits(self.position[2], b2, d, k);
                } else {
                    assert((d + 1 - 1 - i) as usize == 0usize);
                    let b0: usize = if index.0[0] { 1 } else { 0 };
                    let b1: usize = if index.0[1] { 1 } else { 0 };
                    let b2: usize = if index.0[2] { 1 } else { 0 };
                    lemma_push_low(self.position[0], b0, d);
                    lemma_push_low(self.position[1], b1, d);
                    lemma_push_low(self.position[2], b2, d);
                }
            }
            assert(r.steps() =~= self.steps().push(index_bits(index)));
            use_type_invariant(&r);
        }
        r
    }

    /// The first step from the root and the path of the rest, relative to the child cell;
    /// `None` for the root.
    pub fn view(&self) -> (r: Option<(OctreeIndex, Self)>)
        ensures
            r is None <==> self.spec_depth() == 0,
            r matches Some((i, rest)) ==> index_bits(i) == self.steps()[0] && rest.steps()
                == self.steps().drop_first() && rest.spec_depth() == self.spec_depth() - 1 && rest.bounded(),
    {
        proof {
            use_type_invariant(self);
        }
        if self.depth == 0 {
            return None;
        }
        let d = self.depth;
        proof {
            lemma_mask_bound(0, d);
        }
        let top: usize = 1usize << (d - 1);
        let mask: usize = top - 1;
        let index = OctreeIndex(
            [
                (self.position[0] & top) != 0,
                (self.position[1] & top) != 0,
                (self.position[2] & top) != 0,
            ],
        );
        let position = [self.position[0] & mask, self.position[1] & mask, self.position[2] & mask];
        proof {
            lemma_mask_bound(self.position[0], d);
            lemma_mask_bound(self.position[1], d);
            lemma_mask_bound(self.position[2], d);
        }
        let rest = OctreePath { depth: d - 1, position };
        proof {
            lemma_view_top_bit(self.position[0], d);
            lemma_view_top_bit(self.position[1], d);
            lemma_view_top_bit(self.position[2], d);
            assert(index_bits(index) == self.steps()[0]);
            assert forall|i: int| 0 <= i < d - 1 implies #[trigger] rest.steps()[i] == self.steps().drop_first()[i] by {
                let k = (d - 1 - 1 - i) as usize;
                assert((d - 1 - (i + 1)) as usize == k);
                lemma_view_bits(self.position[0], d, k);
                lemma_view_bits(self.position[1], d, k);
                lemma_view_bits(self.position[2], d, k);
            }
            assert(rest.steps() =~= self.steps().drop_first());
            use_type_invariant(&rest);
        }
        Some((index, rest))
    }

    pub fn depth(&self) -> (r: usize)
        ensures
            r == self.spec_depth(),
            r == self.steps().len(),
            self.bounded(),
    {
        proof {
            use_type_invariant(self);
        }
        self.depth
    }

    /// The cell's integer coordinates at its depth.
    pub fn position(&self) -> (r: [usize; 3])
        ensures
            r == self.spec_position(),
            self.bounded(),
    {
        proof {
            use_type_invariant(self);
        }
        self.position
    }

    /// The neighbouring cell of the same depth across `face`, if it lies inside the cube.
    pub fn face_adjacent_for(&self, face: CubeFace) -> (r: Option<Self>)
        requires
            face@.0 < 3,
        ensures
            ({
                let a = face@.0 as int;
                let c = self.spec_position()[a];
                let last = (1usize << self.spec_depth()) - 1;
                match r {
                    Some(n) => n.spec_depth() == self.spec_depth()
                        && n.spec_position()@ == self.spec_position()@.update(a, (if face@.1 { c + 1 } else { c - 1 }) as usize)
                        && (if face@.1 { c < last } else { c > 0 }),
                    None => if face@.1 { c >= last } else { c == 0 },
                }
            }),
    {
        proof {
            use_type_invariant(self);
            lemma_one_shl_positive(self.depth);
        }
        let a = face.axis() as usize;
        let c = self.position[a];
        let last = (1usize << self.depth) - 1;
        let mut position2 = self.position;
        if !face.side() && c > 0 {
            position2[a] = c - 1;
            let r = OctreePath { depth: self.depth, position: position2 };
            assert(r.spec_position()@ =~= self.spec_position()@.update(a as int, (c - 1) as usize));
            Some(r)
        } else if face.side() && c < last {
            position2[a] = c + 1;
            let r = OctreePath { depth: self.depth, position: position2 };
            assert(r.spec_position()@ =~= self.spec_position()@.update(a as int, (c + 1) as usize));
            Some(r)
        } else {
            None
        }
    }

    /// The neighbouring cell of the same depth across `edge`, if it lies inside the cube.
    pub fn edge_adjacent_for(&self, edge: CubeEdge) -> (r: Option<Self>)
        ensures
            ({
                let a1 = (edge@.0 + 1) % 3;
                let a2 = (edge@.0 + 2) % 3;
                let c1 = self.spec_position()[a1];
                let c2 = self.spec_position()[a2];
                let last = (1usize << self.spec_depth()) - 1;
                let ok1 = if edge@.1 { c1 < last } else { c1 > 0 };
                let ok2 = if edge@.2 { c2 < last } else { c2 > 0 };
                match r {
                    Some(n) => ok1 && ok2 && n.spec_depth() == self.spec_depth()
                        && n.spec_position()@ == self.spec_position()@.update(
                            a1,
                            (if edge@.1 { c1 + 1 } else { c1 - 1 }) as usize,
                        ).update(a2, (if edge@.2 { c2 + 1 } else { c2 - 1 }) as usize),
                    None => !(ok1 && ok2),
                }
            }),
    {
        proof {
            use_type_invariant(self);
            lemma_one_shl_positive(self.depth);
        }
        let a1 = edge.axis1() as usize;
        let a2 = edge.axis2() as usize;
        let last = (1usize << self.depth) - 1;
        let mut position2 = self.position;
        let c1 = position2[a1];
        if !edge.side1() && c1 > 0 {
            position2[a1] = c1 - 1;
        } else if edge.side1() && c1 < last {
            position2[a1] = c1 + 1;
        } else {
            return None;
        }
        let c2 = position2[a2];
        assert(c2 == self.position[a2 as int]);
        if !edge.side2() && c2 > 0 {
            position2[a2] = c2 - 1;
        } else if edge.side2() && c2 < last {
            position2[a2] = c2 + 1;
        } else {
            return None;
        }
        let r = OctreePath { depth: self.depth, position: position2 };
        proof {
            let p1 = if edge@.1 { c1 + 1 } else { c1 - 1 };
            let p2 = if edge@.2 { c2 + 1 } else { c2 - 1 };
            assert(r.spec_position()@ =~= self.spec_position()@.update(a1 as int, p1 as usize).update(a2 as int, p2 as usize));
        }
        Some(r)
    }
}

/// Component `a` of a step.
pub open spec fn step_axis(step: (bool, bool, bool), a: int) -> bool {
    if a == 0 {
        step.0
    } else if a == 1 {
        step.1
    } else {
        step.2
    }
}

/// How one coordinate of a path is written: its steps along that axis as binary digits,
/// or `-` for the root.
pub open spec fn axis_text(steps: Seq<(bool, bool, bool)>, a: int) -> Seq<char> {
    if steps.len() == 0 {
        seq!['-']
    } else {
        Seq::new(steps.len(), |i: int| bit_char(step_axis(steps[i], a)))
    }
}

/// How a path is written: `(x, y, z)`, each coordinate in binary with one digit per step.
pub open spec fn path_text(steps: Seq<(bool, bool, bool)>) -> Seq<char> {
    seq!['('] + axis_text(steps, 0) + seq![',', ' '] + axis_text(steps, 1) + seq![',', ' ']
        + axis_text(steps, 2) + seq![')']
}

impl OctreePath {
    fn append_axis(&self, s: &mut String, a: usize)
        requires
            a < 3,
        ensures
            final(s)@ == old(s)@ + axis_text(self.steps(), a as int),
    {
        proof {
            reveal_strlit("-");
            use_type_invariant(self);
        }
        if self.depth == 0 {
            s.append("-");
            return;
        }
        let ghost start = s@;
        let mut i: usize = 0;
        while i < self.depth
            invariant
                a < 3,
                i <= self.depth,
                self.depth < usize::BITS,
                s@ == start + Seq::new(i as nat, |j: int| bit_char(step_axis(self.steps()[j], a as int))),
            decreases self.depth - i,
        {
            proof {
                reveal_strlit("0");
                reveal_strlit("1");
            }
            let set = (self.position[a] >> (self.depth - 1 - i)) & 1 == 1;
            if set {
                s.append("1");
            } else {
                s.append("0");
            }
            assert(Seq::new((i + 1) as nat, |j: int| bit_char(step_axis(self.steps()[j], a as int)))
                =~= Seq::new(i as nat, |j: int| bit_char(step_axis(self.steps()[j], a as int))).push(bit_char(step_axis(self.steps()[i as int], a as int))));
            i = i + 1;
        }
        assert(Seq::new(self.depth as nat, |j: int| bit_char(step_axis(self.steps()[j], a as int))) =~= axis_text(self.steps(), a as int));
    }

    /// The path written as `(x, y, z)`, each coordinate in binary with one digit per level,
    /// most significant first; `-` stands for a coordinate of the root.
    pub fn debug_string(&self) -> (r: String)
        ensures
            r@ == path_text(self.steps()),
    {
        proof {
            reveal_strlit("(");
            reveal_strlit(", ");
            reveal_strlit(")");
        }
        let mut s = String::new();
        s.append("(");
        self.append_axis(&mut s, 0);
        s.append(", ");
        self.append_axis(&mut s, 1);
        s.append(", ");
        self.append_axis(&mut s, 2);
        s.append(")");
        assert(s@ =~= path_text(self.steps()));
        s
    }
}

/// A path has one step per level of depth.
pub proof fn lemma_steps_len(p: OctreePath)
    ensures
        p.steps().len() == p.spec_depth(),
{
}

/// Extending a path by a step and then splitting off its first step gives the first step of
/// the unextended path, and a rest that is its rest extended by the same step: for
/// every path with at least one step, `view` and `push_back` commute.
pub proof fn lemma_view_push_back(p: OctreePath, i: OctreeIndex)
    requires
        p.spec_depth() >= 1,
    ensures
        p.steps().push(index_bits(i))[0] == p.steps()[0],
        p.steps().push(index_bits(i)).drop_first() == p.steps().drop_first().push(index_bits(i)),
{
    lemma_steps_len(p);
    assert(p.steps().push(index_bits(i)).drop_first() =~= p.steps().drop_first().push(index_bits(i)));
}

/// Extending the root by a step and splitting it off again gives back that step and the
/// root.
pub proof fn lemma_view_single(root: OctreePath, i: OctreeIndex)
    requires
        root.spec_depth() == 0,
    ensures
        root.steps().push(index_bits(i))[0] == index_bits(i),
        root.steps().push(index_bits(i)).drop_first() == root.steps(),
{
    lemma_steps_len(root);
    assert(root.steps().push(index_bits(i)).drop_first() =~= root.steps());
}


/// Two coordinates below `2^d` with the same low `d` bits are equal.
proof fn lemma_bits_determine(x: usize, y: usize, d: usize)
    requires
        d < usize::BITS,
        x < (1usize << d),
        y < (1usize << d),
        forall|k: usize| k < d ==> #[trigger] bit(x, k) == bit(y, k),
    ensures
        x == y,
    decreases d,
{
    if d == 0 {
        assert(x < (1usize << 0usize));
        assert(y < (1usize << 0usize));
        assert(x < (1usize << 0usize) ==> x == 0) by (bit_vector);
        assert(y < (1usize << 0usize) ==> y == 0) by (bit_vector);
    } else {
        let x1 = x >> 1usize;
        let y1 = y >> 1usize;
        let e = (d - 1) as usize;
        assert(x1 < (1usize << e)) by (bit_vector)
            requires
                x < (1usize << d),
                e + 1 == d,
                d < usize::BITS,
                x1 == x >> 1usize,
        ;
        assert(y1 < (1usize << e)) by (bit_vector)
            requires
                y < (1usize << d),
                e + 1 == d,
                d < usize::BITS,
                y1 == y >> 1usize,
        ;
        assert forall|k: usize| k < e implies #[trigger] bit(x1, k) == bit(y1, k) by {
            let k1 = (k + 1) as usize;
            assert(bit(x, k1) == bit(y, k1));
            assert(((x1 >> k) & 1) == ((x >> k1) & 1)) by (bit_vector)
                requires
                    x1 == x >> 1usize,
                    k1 == k + 1,
                    k < usize::BITS,
            ;
            assert(((y1 >> k) & 1) == ((y >> k1) & 1)) by (bit_vector)
                requires
                    y1 == y >> 1usize,
                    k1 == k + 1,
                    k < usize::BITS,
            ;
        }
        lemma_bits_determine(x1, y1, e);
        assert(bit(x, 0) == bit(y, 0));
        assert(x == y) by (bit_vector)
            requires
                (((x >> 0usize) & 1) == 1) == (((y >> 0usize) & 1) == 1),
                (x >> 1usize) == (y >> 1usize),
        ;
    }
}

/// A path is determined by its depth and its steps: two paths the library built, with the
/// same depth and the same steps, are the same cell.
pub proof fn lemma_same_cell(p: OctreePath, q: OctreePath)
    requires
        p.bounded(),
        q.bounded(),
        p.spec_depth() == q.spec_depth(),
        p.steps() == q.steps(),
    ensures
        p == q,
{
    let d = p.spec_depth();
    assert forall|a: int| 0 <= a < 3 implies p.spec_position()[a] == q.spec_position()[a] by {
        assert forall|k: usize| k < d implies #[trigger] bit(p.spec_position()[a], k) == bit(
            q.spec_position()[a],
            k,
        ) by {
            let i = d - 1 - k;
            assert(p.steps()[i] == q.steps()[i]);
            assert((d - 1 - i) as usize == k);
        }
        lemma_bits_determine(p.spec_position()[a], q.spec_position()[a], d);
    }
    assert(p.spec_position() =~= q.spec_position());
}


/// Splitting the first step off a path extended by `i` leaves the same cell as extending the
/// rest of the path by `i`: for `p` with at least one step, the remainder `rest` of
/// `p.push_back(i)` after its first step is the cell `q` that `i` extends the remainder of `p`
/// to.
pub proof fn lemma_view_push_cells(p: OctreePath, i: OctreeIndex, rest: OctreePath, q: OctreePath)
    requires
        p.spec_depth() >= 1,
        rest.bounded(),
        q.bounded(),
        rest.spec_depth() == p.spec_depth(),
        rest.steps() == p.steps().push(index_bits(i)).drop_first(),
        q.spec_depth() == p.spec_depth(),
        q.steps() == p.steps().drop_first().push(index_bits(i)),
    ensures
        rest == q,
{
    lemma_view_push_back(p, i);
    lemma_same_cell(rest, q);
}

/// Splitting the first step off the root extended by `i` leaves the root.
pub proof fn lemma_view_push_root(root: OctreePath, i: OctreeIndex, rest: OctreePath)
    requires
        root.spec_depth() == 0,
        root.bounded(),
        rest.bounded(),
        rest.spec_depth() == 0,
        rest.steps() == root.steps().push(index_bits(i)).drop_first(),
    ensures
        rest == root,
{
    lemma_view_single(root, i);
    lemma_same_cell(rest, root);
}

/// A node of an octree: a key of type `K`, and either a leaf value of type `V` or eight
/// children, one per octant.
#[verifier::reject_recursive_types(K)]
#[verifier::reject_recursive_types(V)]
pub struct Octree<K, V> {
    path: OctreePath,
    key: K,
    node: OctreeNode<K, V>,
}

#[verifier::reject_recursive_types(K)]
#[verifier::reject_recursive_types(V)]
enum OctreeNode<K, V> {
    Leaf(V),
    Branch(Box<OctreeBranch<K, V>>),
}

/// The eight children of an octree node, indexed by x, then y, then z half.
#[verifier::reject_recursive_types(K)]
#[verifier::reject_recursive_types(V)]
pub struct OctreeBranch<K, V> {
    children: [[[Octree<K, V>; 2]; 2]; 2],
}

/// What a node holds, borrowed.
#[verifier::reject_recursive_types(K)]
#[verifier::reject_recursive_types(V)]
pub enum OctreeView<'a, K, V> {
    Leaf(&'a K, &'a V),
    Branch(&'a OctreeBranch<K, V>),
}

impl<K, V> Octree<K, V> {
    /// The cell the node covers.
    pub closed spec fn spec_path(&self) -> OctreePath {
        self.path
    }

    pub closed spec fn spec_key(&self) -> K {
        self.key
    }

    /// The leaf value, when the node is a leaf.
    pub closed spec fn leaf_value(&self) -> Option<V> {
        match self.node {
            OctreeNode::Leaf(v) => Some(v),
            OctreeNode::Branch(_) => None,
        }
    }

    /// The children, when the node is a branch.
    pub closed spec fn branch(&self) -> Option<OctreeBranch<K, V>> {
        match self.node {
            OctreeNode::Leaf(_) => None,
            OctreeNode::Branch(b) => Some(*b),
        }
    }

    /// A node is a leaf, with a value, or a branch, with children, and never both.
    pub proof fn lemma_leaf_or_branch(&self)
        ensures
            self.leaf_value() is Some <==> self.branch() is None,
    {
    }

    /// A leaf covering the cell `path`, holding `value` and the default key.
    pub fn new_leaf(path: OctreePath, value: V) -> (r: Self)
        where
            K: Default,
        ensures
            r.spec_path() == path,
            r.leaf_value() == Some(value),
            r.branch() is None,
            call_ensures(K::default, (), r.spec_key()),
    {
        Octree { path, key: K::default(), node: OctreeNode::Leaf(value) }
    }

    /// A single leaf covering the whole cube, with the default key and value.
    pub fn new_root() -> (r: Self)
        where
            K: Default,
            V: Default,
        ensures
            r.spec_path().steps() == Seq::<(bool, bool, bool)>::empty(),
            r.spec_path().spec_depth() == 0,
            r.spec_path().bounded(),
            r.leaf_value() matches Some(v) && call_ensures(V::default, (), v),
            r.branch() is None,
            call_ensures(K::default, (), r.spec_key()),
    {
        Octree { path: OctreePath::new_root(), key: K::default(), node: OctreeNode::Leaf(V::default()) }
    }

    pub fn path(&self) -> (r: &OctreePath)
        ensures
            *r == self.spec_path(),
    {
        &self.path
    }

    pub fn key(&self) -> (r: &K)
        ensures
            *r == self.spec_key(),
    {
        &self.key
    }

    pub fn key_mut(&mut self) -> (r: &mut K)
        ensures
            *r == old(self).spec_key(),
            final(self).spec_key() == *final(r),
            final(self).spec_path() == old(self).spec_path(),
            final(self).leaf_value() == old(self).leaf_value(),
            final(self).branch() == old(self).branch(),
    {
        &mut self.key
    }

    /// The key and value of a leaf, or the children of a branch.
    pub fn view(&self) -> (r: OctreeView<'_, K, V>)
        ensures
            (r is Leaf) <==> (self.leaf_value() is Some),
            match r {
                OctreeView::Leaf(k, v) => *k == self.spec_key() && self.leaf_value() == Some(*v),
                OctreeView::Branch(b) => self.branch() == Some(*b),
            },
    {
        match &self.node {
            OctreeNode::Leaf(leaf) => OctreeView::Leaf(&self.key, leaf),
            OctreeNode::Branch(branch) => OctreeView::Branch(branch),
        }
    }
}

impl<K, V> OctreeBranch<K, V> {
    /// The child in octant `index`.
    pub closed spec fn spec_child(&self, index: (bool, bool, bool)) -> Octree<K, V> {
        self.children[if index.0 { 1 } else { 0 }][if index.1 { 1 } else { 0 }][if index.2 {
            1
        } else {
            0
        }]
    }

    /// The child in octant `index`.
    pub fn child(&self, index: OctreeIndex) -> (r: &Octree<K, V>)
        ensures
            *r == self.spec_child(index_bits(index)),
    {
        let x: usize = if index.0[0] { 1 } else { 0 };
        let y: usize = if index.0[1] { 1 } else { 0 };
        let z: usize = if index.0[2] { 1 } else { 0 };
        &self.children[x][y][z]
    }

    /// The eight children, x half slowest and z half fastest.
    pub fn children_flat(&self) -> (r: [&Octree<K, V>; 8])
        ensures
            forall|i: int|
                0 <= i < 8 ==> *#[trigger] r[i] == self.spec_child(
                    (i / 4 == 1, (i / 2) % 2 == 1, i % 2 == 1),
                ),
    {
        let c = &self.children;
        [
            &c[0][0][0],
            &c[0][0][1],
            &c[0][1][0],
            &c[0][1][1],
            &c[1][0][0],
            &c[1][0][1],
            &c[1][1][0],
            &c[1][1][1],
        ]
    }
}


impl<K, V> OctreeBranch<K, V> {
    /// The child in octant `index`, to change in place.
    pub fn child_mut(&mut self, index: OctreeIndex) -> (r: &mut Octree<K, V>)
        ensures
            *r == old(self).spec_child(index_bits(index)),
            final(self).spec_child(index_bits(index)) == *final(r),
            forall|j: (bool, bool, bool)|
                j != index_bits(index) ==> #[trigger] final(self).spec_child(j) == old(self).spec_child(j),
    {
        let x: usize = if index.0[0] { 1 } else { 0 };
        let y: usize = if index.0[1] { 1 } else { 0 };
        let z: usize = if index.0[2] { 1 } else { 0 };
        &mut self.children[x][y][z]
    }
}

/// Moves the value out of `slot`, leaving the default value behind.
fn take_value<V: Default>(slot: &mut V) -> (r: V)
    ensures
        r == *old(slot),
{
    let mut r = V::default();
    std::mem::swap(&mut r, slot);
    r
}

impl<K: Default, V: Default> Octree<K, V> {
    /// Splits the node into eight leaves, one per octant, holding `values[x][y][z]` and
    /// covering the child cells of this node's cell.
    pub fn set_branch(&mut self, values: [[[V; 2]; 2]; 2])
        requires
            old(self).spec_path().spec_depth() + 1 < usize::BITS,
        ensures
            final(self).spec_path() == old(self).spec_path(),
            final(self).spec_key() == old(self).spec_key(),
            final(self).leaf_value() is None,
            final(self).branch() matches Some(b) && forall|j: (bool, bool, bool)| {
                let c = #[trigger] b.spec_child(j);
                &&& c.spec_path().spec_depth() == old(self).spec_path().spec_depth() + 1
                &&& c.spec_path().steps() == old(self).spec_path().steps().push(j)
                &&& c.spec_path().bounded()
                &&& call_ensures(K::default, (), c.spec_key())
                &&& c.leaf_value() == Some(
                    values[if j.0 { 1 } else { 0 }][if j.1 { 1 } else { 0 }][if j.2 { 1 } else { 0 }],
                )
            },
    {
        let mut values = values;
        let v000 = take_value(&mut values[0][0][0]);
        let v001 = take_value(&mut values[0][0][1]);
        let v010 = take_value(&mut values[0][1][0]);
        let v011 = take_value(&mut values[0][1][1]);
        let v100 = take_value(&mut values[1][0][0]);
        let v101 = take_value(&mut values[1][0][1]);
        let v110 = take_value(&mut values[1][1][0]);
        let v111 = take_value(&mut values[1][1][1]);
        let p = self.path;
        let children = [
            [
                [
                    Octree::new_leaf(p.push_back(OctreeIndex([false, false, false])), v000),
                    Octree::new_leaf(p.push_back(OctreeIndex([false, false, true])), v001),
                ],
                [
                    Octree::new_leaf(p.push_back(OctreeIndex([false, true, false])), v010),
                    Octree::new_leaf(p.push_back(OctreeIndex([false, true, true])), v011),
                ],
            ],
            [
                [
                    Octree::new_leaf(p.push_back(OctreeIndex([true, false, false])), v100),
                    Octree::new_leaf(p.push_back(OctreeIndex([true, false, true])), v101),
                ],
                [
                    Octree::new_leaf(p.push_back(OctreeIndex([true, true, false])), v110),
                    Octree::new_leaf(p.push_back(OctreeIndex([true, true, true])), v111),
                ],
            ],
        ];
        self.node = OctreeNode::Branch(Box::new(OctreeBranch { children }));
    }
}


/// What a node holds, borrowed to change in place.
#[verifier::reject_recursive_types(K)]
#[verifier::reject_recursive_types(V)]
pub enum OctreeViewMut<'a, K, V> {
    Leaf(&'a mut K, &'a mut V),
    Branch(&'a mut OctreeBranch<K, V>),
}

impl<K, V> Octree<K, V> {
    /// The key and value of a leaf, or the children of a branch, to change in place.
    pub fn view_mut(&mut self) -> (r: OctreeViewMut<'_, K, V>)
        ensures
            final(self).spec_path() == old(self).spec_path(),
            (r is Leaf) <==> (old(self).leaf_value() is Some),
            match r {
                OctreeViewMut::Leaf(k, v) => {
                    &&& *k == old(self).spec_key()
                    &&& old(self).leaf_value() == Some(*v)
                    &&& final(self).spec_key() == *final(k)
                    &&& final(self).leaf_value() == Some(*final(v))
                },
                OctreeViewMut::Branch(b) => {
                    &&& old(self).branch() == Some(*b)
                    &&& final(self).spec_key() == old(self).spec_key()
                    &&& final(self).branch() == Some(*final(b))
                },
            },
    {
        match &mut self.node {
            OctreeNode::Leaf(leaf) => OctreeViewMut::Leaf(&mut self.key, leaf),
            OctreeNode::Branch(branch) => OctreeViewMut::Branch(&mut **branch),
        }
    }
}


/// The values present in `s`, in order.
pub open spec fn somes<T>(s: Seq<Option<T>>) -> Seq<T>
    decreases s.len(),
{
    if s.len() == 0 {
        Seq::empty()
    } else {
        match s.last() {
            Some(x) => somes(s.drop_last()).push(x),
            None => somes(s.drop_last()),
        }
    }
}

proof fn lemma_somes_len<T>(s: Seq<Option<T>>)
    ensures
        somes(s).len() <= s.len(),
    decreases s.len(),
{
    if s.len() > 0 {
        lemma_somes_len(s.drop_last());
    }
}

impl OctreePath {
    /// The depth and coordinates of a cell.
    pub open spec fn cell(&self) -> (usize, Seq<usize>) {
        (self.spec_depth(), self.spec_position()@)
    }

    /// The depth and coordinates of the cell across `face` (axis, side), if it lies inside
    /// the cube.
    pub open spec fn across_face(&self, face: (u8, bool)) -> Option<(usize, Seq<usize>)> {
        let a = face.0 as int;
        let c = self.spec_position()[a];
        let last = (1usize << self.spec_depth()) - 1;
        if face.1 && c < last {
            Some((self.spec_depth(), self.spec_position()@.update(a, (c + 1) as usize)))
        } else if !face.1 && c > 0 {
            Some((self.spec_depth(), self.spec_position()@.update(a, (c - 1) as usize)))
        } else {
            None
        }
    }

    /// The depth and coordinates of the cell across `edge` (axis, side, side), if it lies
    /// inside the cube.
    pub open spec fn across_edge(&self, edge: (u8, bool, bool)) -> Option<(usize, Seq<usize>)> {
        let a1 = (edge.0 + 1) % 3;
        let a2 = (edge.0 + 2) % 3;
        let c1 = self.spec_position()[a1];
        let c2 = self.spec_position()[a2];
        let last = (1usize << self.spec_depth()) - 1;
        let ok1 = if edge.1 { c1 < last } else { c1 > 0 };
        let ok2 = if edge.2 { c2 < last } else { c2 > 0 };
        if ok1 && ok2 {
            Some(
                (
                    self.spec_depth(),
                    self.spec_position()@.update(a1, (if edge.1 { c1 + 1 } else { c1 - 1 }) as usize).update(
                        a2,
                        (if edge.2 { c2 + 1 } else { c2 - 1 }) as usize,
                    ),
                ),
            )
        } else {
            None
        }
    }

    /// The cells of the same depth that share a face with this one, in the order of
    /// [`CubeFace::all`].
    pub fn face_adjacent(&self) -> (r: ArrayVec<OctreePath, 6>)
        ensures
            face_list_items(r).map_values(|p: OctreePath| p.cell()) == somes(
                Seq::new(6, |j: int| self.across_face(face_at(j))),
            ),
    {
        let faces = CubeFace::all();
        let ghost slots = Seq::new(6, |j: int| self.across_face(face_at(j)));
        let mut result = face_list_new();
        let mut i: usize = 0;
        while i < 6
            invariant
                i <= 6,
                forall|j: int| 0 <= j < 6 ==> #[trigger] faces[j]@ == face_at(j),
                slots == Seq::new(6, |j: int| self.across_face(face_at(j))),
                face_list_items(result).map_values(|p: OctreePath| p.cell()) == somes(slots.take(i as int)),
            decreases 6 - i,
        {
            proof {
                lemma_somes_len(slots.take(i as int));
                assert(slots.take(i + 1).drop_last() =~= slots.take(i as int));
            }
            let f = faces[i];
            match self.face_adjacent_for(f) {
                Some(adj) => {
                    face_list_push(&mut result, adj);
                    proof {
                        assert(face_list_items(result).map_values(|p: OctreePath| p.cell()) =~= somes(
                            slots.take(i as int),
                        ).push(adj.cell()));
                    }
                },
                None => {},
            }
            i = i + 1;
        }
        assert(slots.take(6) =~= slots);
        result
    }

    /// The cells of the same depth that share an edge with this one, in the order of
    /// [`CubeEdge::all`].
    pub fn edge_adjacent(&self) -> (r: ArrayVec<OctreePath, 12>)
        ensures
            edge_list_items(r).map_values(|p: OctreePath| p.cell()) == somes(
                Seq::new(12, |j: int| self.across_edge(edge_at(j))),
            ),
    {
        let edges = CubeEdge::all();
        let ghost slots = Seq::new(12, |j: int| self.across_edge(edge_at(j)));
        let mut result = edge_list_new();
        let mut i: usize = 0;
        while i < 12
            invariant
                i <= 12,
                forall|j: int| 0 <= j < 12 ==> #[trigger] edges[j]@ == edge_at(j),
                slots == Seq::new(12, |j: int| self.across_edge(edge_at(j))),
                edge_list_items(result).map_values(|p: OctreePath| p.cell()) == somes(slots.take(i as int)),
            decreases 12 - i,
        {
            proof {
                lemma_somes_len(slots.take(i as int));
                assert(slots.take(i + 1).drop_last() =~= slots.take(i as int));
            }
            let e = edges[i];
            match self.edge_adjacent_for(e) {
                Some(adj) => {
                    edge_list_push(&mut result, adj);
                    proof {
                        assert(edge_list_items(result).map_values(|p: OctreePath| p.cell()) =~= somes(
                            slots.take(i as int),
                        ).push(adj.cell()));
                    }
                },
                None => {},
            }
            i = i + 1;
        }
        assert(slots.take(12) =~= slots);
        result
    }
}

} // verus!
