//! Core BSP node data structure.

use vstd::prelude::*;
use vstd::arithmetic::power2::pow2;

verus! {

/// Classification of a polygon relative to a partition line.
#[derive(Debug, Clone, Copy, PartialEq, Eq, Structural)]
pub enum PlaneClass {
    Front,
    Back,
    OnPlane,
    Spanning,
}

/// Side of a partition line on which a single vertex lies, with the
/// tolerance already applied by whoever measured the distance.
#[derive(Debug, Clone, Copy, PartialEq, Eq, Structural)]
pub enum VertexSide {
    Front,
    Back,
    On,
}

/// A 2D line segment used as a partition line, from `a` to `b`; its front
/// is the side to the left of the direction a→b.
#[derive(Debug, Clone, Copy)]
pub struct Line2D<V> {
    pub a: V,
    pub b: V,
}

impl<V: Copy> Line2D<V> {
    pub fn new(a: V, b: V) -> (l: Self)
        ensures
            l.a == a,
            l.b == b,
    {
        Line2D { a, b }
    }
}

/// A convex polygon, given by its vertices in order.
#[derive(Debug, Clone)]
pub struct Polygon<V> {
    pub vertices: Vec<V>,
}

impl<V> Polygon<V> {
    pub fn new(vertices: Vec<V>) -> (p: Self)
        ensures
            p.vertices@ == vertices@,
    {
        Polygon { vertices }
    }
}

/// Number of entries of `sides` among the first `n` that equal `s`.
pub open spec fn count_side(sides: Seq<VertexSide>, n: int, s: VertexSide) -> nat
    decreases n,
{
    if n <= 0 {
        0
    } else {
        count_side(sides, n - 1, s) + if sides[n - 1] == s { 1nat } else { 0nat }
    }
}

/// Class of a polygon whose vertices lie on the given sides.
pub open spec fn spec_classify(sides: Seq<VertexSide>) -> PlaneClass {
    let front = count_side(sides, sides.len() as int, VertexSide::Front);
    let back = count_side(sides, sides.len() as int, VertexSide::Back);
    if front > 0 && back > 0 {
        PlaneClass::Spanning
    } else if front > 0 {
        PlaneClass::Front
    } else if back > 0 {
        PlaneClass::Back
    } else {
        PlaneClass::OnPlane
    }
}

/// Classifies a polygon from the sides of its vertices: spanning when some
/// vertex is in front and some behind, front or back when only one of
/// those occurs, on the plane when every vertex lies on it.
pub fn classify_sides(sides: &Vec<VertexSide>) -> (c: PlaneClass)
    ensures
        c == spec_classify(sides@),
{
    let mut front: usize = 0;
    let mut back: usize = 0;
    let mut i: usize = 0;
    while i < sides.len()
        invariant
            i <= sides.len(),
            front == count_side(sides@, i as int, VertexSide::Front),
            back == count_side(sides@, i as int, VertexSide::Back),
            front <= i,
            back <= i,
        decreases sides.len() - i,
    {
        match sides[i] {
            VertexSide::Front => {
                front = front + 1;
            },
            VertexSide::Back => {
                back = back + 1;
            },
            VertexSide::On => {},
        }
        i = i + 1;
    }
    if front > 0 && back > 0 {
        PlaneClass::Spanning
    } else if front > 0 {
        PlaneClass::Front
    } else if back > 0 {
        PlaneClass::Back
    } else {
        PlaneClass::OnPlane
    }
}

impl<V> Polygon<V> {
    /// Classify this polygon relative to a partition line, given the side
    /// of the line on which each of its vertices lies.
    pub fn classify(&self, sides: &Vec<VertexSide>) -> (c: PlaneClass)
        requires
            sides.len() == self.vertices.len(),
        ensures
            c == spec_classify(sides@),
    {
        classify_sides(sides)
    }
}

} // verus!

verus! {

/// A node in the BSP tree.
#[derive(Debug)]
pub enum BspNode<V> {
    /// Leaf node containing coplanar polygons.
    Leaf { polygons: Vec<Polygon<V>>, id: usize },
    /// Internal node with a partition line.
    Internal {
        plane: Line2D<V>,
        front: Box<BspNode<V>>,
        back: Box<BspNode<V>>,
        coplanar: Vec<Polygon<V>>,
    },
}

/// Number of polygons held by the leaves and the coplanar lists of a tree.
pub open spec fn spec_count_polygons<V>(node: BspNode<V>) -> nat
    decreases node,
{
    match node {
        BspNode::Leaf { polygons, .. } => polygons@.len(),
        BspNode::Internal { front, back, coplanar, .. } => spec_count_polygons(*front)
            + spec_count_polygons(*back) + coplanar@.len(),
    }
}

/// Number of nodes on a longest path from the root to a leaf.
pub open spec fn spec_depth<V>(node: BspNode<V>) -> nat
    decreases node,
{
    match node {
        BspNode::Leaf { .. } => 1,
        BspNode::Internal { front, back, .. } => {
            let f = spec_depth(*front);
            let b = spec_depth(*back);
            1 + if f >= b { f } else { b }
        },
    }
}

/// Leaf ids from left to right (front subtree before back subtree).
pub open spec fn spec_leaf_ids<V>(node: BspNode<V>) -> Seq<usize>
    decreases node,
{
    match node {
        BspNode::Leaf { id, .. } => seq![id],
        BspNode::Internal { front, back, .. } => spec_leaf_ids(*front) + spec_leaf_ids(*back),
    }
}

/// Number of internal nodes of a tree.
pub open spec fn spec_internal_count<V>(node: BspNode<V>) -> nat
    decreases node,
{
    match node {
        BspNode::Leaf { .. } => 0,
        BspNode::Internal { front, back, .. } => 1 + spec_internal_count(*front)
            + spec_internal_count(*back),
    }
}

/// Every tree has at least one leaf.
pub proof fn lemma_leaf_ids_nonempty<V>(node: BspNode<V>)
    ensures
        spec_leaf_ids(node).len() >= 1,
    decreases node,
{
    match node {
        BspNode::Leaf { .. } => {},
        BspNode::Internal { front, back, .. } => {
            lemma_leaf_ids_nonempty(*front);
        },
    }
}

/// A tree has one more leaf than it has internal nodes.
pub proof fn lemma_leaves_outnumber_internal_nodes<V>(node: BspNode<V>)
    ensures
        spec_leaf_ids(node).len() == spec_internal_count(node) + 1,
    decreases node,
{
    match node {
        BspNode::Leaf { .. } => {},
        BspNode::Internal { front, back, .. } => {
            lemma_leaves_outnumber_internal_nodes(*front);
            lemma_leaves_outnumber_internal_nodes(*back);
        },
    }
}

/// Every tree is at least one deep, and has at most 2^(depth - 1) leaves.
pub proof fn lemma_depth_bounds<V>(node: BspNode<V>)
    ensures
        spec_depth(node) >= 1,
        spec_leaf_ids(node).len() <= pow2((spec_depth(node) - 1) as nat),
    decreases node,
{
    broadcast use vstd::arithmetic::power2::lemma_pow2_pos;
    match node {
        BspNode::Leaf { .. } => {
            vstd::arithmetic::power2::lemma2_to64();
        },
        BspNode::Internal { front, back, .. } => {
            lemma_depth_bounds(*front);
            lemma_depth_bounds(*back);
            let df = spec_depth(*front);
            let db = spec_depth(*back);
            let d = spec_depth(node);
            if df < d - 1 {
                vstd::arithmetic::power2::lemma_pow2_strictly_increases((df - 1) as nat, (d - 2) as nat);
            }
            if db < d - 1 {
                vstd::arithmetic::power2::lemma_pow2_strictly_increases((db - 1) as nat, (d - 2) as nat);
            }
            vstd::arithmetic::power2::lemma_pow2_unfold((d - 1) as nat);
        },
    }
}

impl<V> BspNode<V> {
    pub fn new_leaf(polygons: Vec<Polygon<V>>, id: usize) -> (n: Self)
        ensures
            n matches BspNode::Leaf { polygons: ps, id: i } && ps@ == polygons@ && i == id,
    {
        BspNode::Leaf { polygons, id }
    }

    pub fn new_internal(
        plane: Line2D<V>,
        front: BspNode<V>,
        back: BspNode<V>,
        coplanar: Vec<Polygon<V>>,
    ) -> (n: Self)
        ensures
            n matches BspNode::Internal { plane: p, front: f, back: b, coplanar: c } && p == plane
                && *f == front && *b == back && c@ == coplanar@,
    {
        BspNode::Internal { plane, front: Box::new(front), back: Box::new(back), coplanar }
    }

    /// Count total polygons in the tree.
    pub fn count_polygons(&self) -> (count: usize)
        requires
            spec_count_polygons(*self) <= usize::MAX,
        ensures
            count == spec_count_polygons(*self),
        decreases self,
    {
        match self {
            BspNode::Leaf { polygons, .. } => polygons.len(),
            BspNode::Internal { front, back, coplanar, .. } => {
                front.count_polygons() + back.count_polygons() + coplanar.len()
            },
        }
    }

    /// Count the depth of the tree.
    pub fn depth(&self) -> (d: usize)
        requires
            spec_depth(*self) <= usize::MAX,
        ensures
            d == spec_depth(*self),
        decreases self,
    {
        match self {
            BspNode::Leaf { .. } => 1,
            BspNode::Internal { front, back, .. } => {
                let f = front.depth();
                let b = back.depth();
                1 + if f >= b { f } else { b }
            },
        }
    }

    /// Collect all leaf IDs.
    pub fn leaf_ids(&self) -> (ids: Vec<usize>)
        ensures
            ids@ == spec_leaf_ids(*self),
        decreases self,
    {
        match self {
            BspNode::Leaf { id, .. } => {
                let mut ids = Vec::new();
                ids.push(*id);
                ids
            },
            BspNode::Internal { front, back, .. } => {
                let mut ids = front.leaf_ids();
                let mut rest = back.leaf_ids();
                ids.append(&mut rest);
                ids
            },
        }
    }
}

} // verus!

verus! {

proof fn lemma_count_positive(sides: Seq<VertexSide>, n: int, s: VertexSide)
    requires
        0 <= n <= sides.len(),
    ensures
        (count_side(sides, n, s) > 0) == (exists|i: int| 0 <= i < n && sides[i] == s),
    decreases n,
{
    if n > 0 {
        lemma_count_positive(sides, n - 1, s);
        if exists|i: int| 0 <= i < n && sides[i] == s {
            let i = choose|i: int| 0 <= i < n && sides[i] == s;
            if i < n - 1 {
                assert(exists|j: int| 0 <= j < n - 1 && sides[j] == s);
            }
        }
    }
}

/// What classification means: a polygon spans the line exactly when some
/// vertex is strictly in front and some strictly behind; it is in front
/// when some vertex is in front and none behind, behind when some vertex
/// is behind and none in front, and on the plane when every vertex is on
/// the line.
pub proof fn lemma_classify_meaning(sides: Seq<VertexSide>)
    ensures
        ({
            let has_front = exists|i: int| 0 <= i < sides.len() && sides[i] == VertexSide::Front;
            let has_back = exists|i: int| 0 <= i < sides.len() && sides[i] == VertexSide::Back;
            &&& (spec_classify(sides) == PlaneClass::Spanning) == (has_front && has_back)
            &&& (spec_classify(sides) == PlaneClass::Front) == (has_front && !has_back)
            &&& (spec_classify(sides) == PlaneClass::Back) == (!has_front && has_back)
            &&& (spec_classify(sides) == PlaneClass::OnPlane) == (forall|i: int|
                0 <= i < sides.len() ==> sides[i] == VertexSide::On)
        }),
{
    lemma_count_positive(sides, sides.len() as int, VertexSide::Front);
    lemma_count_positive(sides, sides.len() as int, VertexSide::Back);
    if !(forall|i: int| 0 <= i < sides.len() ==> sides[i] == VertexSide::On) {
        let i = choose|i: int| 0 <= i < sides.len() && sides[i] != VertexSide::On;
        assert(sides[i] == VertexSide::Front || sides[i] == VertexSide::Back);
    }
}

} // verus!
