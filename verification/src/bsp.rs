//! BSP tree construction and traversal.

use vstd::prelude::*;
use vstd::seq_lib::lemma_multiset_commutative;
use crate::node::{BspNode, Line2D, PlaneClass, Polygon, spec_depth, spec_internal_count, spec_leaf_ids};

verus! {

/// Leaf ids in front-to-back order: at each internal node the subtree on
/// the viewer's side comes first. `in_front` holds, for each internal node
/// in preorder (node, front subtree, back subtree), whether the viewer is
/// on the front side of its partition line.
pub open spec fn spec_front_to_back<V>(node: BspNode<V>, in_front: Seq<bool>) -> Seq<usize>
    decreases node,
{
    match node {
        BspNode::Leaf { id, .. } => seq![id],
        BspNode::Internal { front, back, .. } => {
            let nf = spec_internal_count(*front) as int;
            let fs = in_front.subrange(1, 1 + nf);
            let bs = in_front.subrange(1 + nf, in_front.len() as int);
            if in_front[0] {
                spec_front_to_back(*front, fs) + spec_front_to_back(*back, bs)
            } else {
                spec_front_to_back(*back, bs) + spec_front_to_back(*front, fs)
            }
        },
    }
}

/// Leaf ids in back-to-front (painter's) order: at each internal node the
/// subtree away from the viewer comes first.
pub open spec fn spec_back_to_front<V>(node: BspNode<V>, in_front: Seq<bool>) -> Seq<usize>
    decreases node,
{
    match node {
        BspNode::Leaf { id, .. } => seq![id],
        BspNode::Internal { front, back, .. } => {
            let nf = spec_internal_count(*front) as int;
            let fs = in_front.subrange(1, 1 + nf);
            let bs = in_front.subrange(1 + nf, in_front.len() as int);
            if in_front[0] {
                spec_back_to_front(*back, bs) + spec_back_to_front(*front, fs)
            } else {
                spec_back_to_front(*front, fs) + spec_back_to_front(*back, bs)
            }
        },
    }
}

/// Partition lines of the internal nodes in preorder.
pub open spec fn spec_partition_lines<V>(node: BspNode<V>) -> Seq<Line2D<V>>
    decreases node,
{
    match node {
        BspNode::Leaf { .. } => Seq::empty(),
        BspNode::Internal { plane, front, back, .. } => seq![plane] + spec_partition_lines(*front)
            + spec_partition_lines(*back),
    }
}

proof fn lemma_partition_lines_len<V>(node: BspNode<V>)
    ensures
        spec_partition_lines(node).len() == spec_internal_count(node),
    decreases node,
{
    match node {
        BspNode::Leaf { .. } => {},
        BspNode::Internal { front, back, .. } => {
            lemma_partition_lines_len(*front);
            lemma_partition_lines_len(*back);
        },
    }
}

/// Back-to-front order is front-to-back order reversed, from every
/// viewpoint.
pub proof fn lemma_back_to_front_reverses<V>(node: BspNode<V>, in_front: Seq<bool>)
    ensures
        spec_back_to_front(node, in_front) == spec_front_to_back(node, in_front).reverse(),
    decreases node,
{
    match node {
        BspNode::Leaf { id, .. } => {
            assert(seq![id].reverse() =~= seq![id]);
        },
        BspNode::Internal { front, back, .. } => {
            let nf = spec_internal_count(*front) as int;
            let fs = in_front.subrange(1, 1 + nf);
            let bs = in_front.subrange(1 + nf, in_front.len() as int);
            lemma_back_to_front_reverses(*front, fs);
            lemma_back_to_front_reverses(*back, bs);
            let x = spec_front_to_back(*front, fs);
            let y = spec_front_to_back(*back, bs);
            assert((x + y).reverse() =~= y.reverse() + x.reverse());
            assert((y + x).reverse() =~= x.reverse() + y.reverse());
        },
    }
}

/// A front-to-back traversal lists every leaf of the tree exactly as often
/// as it occurs, from every viewpoint.
pub proof fn lemma_front_to_back_visits_every_leaf<V>(node: BspNode<V>, in_front: Seq<bool>)
    ensures
        spec_front_to_back(node, in_front).to_multiset() == spec_leaf_ids(node).to_multiset(),
    decreases node,
{
    match node {
        BspNode::Leaf { .. } => {},
        BspNode::Internal { front, back, .. } => {
            let nf = spec_internal_count(*front) as int;
            let fs = in_front.subrange(1, 1 + nf);
            let bs = in_front.subrange(1 + nf, in_front.len() as int);
            lemma_front_to_back_visits_every_leaf(*front, fs);
            lemma_front_to_back_visits_every_leaf(*back, bs);
            let x = spec_front_to_back(*front, fs);
            let y = spec_front_to_back(*back, bs);
            lemma_multiset_commutative(x, y);
            lemma_multiset_commutative(y, x);
            lemma_multiset_commutative(spec_leaf_ids(*front), spec_leaf_ids(*back));
            assert(x.to_multiset().add(y.to_multiset()) =~= y.to_multiset().add(x.to_multiset()));
        },
    }
}

/// Front-to-back traversal of a subtree whose internal nodes' sides start
/// at `start` in `in_front`; returns the ids and the position after them.
fn ftb_traverse<V>(node: &BspNode<V>, in_front: &Vec<bool>, start: usize) -> (r: (Vec<usize>, usize))
    requires
        start + spec_internal_count(*node) <= in_front.len(),
    ensures
        r.1 == start + spec_internal_count(*node),
        r.0@ == spec_front_to_back(*node, in_front@.subrange(start as int, r.1 as int)),
    decreases node,
{
    match node {
        BspNode::Leaf { id, .. } => {
            let mut ids = Vec::new();
            ids.push(*id);
            (ids, start)
        },
        BspNode::Internal { front, back, .. } => {
            let viewer_in_front = in_front[start];
            let (mut f, mid) = ftb_traverse(front, in_front, start + 1);
            let (mut b, end) = ftb_traverse(back, in_front, mid);
            proof {
                let s = in_front@.subrange(start as int, end as int);
                assert(s.subrange(1, 1 + spec_internal_count(**front) as int) =~= in_front@.subrange(
                    start + 1,
                    mid as int,
                ));
                assert(s.subrange(1 + spec_internal_count(**front) as int, s.len() as int)
                    =~= in_front@.subrange(mid as int, end as int));
            }
            if viewer_in_front {
                f.append(&mut b);
                (f, end)
            } else {
                b.append(&mut f);
                (b, end)
            }
        },
    }
}

/// Partition lines of a subtree in preorder.
fn partition_lines_of<V: Copy>(node: &BspNode<V>) -> (lines: Vec<Line2D<V>>)
    ensures
        lines@ == spec_partition_lines(*node),
    decreases node,
{
    match node {
        BspNode::Leaf { .. } => Vec::new(),
        BspNode::Internal { plane, front, back, .. } => {
            let mut lines = Vec::new();
            lines.push(*plane);
            let mut f = partition_lines_of(front);
            let mut b = partition_lines_of(back);
            lines.append(&mut f);
            lines.append(&mut b);
            lines
        },
    }
}

/// A BSP tree for 2D polygons.
pub struct BspTree<V> {
    root: BspNode<V>,
}

impl<V> BspTree<V> {
    /// A tree is never deeper than `usize` can count (building makes it no
    /// deeper than the number of polygons).
    #[verifier::type_invariant]
    spec fn depth_fits(self) -> bool {
        spec_depth(self.root) <= usize::MAX
    }

    /// The root node of the tree.
    pub closed spec fn spec_root(self) -> BspNode<V> {
        self.root
    }
}

impl<V: Copy> BspTree<V> {
    /// Get a reference to the root node.
    pub fn root(&self) -> (r: &BspNode<V>)
        ensures
            *r == self.spec_root(),
    {
        &self.root
    }

    /// The partition lines of the internal nodes in preorder (node, front
    /// subtree, back subtree): the order in which the traversals read the
    /// viewer's side of each line.
    pub fn partition_lines(&self) -> (lines: Vec<Line2D<V>>)
        ensures
            lines@ == spec_partition_lines(self.spec_root()),
            lines@.len() == spec_internal_count(self.spec_root()),
    {
        proof {
            lemma_partition_lines_len(self.root);
        }
        partition_lines_of(&self.root)
    }

    /// Traverse in front-to-back order from a viewer position.
    /// Returns leaf IDs in visibility priority order. `in_front[k]` tells
    /// whether the viewer is on the front side (signed distance at least
    /// zero) of the k-th line of `partition_lines`.
    pub fn traverse_front_to_back(&self, in_front: &Vec<bool>) -> (order: Vec<usize>)
        requires
            in_front.len() == spec_internal_count(self.spec_root()),
        ensures
            order@ == spec_front_to_back(self.spec_root(), in_front@),
    {
        let (order, _) = ftb_traverse(&self.root, in_front, 0);
        proof {
            assert(in_front@.subrange(0, in_front@.len() as int) =~= in_front@);
        }
        order
    }

    /// Traverse back-to-front (painter's algorithm order).
    pub fn traverse_back_to_front(&self, in_front: &Vec<bool>) -> (order: Vec<usize>)
        requires
            in_front.len() == spec_internal_count(self.spec_root()),
        ensures
            order@ == spec_back_to_front(self.spec_root(), in_front@),
    {
        let ftb = self.traverse_front_to_back(in_front);
        let mut order: Vec<usize> = Vec::new();
        let n = ftb.len();
        let mut i: usize = 0;
        while i < n
            invariant
                n == ftb.len(),
                i <= n,
                order@ =~= ftb@.reverse().subrange(0, i as int),
            decreases n - i,
        {
            order.push(ftb[n - 1 - i]);
            i = i + 1;
        }
        proof {
            lemma_back_to_front_reverses(self.root, in_front@);
            assert(ftb@.reverse().subrange(0, n as int) =~= ftb@.reverse());
        }
        order
    }

    /// Count total leaves.
    pub fn leaf_count(&self) -> (count: usize)
        ensures
            count == spec_leaf_ids(self.spec_root()).len(),
    {
        self.root.leaf_ids().len()
    }

    /// Get tree depth.
    pub fn depth(&self) -> (d: usize)
        ensures
            d == spec_depth(self.spec_root()),
    {
        proof {
            use_type_invariant(self);
        }
        self.root.depth()
    }
}

} // verus!

verus! {

/// The leaf id that follows `i`; ids wrap around after `usize::MAX`.
pub open spec fn next_leaf_id(i: usize) -> usize {
    if i == usize::MAX {
        0
    } else {
        (i + 1) as usize
    }
}

/// Partition line chosen for a list of polygons whose first polygon is
/// `first`: its first edge, or `fallback` when it has fewer than two
/// vertices.
pub open spec fn spec_partition_line<V>(first: Polygon<V>, fallback: Line2D<V>) -> Line2D<V> {
    if first.vertices@.len() >= 2 {
        Line2D { a: first.vertices@[0], b: first.vertices@[1] }
    } else {
        fallback
    }
}

/// The sequence holding the value of an option, if any.
pub open spec fn opt_seq<T>(o: Option<T>) -> Seq<T> {
    match o {
        Some(x) => seq![x],
        None => Seq::empty(),
    }
}

/// What one polygon of class `c` (with split parts `sp` when spanning)
/// contributes to the list `to`: Front and Back take the polygons of that
/// class and the matching part of a spanning one; OnPlane (the coplanar
/// list) takes the polygons on the line.
pub open spec fn routed_piece<V>(
    p: Polygon<V>,
    c: PlaneClass,
    sp: (Option<Polygon<V>>, Option<Polygon<V>>),
    to: PlaneClass,
) -> Seq<Polygon<V>> {
    match to {
        PlaneClass::Front => if c == PlaneClass::Front {
            seq![p]
        } else if c == PlaneClass::Spanning {
            opt_seq(sp.0)
        } else {
            Seq::empty()
        },
        PlaneClass::Back => if c == PlaneClass::Back {
            seq![p]
        } else if c == PlaneClass::Spanning {
            opt_seq(sp.1)
        } else {
            Seq::empty()
        },
        _ => if c == to {
            seq![p]
        } else {
            Seq::empty()
        },
    }
}

/// The list `to` made from the first `k` polygons of `rest`.
pub open spec fn routed<V>(
    rest: Seq<Polygon<V>>,
    classes: Seq<PlaneClass>,
    splits: Seq<(Option<Polygon<V>>, Option<Polygon<V>>)>,
    to: PlaneClass,
    k: int,
) -> Seq<Polygon<V>>
    decreases k,
{
    if k <= 0 {
        Seq::empty()
    } else {
        routed(rest, classes, splits, to, k - 1) + routed_piece(
            rest[k - 1],
            classes[k - 1],
            splits[k - 1],
            to,
        )
    }
}

/// `classes[i]` is a class that `classify` may give `rest[i]` against
/// `plane`, and for a spanning polygon `splits[i]` is a result that
/// `split` may give it.
pub open spec fn routing_ok<V, C, S>(
    rest: Seq<Polygon<V>>,
    plane: Line2D<V>,
    classes: Seq<PlaneClass>,
    splits: Seq<(Option<Polygon<V>>, Option<Polygon<V>>)>,
    classify: C,
    split: S,
) -> bool where
    C: Fn(&Polygon<V>, &Line2D<V>) -> PlaneClass,
    S: Fn(&Polygon<V>, &Line2D<V>) -> (Option<Polygon<V>>, Option<Polygon<V>>),
 {
    &&& classes.len() == rest.len()
    &&& splits.len() == rest.len()
    &&& forall|i: int|
        0 <= i < rest.len() ==> {
            &&& call_ensures(classify, (&rest[i], &plane), #[trigger] classes[i])
            &&& classes[i] == PlaneClass::Spanning ==> call_ensures(
                split,
                (&rest[i], &plane),
                splits[i],
            )
        }
}

/// The id following the last one used by the leaves of `node`, when its
/// leaves are numbered from `start` on.
pub open spec fn id_after<V>(node: BspNode<V>, start: usize) -> usize
    decreases node,
{
    match node {
        BspNode::Leaf { .. } => next_leaf_id(start),
        BspNode::Internal { front, back, .. } => id_after(*back, id_after(*front, start)),
    }
}

/// `node` is a tree that building `polys` may give, numbering its leaves
/// from `start` on: no polygon gives an empty leaf with id `start`; one
/// polygon gives a leaf that holds it, with id `start`; otherwise the first
/// polygon fixes the partition line and heads the coplanar list, every
/// other polygon goes by its class to the front list, the back list or the
/// coplanar list (a spanning one split into its parts), and the front
/// subtree is built from the front list before the back subtree is built
/// from the back list.
pub open spec fn builds<V, C, S>(
    node: BspNode<V>,
    polys: Seq<Polygon<V>>,
    start: usize,
    fallback: Line2D<V>,
    classify: C,
    split: S,
) -> bool where
    C: Fn(&Polygon<V>, &Line2D<V>) -> PlaneClass,
    S: Fn(&Polygon<V>, &Line2D<V>) -> (Option<Polygon<V>>, Option<Polygon<V>>),

    decreases node,
{
    match node {
        BspNode::Leaf { polygons, id } => {
            &&& polys.len() <= 1
            &&& polygons@ == polys
            &&& id == start
        },
        BspNode::Internal { plane, front, back, coplanar } => {
            let rest = polys.drop_first();
            let n = rest.len() as int;
            &&& polys.len() >= 2
            &&& plane == spec_partition_line(polys[0], fallback)
            &&& exists|
                classes: Seq<PlaneClass>,
                splits: Seq<(Option<Polygon<V>>, Option<Polygon<V>>)>,
            |
                #![trigger routing_ok(rest, plane, classes, splits, classify, split)]
                {
                    &&& routing_ok(rest, plane, classes, splits, classify, split)
                    &&& coplanar@ == seq![polys[0]] + routed(
                        rest,
                        classes,
                        splits,
                        PlaneClass::OnPlane,
                        n,
                    )
                    &&& builds(
                        *front,
                        routed(rest, classes, splits, PlaneClass::Front, n),
                        start,
                        fallback,
                        classify,
                        split,
                    )
                    &&& builds(
                        *back,
                        routed(rest, classes, splits, PlaneClass::Back, n),
                        id_after(*front, start),
                        fallback,
                        classify,
                        split,
                    )
                }
        },
    }
}

proof fn lemma_routed_prefix<V>(
    rest: Seq<Polygon<V>>,
    c1: Seq<PlaneClass>,
    s1: Seq<(Option<Polygon<V>>, Option<Polygon<V>>)>,
    c2: Seq<PlaneClass>,
    s2: Seq<(Option<Polygon<V>>, Option<Polygon<V>>)>,
    to: PlaneClass,
    k: int,
)
    requires
        0 <= k <= c1.len(),
        k <= c2.len(),
        k <= s1.len(),
        k <= s2.len(),
        forall|i: int| 0 <= i < k ==> c1[i] == c2[i] && s1[i] == s2[i],
    ensures
        routed(rest, c1, s1, to, k) == routed(rest, c2, s2, to, k),
    decreases k,
{
    if k > 0 {
        lemma_routed_prefix(rest, c1, s1, c2, s2, to, k - 1);
    }
}

} // verus!

verus! {

#[verifier::spinoff_prover]
/// Builds the subtree for `polygons`, numbering its leaves from
/// `*next_id` on.
fn build_recursive<V: Copy, C, S>(
    polygons: Vec<Polygon<V>>,
    next_id: &mut usize,
    fallback: Line2D<V>,
    classify: &C,
    split: &S,
) -> (node: BspNode<V>) where
    C: Fn(&Polygon<V>, &Line2D<V>) -> PlaneClass,
    S: Fn(&Polygon<V>, &Line2D<V>) -> (Option<Polygon<V>>, Option<Polygon<V>>),

    requires
        forall|p: &Polygon<V>, l: &Line2D<V>| call_requires(*classify, (p, l)),
        forall|p: &Polygon<V>, l: &Line2D<V>| call_requires(*split, (p, l)),
    ensures
        builds(node, polygons@, *old(next_id), fallback, *classify, *split),
        *final(next_id) == id_after(node, *old(next_id)),
    decreases polygons.len(),
{
    let mut polygons = polygons;
    if polygons.len() == 0 {
        let id = *next_id;
        *next_id = if id == usize::MAX { 0 } else { id + 1 };
        let leaf = BspNode::new_leaf(Vec::new(), id);
        assert(polygons@ =~= Seq::<Polygon<V>>::empty());
        return leaf;
    }
    if polygons.len() == 1 {
        let id = *next_id;
        *next_id = if id == usize::MAX { 0 } else { id + 1 };
        return BspNode::new_leaf(polygons, id);
    }
    // Use the first polygon's first edge as partition
    let plane = if polygons[0].vertices.len() >= 2 {
        Line2D::new(polygons[0].vertices[0], polygons[0].vertices[1])
    } else {
        fallback
    };
    let ghost all = polygons@;
    let partition = polygons.remove(0);
    let ghost rest = polygons@;
    assert(rest =~= all.drop_first());
    assert(plane == spec_partition_line(all[0], fallback));
    let mut front_polys: Vec<Polygon<V>> = Vec::new();
    let mut back_polys: Vec<Polygon<V>> = Vec::new();
    let mut coplanar: Vec<Polygon<V>> = Vec::new();
    coplanar.push(partition);
    let ghost mut classes: Seq<PlaneClass> = Seq::empty();
    let ghost mut splits: Seq<(Option<Polygon<V>>, Option<Polygon<V>>)> = Seq::empty();
    let ghost mut k: int = 0;
    while polygons.len() > 0
        invariant
            forall|p: &Polygon<V>, l: &Line2D<V>| call_requires(*classify, (p, l)),
            forall|p: &Polygon<V>, l: &Line2D<V>| call_requires(*split, (p, l)),
            all.len() >= 2,
            rest == all.drop_first(),
            plane == spec_partition_line(all[0], fallback),
            0 <= k <= rest.len(),
            polygons@ == rest.skip(k),
            classes.len() == k,
            splits.len() == k,
            forall|i: int|
                0 <= i < k ==> {
                    &&& call_ensures(*classify, (&rest[i], &plane), #[trigger] classes[i])
                    &&& classes[i] == PlaneClass::Spanning ==> call_ensures(
                        *split,
                        (&rest[i], &plane),
                        splits[i],
                    )
                },
            front_polys@ == routed(rest, classes, splits, PlaneClass::Front, k),
            back_polys@ == routed(rest, classes, splits, PlaneClass::Back, k),
            coplanar@ == seq![all[0]] + routed(rest, classes, splits, PlaneClass::OnPlane, k),
            front_polys.len() <= k,
            back_polys.len() <= k,
        decreases polygons.len(),
    {
        let ghost c_before = classes;
        let ghost s_before = splits;
        let poly = polygons.remove(0);
        assert(poly == rest[k]);
        let c = classify(&poly, &plane);
        let ghost mut sp: (Option<Polygon<V>>, Option<Polygon<V>>) = (None, None);
        match c {
            PlaneClass::Front => front_polys.push(poly),
            PlaneClass::Back => back_polys.push(poly),
            PlaneClass::OnPlane => coplanar.push(poly),
            PlaneClass::Spanning => {
                let r = split(&poly, &plane);
                proof {
                    sp = r;
                }
                let (f, b) = r;
                if let Some(fp) = f {
                    front_polys.push(fp);
                }
                if let Some(bp) = b {
                    back_polys.push(bp);
                }
            },
        }
        proof {
            classes = classes.push(c);
            splits = splits.push(sp);
            lemma_routed_prefix(rest, c_before, s_before, classes, splits, PlaneClass::Front, k);
            lemma_routed_prefix(rest, c_before, s_before, classes, splits, PlaneClass::Back, k);
            lemma_routed_prefix(rest, c_before, s_before, classes, splits, PlaneClass::OnPlane, k);
            assert(rest.skip(k + 1) =~= rest.skip(k).drop_first());
            k = k + 1;
        }
    }
    let ghost n = rest.len() as int;
    let ghost start = *next_id;
    let front = build_recursive(front_polys, next_id, fallback, classify, split);
    let back = build_recursive(back_polys, next_id, fallback, classify, split);
    let ghost cop = coplanar@;
    let node = BspNode::new_internal(plane, front, back, coplanar);
    proof {
        assert(k == n);
        assert(routing_ok(rest, plane, classes, splits, *classify, *split));
        assert(cop == seq![all[0]] + routed(rest, classes, splits, PlaneClass::OnPlane, n));
    }
    node
}

impl<V: Copy> BspTree<V> {
    /// Build a BSP tree from a list of polygons.
    ///
    /// The first polygon of each list is the partition: its first edge is
    /// the partition line (`fallback` when it has fewer than two
    /// vertices). `classify` places a polygon against a line and `split`
    /// cuts a spanning polygon into its front and back parts. The leaves
    /// are numbered 0, 1, 2, ... in front-then-back order, so that each id
    /// names one leaf (`lemma_built_leaf_ids`); the numbering would wrap
    /// around to 0 after `usize::MAX`.
    pub fn build<C, S>(polygons: Vec<Polygon<V>>, fallback: Line2D<V>, classify: &C, split: &S) -> (tree: Self) where
        C: Fn(&Polygon<V>, &Line2D<V>) -> PlaneClass,
        S: Fn(&Polygon<V>, &Line2D<V>) -> (Option<Polygon<V>>, Option<Polygon<V>>),

        requires
            forall|p: &Polygon<V>, l: &Line2D<V>| call_requires(*classify, (p, l)),
            forall|p: &Polygon<V>, l: &Line2D<V>| call_requires(*split, (p, l)),
        ensures
            builds(tree.spec_root(), polygons@, 0, fallback, *classify, *split),
    {
        let ghost polys = polygons@;
        let count = polygons.len();
        let mut next_id: usize = 0;
        let root = build_recursive(polygons, &mut next_id, fallback, classify, split);
        proof {
            lemma_build_depth(root, polys, 0, fallback, *classify, *split);
            assert(polys.len() == count);
        }
        BspTree { root }
    }
}

} // verus!

verus! {

/// Every leaf holds at most one polygon, every internal node has a
/// non-empty coplanar list, and each leaf's id is `start` advanced once
/// for every leaf before it (in front-then-back order).
pub open spec fn well_numbered<V>(node: BspNode<V>, start: usize) -> bool
    decreases node,
{
    match node {
        BspNode::Leaf { polygons, id } => polygons@.len() <= 1 && id == start,
        BspNode::Internal { front, back, coplanar, .. } => {
            &&& coplanar@.len() >= 1
            &&& well_numbered(*front, start)
            &&& well_numbered(*back, id_after(*front, start))
        },
    }
}

/// Shape of a built tree: no polygon or a single polygon gives a single
/// leaf holding them; more give an internal node; in every case the tree
/// is well numbered from the starting id.
pub proof fn lemma_build_shape<V, C, S>(
    node: BspNode<V>,
    polys: Seq<Polygon<V>>,
    start: usize,
    fallback: Line2D<V>,
    classify: C,
    split: S,
) where
    C: Fn(&Polygon<V>, &Line2D<V>) -> PlaneClass,
    S: Fn(&Polygon<V>, &Line2D<V>) -> (Option<Polygon<V>>, Option<Polygon<V>>),

    requires
        builds(node, polys, start, fallback, classify, split),
    ensures
        (node is Leaf) == (polys.len() <= 1),
        well_numbered(node, start),
    decreases node,
{
    match node {
        BspNode::Leaf { .. } => {},
        BspNode::Internal { plane, front, back, coplanar } => {
            let rest = polys.drop_first();
            let n = rest.len() as int;
            let (classes, splits) = choose|
                classes: Seq<PlaneClass>,
                splits: Seq<(Option<Polygon<V>>, Option<Polygon<V>>)>,
            |
                #![trigger routing_ok(rest, plane, classes, splits, classify, split)]
                {
                    &&& routing_ok(rest, plane, classes, splits, classify, split)
                    &&& coplanar@ == seq![polys[0]] + routed(
                        rest,
                        classes,
                        splits,
                        PlaneClass::OnPlane,
                        n,
                    )
                    &&& builds(
                        *front,
                        routed(rest, classes, splits, PlaneClass::Front, n),
                        start,
                        fallback,
                        classify,
                        split,
                    )
                    &&& builds(
                        *back,
                        routed(rest, classes, splits, PlaneClass::Back, n),
                        id_after(*front, start),
                        fallback,
                        classify,
                        split,
                    )
                };
            lemma_build_shape(
                *front,
                routed(rest, classes, splits, PlaneClass::Front, n),
                start,
                fallback,
                classify,
                split,
            );
            lemma_build_shape(
                *back,
                routed(rest, classes, splits, PlaneClass::Back, n),
                id_after(*front, start),
                fallback,
                classify,
                split,
            );
        },
    }
}

} // verus!

verus! {

/// Leaves numbered from `start` carry the ids `start`, `start + 1`, ...
/// in front-then-back order, as long as these fit in `usize`.
pub proof fn lemma_numbered_ids<V>(node: BspNode<V>, start: usize)
    requires
        well_numbered(node, start),
        start + spec_leaf_ids(node).len() <= usize::MAX + 1,
    ensures
        forall|k: int|
            0 <= k < spec_leaf_ids(node).len() ==> spec_leaf_ids(node)[k] == start + k,
        start + spec_leaf_ids(node).len() <= usize::MAX ==> id_after(node, start) == start
            + spec_leaf_ids(node).len(),
    decreases node,
{
    match node {
        BspNode::Leaf { .. } => {},
        BspNode::Internal { front, back, .. } => {
            let f = spec_leaf_ids(*front);
            let b = spec_leaf_ids(*back);
            crate::node::lemma_leaf_ids_nonempty(*back);
            lemma_numbered_ids(*front, start);
            let mid = id_after(*front, start);
            assert(mid == start + f.len());
            lemma_numbered_ids(*back, mid);
            assert forall|k: int| 0 <= k < (f + b).len() implies (f + b)[k] == start + k by {
                if k >= f.len() {
                    assert((f + b)[k] == b[k - f.len()]);
                }
            }
        },
    }
}

/// Each id of a built tree names one leaf: the leaves carry the ids
/// 0, 1, 2, ... in front-then-back order (given that there are no more
/// leaves than `usize` can number), so no two leaves share an id.
pub proof fn lemma_built_leaf_ids<V, C, S>(
    node: BspNode<V>,
    polys: Seq<Polygon<V>>,
    fallback: Line2D<V>,
    classify: C,
    split: S,
) where
    C: Fn(&Polygon<V>, &Line2D<V>) -> PlaneClass,
    S: Fn(&Polygon<V>, &Line2D<V>) -> (Option<Polygon<V>>, Option<Polygon<V>>),

    requires
        builds(node, polys, 0, fallback, classify, split),
        spec_leaf_ids(node).len() <= usize::MAX + 1,
    ensures
        forall|k: int| 0 <= k < spec_leaf_ids(node).len() ==> spec_leaf_ids(node)[k] == k,
        spec_leaf_ids(node).no_duplicates(),
{
    lemma_build_shape(node, polys, 0, fallback, classify, split);
    lemma_numbered_ids(node, 0);
}

proof fn lemma_routed_len<V>(
    rest: Seq<Polygon<V>>,
    classes: Seq<PlaneClass>,
    splits: Seq<(Option<Polygon<V>>, Option<Polygon<V>>)>,
    to: PlaneClass,
    k: int,
)
    requires
        0 <= k,
    ensures
        routed(rest, classes, splits, to, k).len() <= k,
    decreases k,
{
    if k > 0 {
        lemma_routed_len(rest, classes, splits, to, k - 1);
    }
}

/// A built tree is no deeper than the number of polygons it was built
/// from (and one deep when built from none).
pub proof fn lemma_build_depth<V, C, S>(
    node: BspNode<V>,
    polys: Seq<Polygon<V>>,
    start: usize,
    fallback: Line2D<V>,
    classify: C,
    split: S,
) where
    C: Fn(&Polygon<V>, &Line2D<V>) -> PlaneClass,
    S: Fn(&Polygon<V>, &Line2D<V>) -> (Option<Polygon<V>>, Option<Polygon<V>>),

    requires
        builds(node, polys, start, fallback, classify, split),
    ensures
        spec_depth(node) <= if polys.len() == 0 { 1 } else { polys.len() },
    decreases node,
{
    match node {
        BspNode::Leaf { .. } => {},
        BspNode::Internal { plane, front, back, coplanar } => {
            let rest = polys.drop_first();
            let n = rest.len() as int;
            let (classes, splits) = choose|
                classes: Seq<PlaneClass>,
                splits: Seq<(Option<Polygon<V>>, Option<Polygon<V>>)>,
            |
                #![trigger routing_ok(rest, plane, classes, splits, classify, split)]
                {
                    &&& routing_ok(rest, plane, classes, splits, classify, split)
                    &&& coplanar@ == seq![polys[0]] + routed(
                        rest,
                        classes,
                        splits,
                        PlaneClass::OnPlane,
                        n,
                    )
                    &&& builds(
                        *front,
                        routed(rest, classes, splits, PlaneClass::Front, n),
                        start,
                        fallback,
                        classify,
                        split,
                    )
                    &&& builds(
                        *back,
                        routed(rest, classes, splits, PlaneClass::Back, n),
                        id_after(*front, start),
                        fallback,
                        classify,
                        split,
                    )
                };
            lemma_routed_len(rest, classes, splits, PlaneClass::Front, n);
            lemma_routed_len(rest, classes, splits, PlaneClass::Back, n);
            lemma_build_depth(
                *front,
                routed(rest, classes, splits, PlaneClass::Front, n),
                start,
                fallback,
                classify,
                split,
            );
            lemma_build_depth(
                *back,
                routed(rest, classes, splits, PlaneClass::Back, n),
                id_after(*front, start),
                fallback,
                classify,
                split,
            );
        },
    }
}

} // verus!

verus! {

/// Splitting a polygon of at least three vertices keeps at least one
/// part, and every part kept has at least three vertices (as the
/// library's `split_polygon` does, see `lemma_split_keeps_a_part`).
pub open spec fn split_keeps_polygons<V, S>(split: S) -> bool where
    S: Fn(&Polygon<V>, &Line2D<V>) -> (Option<Polygon<V>>, Option<Polygon<V>>),
 {
    forall|p: &Polygon<V>, l: &Line2D<V>, r: (Option<Polygon<V>>, Option<Polygon<V>>)|
        p.vertices@.len() >= 3 && #[trigger] call_ensures(split, (p, l), r) ==> {
            &&& r.0 is Some || r.1 is Some
            &&& r.0 matches Some(q) ==> q.vertices@.len() >= 3
            &&& r.1 matches Some(q) ==> q.vertices@.len() >= 3
        }
}

/// `classify` never finds a polygon spanning a line.
pub open spec fn never_spans<V, C>(classify: C) -> bool where
    C: Fn(&Polygon<V>, &Line2D<V>) -> PlaneClass,
 {
    forall|p: &Polygon<V>, l: &Line2D<V>, c: PlaneClass|
        #[trigger] call_ensures(classify, (p, l), c) ==> c != PlaneClass::Spanning
}

/// Every polygon of `polys` has at least three vertices.
pub open spec fn all_proper<V>(polys: Seq<Polygon<V>>) -> bool {
    forall|j: int| 0 <= j < polys.len() ==> #[trigger] polys[j].vertices@.len() >= 3
}

proof fn lemma_routed_cover<V, C, S>(
    rest: Seq<Polygon<V>>,
    plane: Line2D<V>,
    classes: Seq<PlaneClass>,
    splits: Seq<(Option<Polygon<V>>, Option<Polygon<V>>)>,
    classify: C,
    split: S,
    k: int,
) where
    C: Fn(&Polygon<V>, &Line2D<V>) -> PlaneClass,
    S: Fn(&Polygon<V>, &Line2D<V>) -> (Option<Polygon<V>>, Option<Polygon<V>>),

    requires
        routing_ok(rest, plane, classes, splits, classify, split),
        split_keeps_polygons(split),
        all_proper(rest),
        0 <= k <= rest.len(),
    ensures
        routed(rest, classes, splits, PlaneClass::Front, k).len() + routed(
            rest,
            classes,
            splits,
            PlaneClass::Back,
            k,
        ).len() + routed(rest, classes, splits, PlaneClass::OnPlane, k).len() >= k,
        never_spans(classify) ==> routed(rest, classes, splits, PlaneClass::Front, k).len()
            + routed(rest, classes, splits, PlaneClass::Back, k).len() + routed(
            rest,
            classes,
            splits,
            PlaneClass::OnPlane,
            k,
        ).len() == k,
        all_proper(routed(rest, classes, splits, PlaneClass::Front, k)),
        all_proper(routed(rest, classes, splits, PlaneClass::Back, k)),
    decreases k,
{
    if k > 0 {
        lemma_routed_cover(rest, plane, classes, splits, classify, split, k - 1);
        assert(rest[k - 1].vertices@.len() >= 3);
        assert(call_ensures(classify, (&rest[k - 1], &plane), classes[k - 1]));
        if classes[k - 1] == PlaneClass::Spanning {
            assert(call_ensures(split, (&rest[k - 1], &plane), splits[k - 1]));
        }
        let pf = routed(rest, classes, splits, PlaneClass::Front, k - 1);
        let pb = routed(rest, classes, splits, PlaneClass::Back, k - 1);
        let nf = routed(rest, classes, splits, PlaneClass::Front, k);
        let nb = routed(rest, classes, splits, PlaneClass::Back, k);
        assert forall|j: int| 0 <= j < nf.len() implies #[trigger] nf[j].vertices@.len() >= 3 by {
            if j < pf.len() {
                assert(nf[j] == pf[j]);
            } else if classes[k - 1] == PlaneClass::Spanning {
                let sp = splits[k - 1];
                assert(sp.0 is Some);
                assert(nf[j] == sp.0->0);
            } else {
                assert(nf[j] == rest[k - 1]);
            }
        }
        assert forall|j: int| 0 <= j < nb.len() implies #[trigger] nb[j].vertices@.len() >= 3 by {
            if j < pb.len() {
                assert(nb[j] == pb[j]);
            } else if classes[k - 1] == PlaneClass::Spanning {
                let sp = splits[k - 1];
                assert(sp.1 is Some);
                assert(nb[j] == sp.1->0);
            } else {
                assert(nb[j] == rest[k - 1]);
            }
        }
    }
}

/// No polygon is lost: building from polygons of at least three vertices,
/// with a `split` that keeps at least one part of such a polygon and only
/// parts of at least three vertices, gives a tree that holds at least as
/// many polygons as it was built from (a split polygon is replaced by its
/// parts), and exactly as many when `classify` never finds a polygon
/// spanning a line.
pub proof fn lemma_no_polygon_lost<V, C, S>(
    node: BspNode<V>,
    polys: Seq<Polygon<V>>,
    start: usize,
    fallback: Line2D<V>,
    classify: C,
    split: S,
) where
    C: Fn(&Polygon<V>, &Line2D<V>) -> PlaneClass,
    S: Fn(&Polygon<V>, &Line2D<V>) -> (Option<Polygon<V>>, Option<Polygon<V>>),

    requires
        builds(node, polys, start, fallback, classify, split),
        split_keeps_polygons(split),
        all_proper(polys),
    ensures
        crate::node::spec_count_polygons(node) >= polys.len(),
        never_spans(classify) ==> crate::node::spec_count_polygons(node) == polys.len(),
    decreases node,
{
    match node {
        BspNode::Leaf { .. } => {},
        BspNode::Internal { plane, front, back, coplanar } => {
            let rest = polys.drop_first();
            let n = rest.len() as int;
            let (classes, splits) = choose|
                classes: Seq<PlaneClass>,
                splits: Seq<(Option<Polygon<V>>, Option<Polygon<V>>)>,
            |
                #![trigger routing_ok(rest, plane, classes, splits, classify, split)]
                {
                    &&& routing_ok(rest, plane, classes, splits, classify, split)
                    &&& coplanar@ == seq![polys[0]] + routed(
                        rest,
                        classes,
                        splits,
                        PlaneClass::OnPlane,
                        n,
                    )
                    &&& builds(
                        *front,
                        routed(rest, classes, splits, PlaneClass::Front, n),
                        start,
                        fallback,
                        classify,
                        split,
                    )
                    &&& builds(
                        *back,
                        routed(rest, classes, splits, PlaneClass::Back, n),
                        id_after(*front, start),
                        fallback,
                        classify,
                        split,
                    )
                };
            assert forall|j: int| 0 <= j < rest.len() implies #[trigger] rest[j].vertices@.len()
                >= 3 by {
                assert(rest[j] == polys[j + 1]);
            }
            lemma_routed_cover(rest, plane, classes, splits, classify, split, n);
            lemma_no_polygon_lost(
                *front,
                routed(rest, classes, splits, PlaneClass::Front, n),
                start,
                fallback,
                classify,
                split,
            );
            lemma_no_polygon_lost(
                *back,
                routed(rest, classes, splits, PlaneClass::Back, n),
                id_after(*front, start),
                fallback,
                classify,
                split,
            );
        },
    }
}

} // verus!

verus! {

/// Leaf ids front-to-back when each internal node decides by its own
/// partition line: `viewer_in_front(line)` tells whether the viewer is on
/// the front side of that line.
pub open spec fn order_by_lines<V>(node: BspNode<V>, viewer_in_front: spec_fn(Line2D<V>) -> bool) -> Seq<usize>
    decreases node,
{
    match node {
        BspNode::Leaf { id, .. } => seq![id],
        BspNode::Internal { plane, front, back, .. } => if viewer_in_front(plane) {
            order_by_lines(*front, viewer_in_front) + order_by_lines(*back, viewer_in_front)
        } else {
            order_by_lines(*back, viewer_in_front) + order_by_lines(*front, viewer_in_front)
        },
    }
}

/// Reading the viewer's side of each line of `partition_lines` gives the
/// traversal in which every internal node puts the subtree on the
/// viewer's side of its own partition line first: the k-th side read by
/// the traversal belongs to the k-th partition line.
pub proof fn lemma_traversal_follows_partition_lines<V>(
    node: BspNode<V>,
    viewer_in_front: spec_fn(Line2D<V>) -> bool,
)
    ensures
        spec_front_to_back(node, spec_partition_lines(node).map_values(viewer_in_front))
            == order_by_lines(node, viewer_in_front),
        spec_back_to_front(node, spec_partition_lines(node).map_values(viewer_in_front))
            == order_by_lines(node, viewer_in_front).reverse(),
    decreases node,
{
    let sides = spec_partition_lines(node).map_values(viewer_in_front);
    lemma_back_to_front_reverses(node, sides);
    match node {
        BspNode::Leaf { .. } => {},
        BspNode::Internal { plane, front, back, .. } => {
            lemma_partition_lines_len(*front);
            lemma_partition_lines_len(*back);
            lemma_traversal_follows_partition_lines(*front, viewer_in_front);
            lemma_traversal_follows_partition_lines(*back, viewer_in_front);
            let nf = spec_internal_count(*front) as int;
            let lf = spec_partition_lines(*front);
            let lb = spec_partition_lines(*back);
            assert(sides.subrange(1, 1 + nf) =~= lf.map_values(viewer_in_front));
            assert(sides.subrange(1 + nf, sides.len() as int) =~= lb.map_values(viewer_in_front));
            assert(sides[0] == viewer_in_front(plane));
        },
    }
}

} // verus!

verus! {

/// The polygons a tree holds: those of its leaves and of the coplanar
/// lists of its internal nodes.
pub open spec fn spec_stored<V>(node: BspNode<V>) -> Seq<Polygon<V>>
    decreases node,
{
    match node {
        BspNode::Leaf { polygons, .. } => polygons@,
        BspNode::Internal { front, back, coplanar, .. } => spec_stored(*front) + coplanar@
            + spec_stored(*back),
    }
}

/// `classify` and `split` agree with a model of the sides of a line:
/// `no_back(p, l)` says that no vertex of `p` is strictly behind `l`,
/// `no_front(p, l)` that none is strictly in front. A polygon classed
/// Front has none behind, Back none in front, OnPlane neither; the front
/// part of a split has none behind and the back part none in front; and a
/// part of a polygon lies on whatever side of any line the whole does.
pub open spec fn sides_model<V, C, S>(
    classify: C,
    split: S,
    no_back: spec_fn(Polygon<V>, Line2D<V>) -> bool,
    no_front: spec_fn(Polygon<V>, Line2D<V>) -> bool,
) -> bool where
    C: Fn(&Polygon<V>, &Line2D<V>) -> PlaneClass,
    S: Fn(&Polygon<V>, &Line2D<V>) -> (Option<Polygon<V>>, Option<Polygon<V>>),
 {
    &&& forall|p: &Polygon<V>, l: &Line2D<V>, c: PlaneClass|
        #[trigger] call_ensures(classify, (p, l), c) ==> {
            &&& c == PlaneClass::Front ==> no_back(*p, *l)
            &&& c == PlaneClass::Back ==> no_front(*p, *l)
            &&& c == PlaneClass::OnPlane ==> no_back(*p, *l) && no_front(*p, *l)
        }
    &&& forall|p: &Polygon<V>, l: &Line2D<V>, r: (Option<Polygon<V>>, Option<Polygon<V>>)|
        #[trigger] call_ensures(split, (p, l), r) ==> {
            &&& r.0 matches Some(q) ==> no_back(q, *l)
            &&& r.1 matches Some(q) ==> no_front(q, *l)
        }
    &&& forall|
        p: &Polygon<V>,
        l: &Line2D<V>,
        r: (Option<Polygon<V>>, Option<Polygon<V>>),
        m: Line2D<V>,
    |
        #![trigger call_ensures(split, (p, l), r), no_back(*p, m)]
        call_ensures(split, (p, l), r) && no_back(*p, m) ==> {
            &&& r.0 matches Some(q) ==> no_back(q, m)
            &&& r.1 matches Some(q) ==> no_back(q, m)
        }
    &&& forall|
        p: &Polygon<V>,
        l: &Line2D<V>,
        r: (Option<Polygon<V>>, Option<Polygon<V>>),
        m: Line2D<V>,
    |
        #![trigger call_ensures(split, (p, l), r), no_front(*p, m)]
        call_ensures(split, (p, l), r) && no_front(*p, m) ==> {
            &&& r.0 matches Some(q) ==> no_front(q, m)
            &&& r.1 matches Some(q) ==> no_front(q, m)
        }
}

/// Every internal node keeps its sides apart: no polygon held in its front
/// subtree has a vertex strictly behind its partition line, and none held
/// in its back subtree has one strictly in front.
pub open spec fn sides_respected<V>(
    node: BspNode<V>,
    no_back: spec_fn(Polygon<V>, Line2D<V>) -> bool,
    no_front: spec_fn(Polygon<V>, Line2D<V>) -> bool,
) -> bool
    decreases node,
{
    match node {
        BspNode::Leaf { .. } => true,
        BspNode::Internal { plane, front, back, .. } => {
            &&& forall|j: int|
                0 <= j < spec_stored(*front).len() ==> no_back(
                    #[trigger] spec_stored(*front)[j],
                    plane,
                )
            &&& forall|j: int|
                0 <= j < spec_stored(*back).len() ==> no_front(
                    #[trigger] spec_stored(*back)[j],
                    plane,
                )
            &&& sides_respected(*front, no_back, no_front)
            &&& sides_respected(*back, no_back, no_front)
        },
    }
}

proof fn lemma_routed_keeps<V, C, S>(
    rest: Seq<Polygon<V>>,
    plane: Line2D<V>,
    classes: Seq<PlaneClass>,
    splits: Seq<(Option<Polygon<V>>, Option<Polygon<V>>)>,
    classify: C,
    split: S,
    to: PlaneClass,
    k: int,
    prop: spec_fn(Polygon<V>) -> bool,
) where
    C: Fn(&Polygon<V>, &Line2D<V>) -> PlaneClass,
    S: Fn(&Polygon<V>, &Line2D<V>) -> (Option<Polygon<V>>, Option<Polygon<V>>),

    requires
        routing_ok(rest, plane, classes, splits, classify, split),
        0 <= k <= rest.len(),
        forall|i: int| 0 <= i < rest.len() ==> prop(#[trigger] rest[i]),
        forall|p: &Polygon<V>, l: &Line2D<V>, r: (Option<Polygon<V>>, Option<Polygon<V>>)|
            #[trigger] call_ensures(split, (p, l), r) && prop(*p) ==> {
                &&& r.0 matches Some(q) ==> prop(q)
                &&& r.1 matches Some(q) ==> prop(q)
            },
    ensures
        forall|j: int|
            0 <= j < routed(rest, classes, splits, to, k).len() ==> prop(
                #[trigger] routed(rest, classes, splits, to, k)[j],
            ),
    decreases k,
{
    if k > 0 {
        lemma_routed_keeps(rest, plane, classes, splits, classify, split, to, k - 1, prop);
        let prev = routed(rest, classes, splits, to, k - 1);
        let cur = routed(rest, classes, splits, to, k);
        assert(prop(rest[k - 1]));
        if classes[k - 1] == PlaneClass::Spanning {
            assert(call_ensures(split, (&rest[k - 1], &plane), splits[k - 1]));
        }
        assert forall|j: int| 0 <= j < cur.len() implies prop(#[trigger] cur[j]) by {
            if j < prev.len() {
                assert(cur[j] == prev[j]);
            } else if classes[k - 1] == PlaneClass::Spanning && (to == PlaneClass::Front
                || to == PlaneClass::Back) {
                let sp = splits[k - 1];
                if to == PlaneClass::Front {
                    assert(cur[j] == sp.0->0);
                } else {
                    assert(cur[j] == sp.1->0);
                }
            } else {
                assert(cur[j] == rest[k - 1]);
            }
        }
    }
}

/// A property that all the polygons given to a build have, and that the
/// parts of a split inherit, holds of every polygon the built tree holds.
proof fn lemma_stored_keeps<V, C, S>(
    node: BspNode<V>,
    polys: Seq<Polygon<V>>,
    start: usize,
    fallback: Line2D<V>,
    classify: C,
    split: S,
    prop: spec_fn(Polygon<V>) -> bool,
) where
    C: Fn(&Polygon<V>, &Line2D<V>) -> PlaneClass,
    S: Fn(&Polygon<V>, &Line2D<V>) -> (Option<Polygon<V>>, Option<Polygon<V>>),

    requires
        builds(node, polys, start, fallback, classify, split),
        forall|i: int| 0 <= i < polys.len() ==> prop(#[trigger] polys[i]),
        forall|p: &Polygon<V>, l: &Line2D<V>, r: (Option<Polygon<V>>, Option<Polygon<V>>)|
            #[trigger] call_ensures(split, (p, l), r) && prop(*p) ==> {
                &&& r.0 matches Some(q) ==> prop(q)
                &&& r.1 matches Some(q) ==> prop(q)
            },
    ensures
        forall|j: int| 0 <= j < spec_stored(node).len() ==> prop(#[trigger] spec_stored(node)[j]),
    decreases node,
{
    match node {
        BspNode::Leaf { .. } => {},
        BspNode::Internal { plane, front, back, coplanar } => {
            let rest = polys.drop_first();
            let n = rest.len() as int;
            let (classes, splits) = choose|
                classes: Seq<PlaneClass>,
                splits: Seq<(Option<Polygon<V>>, Option<Polygon<V>>)>,
            |
                #![trigger routing_ok(rest, plane, classes, splits, classify, split)]
                {
                    &&& routing_ok(rest, plane, classes, splits, classify, split)
                    &&& coplanar@ == seq![polys[0]] + routed(
                        rest,
                        classes,
                        splits,
                        PlaneClass::OnPlane,
                        n,
                    )
                    &&& builds(
                        *front,
                        routed(rest, classes, splits, PlaneClass::Front, n),
                        start,
                        fallback,
                        classify,
                        split,
                    )
                    &&& builds(
                        *back,
                        routed(rest, classes, splits, PlaneClass::Back, n),
                        id_after(*front, start),
                        fallback,
                        classify,
                        split,
                    )
                };
            assert forall|i: int| 0 <= i < rest.len() implies prop(#[trigger] rest[i]) by {
                assert(rest[i] == polys[i + 1]);
            }
            assert(prop(polys[0]));
            lemma_routed_keeps(rest, plane, classes, splits, classify, split, PlaneClass::Front, n, prop);
            lemma_routed_keeps(rest, plane, classes, splits, classify, split, PlaneClass::Back, n, prop);
            lemma_routed_keeps(rest, plane, classes, splits, classify, split, PlaneClass::OnPlane, n, prop);
            let fl = routed(rest, classes, splits, PlaneClass::Front, n);
            let bl = routed(rest, classes, splits, PlaneClass::Back, n);
            lemma_stored_keeps(*front, fl, start, fallback, classify, split, prop);
            lemma_stored_keeps(*back, bl, id_after(*front, start), fallback, classify, split, prop);
            let sf = spec_stored(*front);
            let sb = spec_stored(*back);
            let cp = coplanar@;
            let on = routed(rest, classes, splits, PlaneClass::OnPlane, n);
            assert forall|j: int| 0 <= j < cp.len() implies prop(#[trigger] cp[j]) by {
                if j > 0 {
                    assert(cp[j] == on[j - 1]);
                }
            }
            let all = sf + cp + sb;
            assert forall|j: int| 0 <= j < all.len() implies prop(#[trigger] all[j]) by {
                if j < sf.len() {
                    assert(all[j] == sf[j]);
                } else if j < sf.len() + cp.len() {
                    assert(all[j] == cp[j - sf.len()]);
                } else {
                    assert(all[j] == sb[j - sf.len() - cp.len()]);
                }
            }
        },
    }
}

proof fn lemma_routed_sides<V, C, S>(
    rest: Seq<Polygon<V>>,
    plane: Line2D<V>,
    classes: Seq<PlaneClass>,
    splits: Seq<(Option<Polygon<V>>, Option<Polygon<V>>)>,
    classify: C,
    split: S,
    no_back: spec_fn(Polygon<V>, Line2D<V>) -> bool,
    no_front: spec_fn(Polygon<V>, Line2D<V>) -> bool,
    k: int,
) where
    C: Fn(&Polygon<V>, &Line2D<V>) -> PlaneClass,
    S: Fn(&Polygon<V>, &Line2D<V>) -> (Option<Polygon<V>>, Option<Polygon<V>>),

    requires
        routing_ok(rest, plane, classes, splits, classify, split),
        sides_model(classify, split, no_back, no_front),
        0 <= k <= rest.len(),
    ensures
        forall|j: int|
            0 <= j < routed(rest, classes, splits, PlaneClass::Front, k).len() ==> no_back(
                #[trigger] routed(rest, classes, splits, PlaneClass::Front, k)[j],
                plane,
            ),
        forall|j: int|
            0 <= j < routed(rest, classes, splits, PlaneClass::Back, k).len() ==> no_front(
                #[trigger] routed(rest, classes, splits, PlaneClass::Back, k)[j],
                plane,
            ),
    decreases k,
{
    if k > 0 {
        lemma_routed_sides(rest, plane, classes, splits, classify, split, no_back, no_front, k - 1);
        assert(call_ensures(classify, (&rest[k - 1], &plane), classes[k - 1]));
        if classes[k - 1] == PlaneClass::Spanning {
            assert(call_ensures(split, (&rest[k - 1], &plane), splits[k - 1]));
        }
        let pf = routed(rest, classes, splits, PlaneClass::Front, k - 1);
        let pb = routed(rest, classes, splits, PlaneClass::Back, k - 1);
        let nf = routed(rest, classes, splits, PlaneClass::Front, k);
        let nb = routed(rest, classes, splits, PlaneClass::Back, k);
        assert forall|j: int| 0 <= j < nf.len() implies no_back(#[trigger] nf[j], plane) by {
            if j < pf.len() {
                assert(nf[j] == pf[j]);
            } else if classes[k - 1] == PlaneClass::Spanning {
                assert(nf[j] == splits[k - 1].0->0);
            } else {
                assert(nf[j] == rest[k - 1]);
            }
        }
        assert forall|j: int| 0 <= j < nb.len() implies no_front(#[trigger] nb[j], plane) by {
            if j < pb.len() {
                assert(nb[j] == pb[j]);
            } else if classes[k - 1] == PlaneClass::Spanning {
                assert(nb[j] == splits[k - 1].1->0);
            } else {
                assert(nb[j] == rest[k - 1]);
            }
        }
    }
}

/// A built tree keeps the sides of every partition line apart: when
/// `classify` and `split` agree with a model of which side of a line a
/// polygon lies on (`sides_model`), every polygon held in the front
/// subtree of an internal node has no vertex strictly behind its partition
/// line, and every polygon held in its back subtree none strictly in
/// front. In particular the front part of a split polygon goes front and
/// its back part goes back.
pub proof fn lemma_build_respects_sides<V, C, S>(
    node: BspNode<V>,
    polys: Seq<Polygon<V>>,
    start: usize,
    fallback: Line2D<V>,
    classify: C,
    split: S,
    no_back: spec_fn(Polygon<V>, Line2D<V>) -> bool,
    no_front: spec_fn(Polygon<V>, Line2D<V>) -> bool,
) where
    C: Fn(&Polygon<V>, &Line2D<V>) -> PlaneClass,
    S: Fn(&Polygon<V>, &Line2D<V>) -> (Option<Polygon<V>>, Option<Polygon<V>>),

    requires
        builds(node, polys, start, fallback, classify, split),
        sides_model(classify, split, no_back, no_front),
    ensures
        sides_respected(node, no_back, no_front),
    decreases node,
{
    match node {
        BspNode::Leaf { .. } => {},
        BspNode::Internal { plane, front, back, coplanar } => {
            let rest = polys.drop_first();
            let n = rest.len() as int;
            let (classes, splits) = choose|
                classes: Seq<PlaneClass>,
                splits: Seq<(Option<Polygon<V>>, Option<Polygon<V>>)>,
            |
                #![trigger routing_ok(rest, plane, classes, splits, classify, split)]
                {
                    &&& routing_ok(rest, plane, classes, splits, classify, split)
                    &&& coplanar@ == seq![polys[0]] + routed(
                        rest,
                        classes,
                        splits,
                        PlaneClass::OnPlane,
                        n,
                    )
                    &&& builds(
                        *front,
                        routed(rest, classes, splits, PlaneClass::Front, n),
                        start,
                        fallback,
                        classify,
                        split,
                    )
                    &&& builds(
                        *back,
                        routed(rest, classes, splits, PlaneClass::Back, n),
                        id_after(*front, start),
                        fallback,
                        classify,
                        split,
                    )
                };
            let fl = routed(rest, classes, splits, PlaneClass::Front, n);
            let bl = routed(rest, classes, splits, PlaneClass::Back, n);
            lemma_routed_sides(rest, plane, classes, splits, classify, split, no_back, no_front, n);
            let pb = |q: Polygon<V>| no_back(q, plane);
            let pf = |q: Polygon<V>| no_front(q, plane);
            assert forall|i: int| 0 <= i < fl.len() implies pb(#[trigger] fl[i]) by {}
            assert forall|i: int| 0 <= i < bl.len() implies pf(#[trigger] bl[i]) by {}
            assert forall|p: &Polygon<V>, l: &Line2D<V>, r: (Option<Polygon<V>>, Option<Polygon<V>>)|
                #[trigger] call_ensures(split, (p, l), r) && pb(*p) implies {
                    &&& r.0 matches Some(q) ==> pb(q)
                    &&& r.1 matches Some(q) ==> pb(q)
                } by {
                assert(no_back(*p, plane));
            }
            assert forall|p: &Polygon<V>, l: &Line2D<V>, r: (Option<Polygon<V>>, Option<Polygon<V>>)|
                #[trigger] call_ensures(split, (p, l), r) && pf(*p) implies {
                    &&& r.0 matches Some(q) ==> pf(q)
                    &&& r.1 matches Some(q) ==> pf(q)
                } by {
                assert(no_front(*p, plane));
            }
            lemma_stored_keeps(*front, fl, start, fallback, classify, split, pb);
            lemma_stored_keeps(*back, bl, id_after(*front, start), fallback, classify, split, pf);
            lemma_build_respects_sides(*front, fl, start, fallback, classify, split, no_back, no_front);
            lemma_build_respects_sides(
                *back,
                bl,
                id_after(*front, start),
                fallback,
                classify,
                split,
                no_back,
                no_front,
            );
        },
    }
}

} // verus!
