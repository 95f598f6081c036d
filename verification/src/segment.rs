//! A BSP tree over line segments: each branch splits the segments by the
//! line through its splitter, keeping the splitter on its front side.

use vstd::prelude::*;
use vstd::seq_lib::lemma_multiset_commutative;

verus! {

/// A 2D line segment from `a` to `b`.
#[derive(Debug, Clone, Copy, PartialEq)]
pub struct Line<P> {
    pub a: P,
    pub b: P,
}

impl<P: Copy> Line<P> {
    pub fn new(a: P, b: P) -> (l: Self)
        ensures
            l.a == a,
            l.b == b,
    {
        Line { a, b }
    }
}

/// The (front, back) parts of `line` cut by a divider, from the sides of
/// its endpoints (`a_front`: `a` is on the front side or on the divider)
/// and the point `mid` where it meets the divider.
pub open spec fn spec_split_segment<P>(line: Line<P>, a_front: bool, b_front: bool, mid: P) -> (
    Option<Line<P>>,
    Option<Line<P>>,
) {
    if a_front && b_front {
        (Some(line), None)
    } else if !a_front && !b_front {
        (None, Some(line))
    } else if a_front {
        (Some(Line { a: line.a, b: mid }), Some(Line { a: mid, b: line.b }))
    } else {
        (Some(Line { a: mid, b: line.b }), Some(Line { a: line.a, b: mid }))
    }
}

/// Clips a segment against a divider, returning its (front, back) parts:
/// the whole segment on the side of both endpoints, or the two pieces on
/// either side of `mid` when the endpoints lie on opposite sides. `mid` is
/// used only in that last case.
pub fn split_segment<P: Copy>(line: &Line<P>, a_front: bool, b_front: bool, mid: P) -> (parts: (
    Option<Line<P>>,
    Option<Line<P>>,
))
    ensures
        parts == spec_split_segment(*line, a_front, b_front, mid),
{
    if a_front && b_front {
        return (Some(*line), None);
    }
    if !a_front && !b_front {
        return (None, Some(*line));
    }
    if a_front {
        (Some(Line::new(line.a, mid)), Some(Line::new(mid, line.b)))
    } else {
        (Some(Line::new(mid, line.b)), Some(Line::new(line.a, mid)))
    }
}

/// A node of a segment BSP tree.
pub enum BspNode<P> {
    Leaf { lines: Vec<Line<P>> },
    Branch { splitter: Line<P>, front: Box<BspNode<P>>, back: Box<BspNode<P>> },
}

/// Two trees have the same shape, the same splitters and the same leaf
/// lines.
pub open spec fn same_tree<P>(x: BspNode<P>, y: BspNode<P>) -> bool
    decreases x,
{
    match (x, y) {
        (BspNode::Leaf { lines: a }, BspNode::Leaf { lines: b }) => a@ == b@,
        (
            BspNode::Branch { splitter: s1, front: f1, back: b1 },
            BspNode::Branch { splitter: s2, front: f2, back: b2 },
        ) => s1 == s2 && same_tree(*f1, *f2) && same_tree(*b1, *b2),
        _ => false,
    }
}

impl<P: Copy> Clone for BspNode<P> {
    fn clone(&self) -> (c: Self)
        ensures
            same_tree(c, *self),
        decreases self,
    {
        match self {
            BspNode::Leaf { lines } => {
                let mut copy: Vec<Line<P>> = Vec::new();
                let mut i: usize = 0;
                while i < lines.len()
                    invariant
                        i <= lines.len(),
                        copy@ == lines@.subrange(0, i as int),
                    decreases lines.len() - i,
                {
                    copy.push(lines[i]);
                    i = i + 1;
                    proof {
                        assert(copy@ =~= lines@.subrange(0, i as int));
                    }
                }
                proof {
                    assert(copy@ =~= lines@);
                }
                BspNode::Leaf { lines: copy }
            },
            BspNode::Branch { splitter, front, back } => BspNode::Branch {
                splitter: *splitter,
                front: Box::new((**front).clone()),
                back: Box::new((**back).clone()),
            },
        }
    }
}

/// A line of a list being built, with whether it has already served as a
/// splitter (pieces of a line keep its mark).
pub type Item<P> = (Line<P>, bool);

/// The lines of a list of items.
pub open spec fn lines_of<P>(items: Seq<Item<P>>) -> Seq<Line<P>> {
    items.map_values(|it: Item<P>| it.0)
}

/// The items of a list of lines none of which has served as a splitter.
pub open spec fn fresh_items<P>(lines: Seq<Line<P>>) -> Seq<Item<P>> {
    lines.map_values(|l: Line<P>| (l, false))
}

/// Number of items that have not served as a splitter.
pub open spec fn fresh_count<P>(items: Seq<Item<P>>) -> nat
    decreases items.len(),
{
    if items.len() == 0 {
        0
    } else {
        fresh_count(items.drop_last()) + if items.last().1 {
            0nat
        } else {
            1nat
        }
    }
}

/// `i` is the first item that has not served as a splitter.
pub open spec fn first_fresh_at<P>(items: Seq<Item<P>>, i: int) -> bool {
    &&& 0 <= i < items.len()
    &&& !items[i].1
    &&& forall|j: int| 0 <= j < i ==> #[trigger] items[j].1
}

/// The pieces of the first `k` items that `rs` puts on the front side,
/// each with the mark of its item.
pub open spec fn front_items<P>(
    rest: Seq<Item<P>>,
    rs: Seq<(Option<Line<P>>, Option<Line<P>>)>,
    k: int,
) -> Seq<Item<P>>
    decreases k,
{
    if k <= 0 {
        Seq::empty()
    } else {
        let prev = front_items(rest, rs, k - 1);
        match rs[k - 1].0 {
            Some(l) => prev.push((l, rest[k - 1].1)),
            None => prev,
        }
    }
}

/// The pieces of the first `k` items that `rs` puts on the back side,
/// each with the mark of its item.
pub open spec fn back_items<P>(
    rest: Seq<Item<P>>,
    rs: Seq<(Option<Line<P>>, Option<Line<P>>)>,
    k: int,
) -> Seq<Item<P>>
    decreases k,
{
    if k <= 0 {
        Seq::empty()
    } else {
        let prev = back_items(rest, rs, k - 1);
        match rs[k - 1].1 {
            Some(l) => prev.push((l, rest[k - 1].1)),
            None => prev,
        }
    }
}

/// `rs[i]` is a result that `split` may give for `rest[i]` against
/// `splitter`.
pub open spec fn splits_ok<P, F: Fn(&Line<P>, &Line<P>) -> (Option<Line<P>>, Option<Line<P>>)>(
    rest: Seq<Line<P>>,
    splitter: Line<P>,
    rs: Seq<(Option<Line<P>>, Option<Line<P>>)>,
    split: F,
) -> bool {
    &&& rs.len() == rest.len()
    &&& forall|i: int|
        0 <= i < rest.len() ==> call_ensures(split, (&rest[i], &splitter), #[trigger] rs[i])
}

/// `node` is a tree that building from `items` may give. A list of at
/// most one line, or whose lines have all served as splitters, gives a
/// leaf holding its lines. Otherwise the first line that has not served as
/// a splitter becomes the splitter, the other lines are split by it, and
/// the front subtree is built from the front pieces followed by the
/// splitter (now marked), the back subtree from the back pieces.
pub open spec fn builds<P, F: Fn(&Line<P>, &Line<P>) -> (Option<Line<P>>, Option<Line<P>>)>(
    node: BspNode<P>,
    items: Seq<Item<P>>,
    split: F,
) -> bool
    decreases node,
{
    match node {
        BspNode::Leaf { lines } => {
            &&& items.len() <= 1 || forall|j: int| 0 <= j < items.len() ==> #[trigger] items[j].1
            &&& lines@ == lines_of(items)
        },
        BspNode::Branch { splitter, front, back } => {
            &&& items.len() >= 2
            &&& exists|i: int, rs: Seq<(Option<Line<P>>, Option<Line<P>>)>|
                #![trigger splits_ok(lines_of(items.remove(i)), items[i].0, rs, split)]
                {
                    let rest = items.remove(i);
                    &&& first_fresh_at(items, i)
                    &&& splitter == items[i].0
                    &&& splits_ok(lines_of(rest), items[i].0, rs, split)
                    &&& builds(
                        *front,
                        front_items(rest, rs, rest.len() as int).push((items[i].0, true)),
                        split,
                    )
                    &&& builds(*back, back_items(rest, rs, rest.len() as int), split)
                }
        },
    }
}

proof fn lemma_fresh_count_concat<P>(a: Seq<Item<P>>, b: Seq<Item<P>>)
    ensures
        fresh_count(a + b) == fresh_count(a) + fresh_count(b),
    decreases b.len(),
{
    if b.len() > 0 {
        assert((a + b).drop_last() =~= a + b.drop_last());
        lemma_fresh_count_concat(a, b.drop_last());
    } else {
        assert(a + b =~= a);
    }
}

proof fn lemma_fresh_count_zero<P>(items: Seq<Item<P>>)
    requires
        forall|j: int| 0 <= j < items.len() ==> #[trigger] items[j].1,
    ensures
        fresh_count(items) == 0,
    decreases items.len(),
{
    if items.len() > 0 {
        lemma_fresh_count_zero(items.drop_last());
    }
}

proof fn lemma_items_prefix<P>(
    rest: Seq<Item<P>>,
    r1: Seq<(Option<Line<P>>, Option<Line<P>>)>,
    r2: Seq<(Option<Line<P>>, Option<Line<P>>)>,
    k: int,
)
    requires
        0 <= k <= r1.len(),
        k <= r2.len(),
        forall|i: int| 0 <= i < k ==> r1[i] == r2[i],
    ensures
        front_items(rest, r1, k) == front_items(rest, r2, k),
        back_items(rest, r1, k) == back_items(rest, r2, k),
    decreases k,
{
    if k > 0 {
        lemma_items_prefix(rest, r1, r2, k - 1);
    }
}

fn build<P: Copy, F>(items: Vec<Item<P>>, split: &F) -> (node: BspNode<P>) where
    F: Fn(&Line<P>, &Line<P>) -> (Option<Line<P>>, Option<Line<P>>),

    requires
        forall|l: &Line<P>, d: &Line<P>| call_requires(*split, (l, d)),
    ensures
        builds(node, items@, *split),
    decreases fresh_count(items@),
{
    let mut items = items;
    let ghost all = items@;
    // Find the first line that has not served as a splitter.
    let mut i: usize = 0;
    while i < items.len() && items[i].1
        invariant
            items@ == all,
            i <= items.len(),
            forall|j: int| 0 <= j < i ==> #[trigger] items@[j].1,
        decreases items.len() - i,
    {
        i = i + 1;
    }
    if items.len() <= 1 || i == items.len() {
        let mut lines: Vec<Line<P>> = Vec::new();
        let mut k: usize = 0;
        while k < items.len()
            invariant
                items@ == all,
                k <= items.len(),
                lines@ == lines_of(all).take(k as int),
            decreases items.len() - k,
        {
            lines.push(items[k].0);
            k = k + 1;
            proof {
                assert(lines@ =~= lines_of(all).take(k as int));
            }
        }
        proof {
            assert(lines_of(all).take(all.len() as int) =~= lines_of(all));
        }
        return BspNode::Leaf { lines };
    }
    // Take it as the splitter
    let (splitter, _) = items.remove(i);
    let ghost rest = items@;
    proof {
        assert(rest =~= all.remove(i as int));
        assert(first_fresh_at(all, i as int));
        assert(all =~= all.subrange(0, i as int) + seq![all[i as int]] + all.subrange(
            i + 1,
            all.len() as int,
        ));
        assert(rest =~= all.subrange(0, i as int) + all.subrange(i + 1, all.len() as int));
        lemma_fresh_count_concat(all.subrange(0, i as int) + seq![all[i as int]], all.subrange(i + 1, all.len() as int));
        lemma_fresh_count_concat(all.subrange(0, i as int), seq![all[i as int]]);
        lemma_fresh_count_concat(all.subrange(0, i as int), all.subrange(i + 1, all.len() as int));
        assert(seq![all[i as int]].drop_last() =~= Seq::<Item<P>>::empty());
        assert(fresh_count(Seq::<Item<P>>::empty()) == 0);
        assert(seq![all[i as int]].last() == all[i as int]);
        assert(fresh_count(seq![all[i as int]]) == 1);
        assert(fresh_count(rest) + 1 == fresh_count(all));
    }
    let mut front: Vec<Item<P>> = Vec::new();
    let mut back: Vec<Item<P>> = Vec::new();
    let ghost mut rs: Seq<(Option<Line<P>>, Option<Line<P>>)> = Seq::empty();
    let mut k: usize = 0;
    while k < items.len()
        invariant
            forall|l: &Line<P>, d: &Line<P>| call_requires(*split, (l, d)),
            items@ == rest,
            i < all.len(),
            splitter == all[i as int].0,
            k <= rest.len(),
            rs.len() == k,
            forall|j: int|
                0 <= j < k ==> call_ensures(*split, (&rest[j].0, &splitter), #[trigger] rs[j]),
            front@ == front_items(rest, rs, k as int),
            back@ == back_items(rest, rs, k as int),
            fresh_count(front@) <= fresh_count(rest.take(k as int)),
            fresh_count(back@) <= fresh_count(rest.take(k as int)),
        decreases rest.len() - k,
    {
        let (line, mark) = items[k];
        let ghost before = rs;
        let ghost fb = front@;
        let ghost bb = back@;
        let r = split(&line, &splitter);
        proof {
            rs = rs.push(r);
            lemma_items_prefix(rest, before, rs, k as int);
            assert(rest.take(k + 1) =~= rest.take(k as int).push(rest[k as int]));
            assert(rest.take(k + 1).drop_last() =~= rest.take(k as int));
        }
        let (f, b) = r;
        if let Some(fl) = f {
            front.push((fl, mark));
            proof {
                assert(front@.drop_last() =~= fb);
            }
        }
        if let Some(bl) = b {
            back.push((bl, mark));
            proof {
                assert(back@.drop_last() =~= bb);
            }
        }
        k = k + 1;
    }
    // Also put the splitter in front
    let ghost fb = front@;
    front.push((splitter, true));
    proof {
        assert(front@.drop_last() =~= fb);
        assert(rest.take(rest.len() as int) =~= rest);
        assert(lines_of(rest).len() == rest.len());
        assert forall|j: int| 0 <= j < rest.len() implies call_ensures(
            *split,
            (&lines_of(rest)[j], &all[i as int].0),
            #[trigger] rs[j],
        ) by {}
        assert(splits_ok(lines_of(rest), all[i as int].0, rs, *split));
    }
    let front_node = build(front, split);
    let back_node = build(back, split);
    BspNode::Branch { splitter, front: Box::new(front_node), back: Box::new(back_node) }
}

} // verus!

verus! {

/// Number of nodes of a tree.
pub open spec fn spec_node_count<P>(node: BspNode<P>) -> nat
    decreases node,
{
    match node {
        BspNode::Leaf { .. } => 1,
        BspNode::Branch { front, back, .. } => 1 + spec_node_count(*front) + spec_node_count(*back),
    }
}

/// Number of branches of a tree.
pub open spec fn spec_branch_count<P>(node: BspNode<P>) -> nat
    decreases node,
{
    match node {
        BspNode::Leaf { .. } => 0,
        BspNode::Branch { front, back, .. } => 1 + spec_branch_count(*front) + spec_branch_count(
            *back,
        ),
    }
}

/// Splitters of the branches in preorder (branch, front subtree, back
/// subtree).
pub open spec fn spec_splitters<P>(node: BspNode<P>) -> Seq<Line<P>>
    decreases node,
{
    match node {
        BspNode::Leaf { .. } => Seq::empty(),
        BspNode::Branch { splitter, front, back } => seq![splitter] + spec_splitters(*front)
            + spec_splitters(*back),
    }
}

/// Lines held by the leaves, front subtree before back subtree.
pub open spec fn spec_leaf_lines<P>(node: BspNode<P>) -> Seq<Line<P>>
    decreases node,
{
    match node {
        BspNode::Leaf { lines } => lines@,
        BspNode::Branch { front, back, .. } => spec_leaf_lines(*front) + spec_leaf_lines(*back),
    }
}

/// Leaf lines in front-to-back order: at each branch the subtree on the
/// viewer's side comes first. `in_front` holds, for each branch in
/// preorder, whether the viewer is on the front side of its splitter.
pub open spec fn spec_collect<P>(node: BspNode<P>, in_front: Seq<bool>) -> Seq<Line<P>>
    decreases node,
{
    match node {
        BspNode::Leaf { lines } => lines@,
        BspNode::Branch { front, back, .. } => {
            let nf = spec_branch_count(*front) as int;
            let fs = in_front.subrange(1, 1 + nf);
            let bs = in_front.subrange(1 + nf, in_front.len() as int);
            if in_front[0] {
                spec_collect(*front, fs) + spec_collect(*back, bs)
            } else {
                spec_collect(*back, bs) + spec_collect(*front, fs)
            }
        },
    }
}

proof fn lemma_splitters_len<P>(node: BspNode<P>)
    ensures
        spec_splitters(node).len() == spec_branch_count(node),
    decreases node,
{
    match node {
        BspNode::Leaf { .. } => {},
        BspNode::Branch { front, back, .. } => {
            lemma_splitters_len(*front);
            lemma_splitters_len(*back);
        },
    }
}

/// A tree has twice as many nodes as branches, plus one.
pub proof fn lemma_node_count<P>(node: BspNode<P>)
    ensures
        spec_node_count(node) == 2 * spec_branch_count(node) + 1,
    decreases node,
{
    match node {
        BspNode::Leaf { .. } => {},
        BspNode::Branch { front, back, .. } => {
            lemma_node_count(*front);
            lemma_node_count(*back);
        },
    }
}

/// A front-to-back collection holds every leaf line of the tree exactly as
/// often as the leaves do, from every viewpoint.
pub proof fn lemma_collect_visits_every_line<P>(node: BspNode<P>, in_front: Seq<bool>)
    ensures
        spec_collect(node, in_front).to_multiset() == spec_leaf_lines(node).to_multiset(),
    decreases node,
{
    match node {
        BspNode::Leaf { .. } => {},
        BspNode::Branch { front, back, .. } => {
            let nf = spec_branch_count(*front) as int;
            let fs = in_front.subrange(1, 1 + nf);
            let bs = in_front.subrange(1 + nf, in_front.len() as int);
            lemma_collect_visits_every_line(*front, fs);
            lemma_collect_visits_every_line(*back, bs);
            let x = spec_collect(*front, fs);
            let y = spec_collect(*back, bs);
            lemma_multiset_commutative(x, y);
            lemma_multiset_commutative(y, x);
            lemma_multiset_commutative(spec_leaf_lines(*front), spec_leaf_lines(*back));
            assert(x.to_multiset().add(y.to_multiset()) =~= y.to_multiset().add(x.to_multiset()));
        },
    }
}

/// Front-to-back collection of a subtree whose branches' sides start at
/// `start` in `in_front`; returns the lines and the position after them.
fn collect_from<P: Copy>(node: &BspNode<P>, in_front: &Vec<bool>, start: usize) -> (r: (
    Vec<Line<P>>,
    usize,
))
    requires
        start + spec_branch_count(*node) <= in_front.len(),
    ensures
        r.1 == start + spec_branch_count(*node),
        r.0@ == spec_collect(*node, in_front@.subrange(start as int, r.1 as int)),
    decreases node,
{
    match node {
        BspNode::Leaf { lines } => {
            let mut out: Vec<Line<P>> = Vec::new();
            let mut i: usize = 0;
            while i < lines.len()
                invariant
                    i <= lines.len(),
                    out@ == lines@.subrange(0, i as int),
                decreases lines.len() - i,
            {
                out.push(lines[i]);
                i = i + 1;
                proof {
                    assert(out@ =~= lines@.subrange(0, i as int));
                }
            }
            proof {
                assert(lines@.subrange(0, lines@.len() as int) =~= lines@);
            }
            (out, start)
        },
        BspNode::Branch { front, back, .. } => {
            let viewer_in_front = in_front[start];
            let (mut f, mid) = collect_from(front, in_front, start + 1);
            let (mut b, end) = collect_from(back, in_front, mid);
            proof {
                let s = in_front@.subrange(start as int, end as int);
                assert(s.subrange(1, 1 + spec_branch_count(**front) as int) =~= in_front@.subrange(
                    start + 1,
                    mid as int,
                ));
                assert(s.subrange(1 + spec_branch_count(**front) as int, s.len() as int)
                    =~= in_front@.subrange(mid as int, end as int));
            }
            if viewer_in_front {
                f.append(&mut b);
                (f, end)
            } else {
                b.append(&mut f);
                (b, end)
            }
        },
    }
}

fn splitters_of<P: Copy>(node: &BspNode<P>) -> (lines: Vec<Line<P>>)
    ensures
        lines@ == spec_splitters(*node),
    decreases node,
{
    match node {
        BspNode::Leaf { .. } => Vec::new(),
        BspNode::Branch { splitter, front, back } => {
            let mut lines = Vec::new();
            lines.push(*splitter);
            let mut f = splitters_of(front);
            let mut b = splitters_of(back);
            lines.append(&mut f);
            lines.append(&mut b);
            lines
        },
    }
}

impl<P: Copy> BspNode<P> {
    /// Build a tree from a list of lines: the first line is the splitter,
    /// `split` cuts every other line by it into front and back parts, and
    /// the front subtree is built from the front parts followed by the
    /// splitter, the back subtree from the back parts. Further down, the
    /// splitter is the first line that has not served as a splitter yet,
    /// and a list whose lines all have becomes a leaf; so building always
    /// ends.
    pub fn new<F>(lines: Vec<Line<P>>, split: &F) -> (node: Self) where
        F: Fn(&Line<P>, &Line<P>) -> (Option<Line<P>>, Option<Line<P>>),

        requires
            forall|l: &Line<P>, d: &Line<P>| call_requires(*split, (l, d)),
        ensures
            builds(node, fresh_items(lines@), *split),
    {
        let mut items: Vec<Item<P>> = Vec::new();
        let mut k: usize = 0;
        while k < lines.len()
            invariant
                k <= lines.len(),
                items@ == fresh_items(lines@.take(k as int)),
            decreases lines.len() - k,
        {
            items.push((lines[k], false));
            k = k + 1;
            proof {
                assert(items@ =~= fresh_items(lines@.take(k as int)));
            }
        }
        proof {
            assert(lines@.take(lines@.len() as int) =~= lines@);
        }
        build(items, split)
    }

    /// The splitters of the branches in preorder (branch, front subtree,
    /// back subtree): the order in which `collect_front_to_back` reads the
    /// viewer's side of each splitter.
    pub fn splitters(&self) -> (lines: Vec<Line<P>>)
        ensures
            lines@ == spec_splitters(*self),
            lines@.len() == spec_branch_count(*self),
    {
        proof {
            lemma_splitters_len(*self);
        }
        splitters_of(self)
    }

    /// Collect all lines in front-to-back order from a viewer position,
    /// appending them to `out`. `in_front[k]` tells whether the viewer is
    /// on the front side (or on the line) of the k-th splitter of
    /// `splitters`.
    pub fn collect_front_to_back(&self, in_front: &Vec<bool>, out: &mut Vec<Line<P>>)
        requires
            in_front.len() == spec_branch_count(*self),
        ensures
            final(out)@ == old(out)@ + spec_collect(*self, in_front@),
    {
        let (mut lines, _) = collect_from(self, in_front, 0);
        proof {
            assert(in_front@.subrange(0, in_front@.len() as int) =~= in_front@);
        }
        out.append(&mut lines);
    }

    /// Count total nodes in the tree.
    pub fn node_count(&self) -> (count: usize)
        requires
            spec_node_count(*self) <= usize::MAX,
        ensures
            count == spec_node_count(*self),
        decreases self,
    {
        match self {
            BspNode::Leaf { .. } => 1,
            BspNode::Branch { front, back, .. } => 1 + front.node_count() + back.node_count(),
        }
    }
}

} // verus!

verus! {

/// Shape of a tree built from fresh lines: at most one line gives a single
/// leaf holding it, more give a branch whose splitter is the first line.
pub proof fn lemma_new_shape<P, F: Fn(&Line<P>, &Line<P>) -> (Option<Line<P>>, Option<Line<P>>)>(
    node: BspNode<P>,
    lines: Seq<Line<P>>,
    split: F,
)
    requires
        builds(node, fresh_items(lines), split),
    ensures
        (node is Leaf) == (lines.len() <= 1),
        node is Branch ==> node->splitter == lines[0],
{
    let items = fresh_items(lines);
    if lines.len() >= 2 {
        assert(!items[0].1);
        if node is Branch {
            let (i, rs) = choose|i: int, rs: Seq<(Option<Line<P>>, Option<Line<P>>)>|
                #![trigger splits_ok(lines_of(items.remove(i)), items[i].0, rs, split)]
                {
                    let rest = items.remove(i);
                    &&& first_fresh_at(items, i)
                    &&& node->splitter == items[i].0
                    &&& splits_ok(lines_of(rest), items[i].0, rs, split)
                    &&& builds(
                        *node->front,
                        front_items(rest, rs, rest.len() as int).push((items[i].0, true)),
                        split,
                    )
                    &&& builds(*node->back, back_items(rest, rs, rest.len() as int), split)
                };
            if i > 0 {
                assert(items[0].1);
            }
        }
    }
}

proof fn lemma_items_cover<P, F: Fn(&Line<P>, &Line<P>) -> (Option<Line<P>>, Option<Line<P>>)>(
    rest: Seq<Item<P>>,
    splitter: Line<P>,
    rs: Seq<(Option<Line<P>>, Option<Line<P>>)>,
    split: F,
    k: int,
)
    requires
        splits_ok(lines_of(rest), splitter, rs, split),
        forall|l: &Line<P>, d: &Line<P>, r: (Option<Line<P>>, Option<Line<P>>)|
            call_ensures(split, (l, d), r) ==> r.0 is Some || r.1 is Some,
        0 <= k <= rest.len(),
    ensures
        front_items(rest, rs, k).len() + back_items(rest, rs, k).len() >= k,
    decreases k,
{
    if k > 0 {
        lemma_items_cover(rest, splitter, rs, split, k - 1);
        assert(call_ensures(split, (&lines_of(rest)[k - 1], &splitter), rs[k - 1]));
    }
}

/// No line is lost: when `split` always keeps at least one part of a
/// line, the leaves of a built tree hold at least as many lines as were
/// given (a cut line is replaced by its two pieces).
pub proof fn lemma_no_line_lost<P, F: Fn(&Line<P>, &Line<P>) -> (Option<Line<P>>, Option<Line<P>>)>(
    node: BspNode<P>,
    items: Seq<Item<P>>,
    split: F,
)
    requires
        builds(node, items, split),
        forall|l: &Line<P>, d: &Line<P>, r: (Option<Line<P>>, Option<Line<P>>)|
            call_ensures(split, (l, d), r) ==> r.0 is Some || r.1 is Some,
    ensures
        spec_leaf_lines(node).len() >= items.len(),
    decreases node,
{
    match node {
        BspNode::Leaf { .. } => {},
        BspNode::Branch { splitter, front, back } => {
            let (i, rs) = choose|i: int, rs: Seq<(Option<Line<P>>, Option<Line<P>>)>|
                #![trigger splits_ok(lines_of(items.remove(i)), items[i].0, rs, split)]
                {
                    let rest = items.remove(i);
                    &&& first_fresh_at(items, i)
                    &&& splitter == items[i].0
                    &&& splits_ok(lines_of(rest), items[i].0, rs, split)
                    &&& builds(
                        *front,
                        front_items(rest, rs, rest.len() as int).push((items[i].0, true)),
                        split,
                    )
                    &&& builds(*back, back_items(rest, rs, rest.len() as int), split)
                };
            let rest = items.remove(i);
            let n = rest.len() as int;
            lemma_items_cover(rest, items[i].0, rs, split, n);
            lemma_no_line_lost(*front, front_items(rest, rs, n).push((items[i].0, true)), split);
            lemma_no_line_lost(*back, back_items(rest, rs, n), split);
        },
    }
}

} // verus!

verus! {

/// Leaf lines front-to-back when each branch decides by its own splitter:
/// `viewer_in_front(line)` tells whether the viewer is on the front side
/// of that line.
pub open spec fn collect_by_splitters<P>(node: BspNode<P>, viewer_in_front: spec_fn(Line<P>) -> bool) -> Seq<Line<P>>
    decreases node,
{
    match node {
        BspNode::Leaf { lines } => lines@,
        BspNode::Branch { splitter, front, back } => if viewer_in_front(splitter) {
            collect_by_splitters(*front, viewer_in_front) + collect_by_splitters(*back, viewer_in_front)
        } else {
            collect_by_splitters(*back, viewer_in_front) + collect_by_splitters(*front, viewer_in_front)
        },
    }
}

/// Reading the viewer's side of each line of `splitters` gives the
/// collection in which every branch puts the subtree on the viewer's side
/// of its own splitter first: the k-th side read by the collection belongs
/// to the k-th splitter.
pub proof fn lemma_collect_follows_splitters<P>(node: BspNode<P>, viewer_in_front: spec_fn(Line<P>) -> bool)
    ensures
        spec_collect(node, spec_splitters(node).map_values(viewer_in_front)) == collect_by_splitters(
            node,
            viewer_in_front,
        ),
    decreases node,
{
    match node {
        BspNode::Leaf { .. } => {},
        BspNode::Branch { splitter, front, back } => {
            let sides = spec_splitters(node).map_values(viewer_in_front);
            lemma_splitters_len(*front);
            lemma_splitters_len(*back);
            lemma_collect_follows_splitters(*front, viewer_in_front);
            lemma_collect_follows_splitters(*back, viewer_in_front);
            let nf = spec_branch_count(*front) as int;
            let lf = spec_splitters(*front);
            let lb = spec_splitters(*back);
            assert(sides.subrange(1, 1 + nf) =~= lf.map_values(viewer_in_front));
            assert(sides.subrange(1 + nf, sides.len() as int) =~= lb.map_values(viewer_in_front));
            assert(sides[0] == viewer_in_front(splitter));
        },
    }
}

} // verus!
