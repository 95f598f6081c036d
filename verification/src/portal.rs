//! Portal generation for BSP trees.

use vstd::prelude::*;
use crate::node::{BspNode, Line2D, spec_leaf_ids, spec_internal_count, lemma_leaf_ids_nonempty};

verus! {

/// A portal is a line segment on a partition line that connects two leaves.
#[derive(Debug)]
pub struct Portal<V> {
    /// The portal endpoints.
    pub endpoints: (V, V),
    /// The leaf ID on the front side.
    pub front_leaf: usize,
    /// The leaf ID on the back side.
    pub back_leaf: usize,
}

impl<V: Copy> Clone for Portal<V> {
    fn clone(&self) -> (p: Self)
        ensures
            p == *self,
    {
        Portal { endpoints: self.endpoints, front_leaf: self.front_leaf, back_leaf: self.back_leaf }
    }
}

/// The (front leaf, back leaf) pair of every internal node, in preorder:
/// the first leaf of its front subtree and the first leaf of its back
/// subtree.
pub open spec fn spec_portal_links<V>(node: BspNode<V>) -> Seq<(usize, usize)>
    decreases node,
{
    match node {
        BspNode::Leaf { .. } => Seq::empty(),
        BspNode::Internal { front, back, .. } => seq![
            (spec_leaf_ids(*front)[0], spec_leaf_ids(*back)[0]),
        ] + spec_portal_links(*front) + spec_portal_links(*back),
    }
}

/// The partition line of every internal node, in preorder, with the number
/// of leaves of its front subtree and of its back subtree.
pub open spec fn spec_portal_sites<V>(node: BspNode<V>) -> Seq<(Line2D<V>, usize, usize)>
    decreases node,
{
    match node {
        BspNode::Leaf { .. } => Seq::empty(),
        BspNode::Internal { plane, front, back, .. } => seq![
            (plane, spec_leaf_ids(*front).len() as usize, spec_leaf_ids(*back).len() as usize),
        ] + spec_portal_sites(*front) + spec_portal_sites(*back),
    }
}

/// There is one portal link and one portal site per internal node.
pub proof fn lemma_portal_counts<V>(node: BspNode<V>)
    ensures
        spec_portal_links(node).len() == spec_internal_count(node),
        spec_portal_sites(node).len() == spec_internal_count(node),
    decreases node,
{
    match node {
        BspNode::Leaf { .. } => {},
        BspNode::Internal { front, back, .. } => {
            lemma_portal_counts(*front);
            lemma_portal_counts(*back);
        },
    }
}

/// Both leaves named by a portal link are leaves of the tree.
pub proof fn lemma_portal_links_are_leaves<V>(node: BspNode<V>, k: int)
    requires
        0 <= k < spec_portal_links(node).len(),
    ensures
        spec_leaf_ids(node).contains(spec_portal_links(node)[k].0),
        spec_leaf_ids(node).contains(spec_portal_links(node)[k].1),
    decreases node,
{
    match node {
        BspNode::Leaf { .. } => {},
        BspNode::Internal { front, back, .. } => {
            let f = spec_leaf_ids(*front);
            let b = spec_leaf_ids(*back);
            let all = f + b;
            lemma_leaf_ids_nonempty(*front);
            lemma_leaf_ids_nonempty(*back);
            let lf = spec_portal_links(*front);
            let lb = spec_portal_links(*back);
            if k == 0 {
                assert(all[0] == f[0]);
                assert(all[f.len() as int] == b[0]);
            } else if k < 1 + lf.len() {
                assert(spec_portal_links(node)[k] == lf[k - 1]);
                lemma_portal_links_are_leaves(*front, k - 1);
                let x = lf[k - 1].0;
                let y = lf[k - 1].1;
                let i = choose|i: int| 0 <= i < f.len() && f[i] == x;
                let j = choose|j: int| 0 <= j < f.len() && f[j] == y;
                assert(all[i] == x);
                assert(all[j] == y);
            } else {
                assert(spec_portal_links(node)[k] == lb[k - 1 - lf.len()]);
                lemma_portal_links_are_leaves(*back, k - 1 - lf.len());
                let x = lb[k - 1 - lf.len()].0;
                let y = lb[k - 1 - lf.len()].1;
                let i = choose|i: int| 0 <= i < b.len() && b[i] == x;
                let j = choose|j: int| 0 <= j < b.len() && b[j] == y;
                assert(all[f.len() + i] == x);
                assert(all[f.len() + j] == y);
            }
        },
    }
}

/// When all leaf ids of a tree are distinct, every portal link joins two
/// different leaves.
pub proof fn lemma_portal_link_ends_differ<V>(node: BspNode<V>, k: int)
    requires
        spec_leaf_ids(node).no_duplicates(),
        0 <= k < spec_portal_links(node).len(),
    ensures
        spec_portal_links(node)[k].0 != spec_portal_links(node)[k].1,
    decreases node,
{
    match node {
        BspNode::Leaf { .. } => {},
        BspNode::Internal { front, back, .. } => {
            let f = spec_leaf_ids(*front);
            let b = spec_leaf_ids(*back);
            let all = f + b;
            lemma_leaf_ids_nonempty(*front);
            lemma_leaf_ids_nonempty(*back);
            let lf = spec_portal_links(*front);
            let lb = spec_portal_links(*back);
            assert(f =~= all.subrange(0, f.len() as int));
            assert(b =~= all.subrange(f.len() as int, all.len() as int));
            if k == 0 {
                assert(all[0] == f[0]);
                assert(all[f.len() as int] == b[0]);
            } else if k < 1 + lf.len() {
                assert(spec_portal_links(node)[k] == lf[k - 1]);
                lemma_portal_link_ends_differ(*front, k - 1);
            } else {
                assert(spec_portal_links(node)[k] == lb[k - 1 - lf.len()]);
                lemma_portal_link_ends_differ(*back, k - 1 - lf.len());
            }
        },
    }
}

/// Portals `ps` are those of `node`: one per internal node in preorder,
/// joining the link's leaves, with the endpoints that `endpoints` gave for
/// the site's partition line and leaf counts.
pub open spec fn portals_match<V, F: Fn(&Line2D<V>, usize, usize) -> (V, V)>(
    ps: Seq<Portal<V>>,
    node: BspNode<V>,
    endpoints: F,
) -> bool {
    let links = spec_portal_links(node);
    let sites = spec_portal_sites(node);
    &&& ps.len() == links.len()
    &&& forall|k: int|
        0 <= k < ps.len() ==> {
            &&& #[trigger] ps[k].front_leaf == links[k].0
            &&& ps[k].back_leaf == links[k].1
            &&& call_ensures(endpoints, (&sites[k].0, sites[k].1, sites[k].2), ps[k].endpoints)
        }
}

/// Generate one portal per partition line of a tree, joining the first
/// leaf of its front subtree to the first leaf of its back subtree. The
/// endpoints are computed by `endpoints` from the partition line and the
/// number of leaves on its front and back.
#[verifier::spinoff_prover]
pub fn generate_portals<V: Copy, F: Fn(&Line2D<V>, usize, usize) -> (V, V)>(
    tree: &BspNode<V>,
    endpoints: &F,
) -> (portals: Vec<Portal<V>>)
    requires
        forall|l: &Line2D<V>, f: usize, b: usize| call_requires(*endpoints, (l, f, b)),
    ensures
        portals_match(portals@, *tree, *endpoints),
    decreases tree,
{
    match tree {
        BspNode::Leaf { .. } => Vec::new(),
        BspNode::Internal { plane, front, back, .. } => {
            let front_leaves = front.leaf_ids();
            let back_leaves = back.leaf_ids();
            proof {
                lemma_leaf_ids_nonempty(**front);
                lemma_leaf_ids_nonempty(**back);
                lemma_portal_counts(**front);
                lemma_portal_counts(**back);
            }
            let ends = endpoints(plane, front_leaves.len(), back_leaves.len());
            let portal = Portal {
                endpoints: ends,
                front_leaf: front_leaves[0],
                back_leaf: back_leaves[0],
            };
            let mut portals = Vec::new();
            portals.push(portal);
            let mut fp = generate_portals(front, endpoints);
            let mut bp = generate_portals(back, endpoints);
            let ghost p1 = portals@;
            let ghost f1 = fp@;
            let ghost b1 = bp@;
            portals.append(&mut fp);
            portals.append(&mut bp);
            proof {
                let links = spec_portal_links(*tree);
                let sites = spec_portal_sites(*tree);
                let lf = spec_portal_links(**front);
                let sf = spec_portal_sites(**front);
                let lb = spec_portal_links(**back);
                let sb = spec_portal_sites(**back);
                assert(portals@ == p1 + f1 + b1);
                assert forall|k: int| 0 <= k < portals@.len() implies {
                    &&& #[trigger] portals@[k].front_leaf == links[k].0
                    &&& portals@[k].back_leaf == links[k].1
                    &&& call_ensures(
                        *endpoints,
                        (&sites[k].0, sites[k].1, sites[k].2),
                        portals@[k].endpoints,
                    )
                } by {
                    if k == 0 {
                        assert(portals@[0] == p1[0]);
                        assert(links[0] == (spec_leaf_ids(**front)[0], spec_leaf_ids(**back)[0]));
                        assert(sites[0] == (
                            *plane,
                            spec_leaf_ids(**front).len() as usize,
                            spec_leaf_ids(**back).len() as usize,
                        ));
                    } else if k < 1 + f1.len() {
                        assert(portals@[k] == f1[k - 1]);
                        assert(links[k] == lf[k - 1]);
                        assert(sites[k] == sf[k - 1]);
                    } else {
                        assert(portals@[k] == b1[k - 1 - f1.len()]);
                        assert(links[k] == lb[k - 1 - f1.len()]);
                        assert(sites[k] == sb[k - 1 - f1.len()]);
                    }
                }
            }
            portals
        },
    }
}

/// The (front leaf, back leaf) pairs that `generate_portals` would join,
/// without computing endpoints.
pub fn portal_links<V>(tree: &BspNode<V>) -> (links: Vec<(usize, usize)>)
    ensures
        links@ == spec_portal_links(*tree),
    decreases tree,
{
    match tree {
        BspNode::Leaf { .. } => Vec::new(),
        BspNode::Internal { front, back, .. } => {
            let front_leaves = front.leaf_ids();
            let back_leaves = back.leaf_ids();
            proof {
                lemma_leaf_ids_nonempty(**front);
                lemma_leaf_ids_nonempty(**back);
            }
            let mut links = Vec::new();
            links.push((front_leaves[0], back_leaves[0]));
            let mut fl = portal_links(front);
            let mut bl = portal_links(back);
            links.append(&mut fl);
            links.append(&mut bl);
            links
        },
    }
}

} // verus!
