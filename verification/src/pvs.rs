//! Potentially Visible Set (PVS) computation.

use std::collections::{HashMap, HashSet};
use vstd::prelude::*;
use crate::node::{BspNode, spec_leaf_ids};
use crate::portal::{
    portal_links, spec_portal_links, lemma_portal_links_are_leaves, lemma_portal_link_ends_differ,
};

verus! {

broadcast use vstd::std_specs::hash::group_hash_axioms;

/// Visibility before any closure: every leaf of `keys` sees the leaves it
/// shares a portal link with, in either direction.
pub open spec fn initial_pvs(keys: Set<usize>, links: Seq<(usize, usize)>) -> Map<usize, Set<usize>> {
    Map::new(
        |a: usize| keys.contains(a),
        |a: usize| Set::new(|b: usize| links.contains((a, b)) || links.contains((b, a))),
    )
}

/// Leaves that `a` reaches in two steps through a leaf of `s`, other than
/// `a` itself.
pub open spec fn two_step(s: Map<usize, Set<usize>>, a: usize) -> Set<usize> {
    Set::new(
        |w: usize|
            w != a && exists|v: usize|
                #![trigger s[a].contains(v), s[v].contains(w)]
                s[a].contains(v) && s.dom().contains(v) && s[v].contains(w),
    )
}

/// One round of closure: each leaf also sees what the leaves it sees see,
/// except itself.
pub open spec fn pvs_step(s: Map<usize, Set<usize>>) -> Map<usize, Set<usize>> {
    Map::new(|a: usize| s.dom().contains(a), |a: usize| s[a].union(two_step(s, a)))
}

/// Up to `k` rounds of closure, stopping early at the first round that
/// adds nothing.
pub open spec fn pvs_iterate(s: Map<usize, Set<usize>>, k: nat) -> Map<usize, Set<usize>>
    decreases k,
{
    if k == 0 {
        s
    } else if pvs_step(s) == s {
        s
    } else {
        pvs_iterate(pvs_step(s), (k - 1) as nat)
    }
}

/// The potentially visible set of a tree: keyed by its leaf ids, starting
/// from the portal links and closed for at most n² rounds, n being the
/// number of leaves.
pub open spec fn spec_pvs<V>(root: BspNode<V>) -> Map<usize, Set<usize>> {
    let ids = spec_leaf_ids(root);
    pvs_iterate(initial_pvs(ids.to_set(), spec_portal_links(root)), ids.len() * ids.len())
}

/// The sets of a map of hash sets, as a map of sets.
pub open spec fn pvs_view(pvs: HashMap<usize, HashSet<usize>>) -> Map<usize, Set<usize>> {
    Map::new(|k: usize| pvs@.dom().contains(k), |k: usize| pvs@[k]@)
}

/// Whether `from` can potentially see `to` in a visibility map.
pub open spec fn spec_visible(pvs: Map<usize, Set<usize>>, from: usize, to: usize) -> bool {
    pvs.dom().contains(from) && pvs[from].contains(to)
}

/// Every set holds only keys, and visibility goes both ways.
pub open spec fn pvs_symmetric(s: Map<usize, Set<usize>>) -> bool {
    forall|a: usize, b: usize|
        #[trigger] spec_visible(s, a, b) ==> s.dom().contains(b) && s[b].contains(a)
}

/// No key sees itself.
pub open spec fn pvs_irreflexive(s: Map<usize, Set<usize>>) -> bool {
    forall|a: usize| s.dom().contains(a) ==> !#[trigger] s[a].contains(a)
}

/// `t` has the keys of `s` and sees at least what `s` sees.
pub open spec fn pvs_grows(s: Map<usize, Set<usize>>, t: Map<usize, Set<usize>>) -> bool {
    &&& t.dom() == s.dom()
    &&& forall|a: usize, b: usize| #[trigger] spec_visible(s, a, b) ==> t[a].contains(b)
}

proof fn lemma_step_symmetric(s: Map<usize, Set<usize>>)
    requires
        pvs_symmetric(s),
    ensures
        pvs_symmetric(pvs_step(s)),
{
    let t = pvs_step(s);
    assert forall|a: usize, w: usize| #[trigger] spec_visible(t, a, w) implies t.dom().contains(
        w,
    ) && t[w].contains(a) by {
        if s[a].contains(w) {
            assert(spec_visible(s, a, w));
        } else {
            assert(two_step(s, a).contains(w));
            let v = choose|v: usize|
                #![trigger s[a].contains(v), s[v].contains(w)]
                s[a].contains(v) && s.dom().contains(v) && s[v].contains(w);
            assert(spec_visible(s, a, v));
            assert(spec_visible(s, v, w));
            assert(s[w].contains(v));
            assert(s[v].contains(a));
            assert(two_step(s, w).contains(a));
        }
    }
}

proof fn lemma_step_irreflexive(s: Map<usize, Set<usize>>)
    requires
        pvs_irreflexive(s),
    ensures
        pvs_irreflexive(pvs_step(s)),
{
}

proof fn lemma_step_grows(s: Map<usize, Set<usize>>)
    ensures
        pvs_grows(s, pvs_step(s)),
{
    assert(pvs_step(s).dom() =~= s.dom());
}

/// Closing keeps symmetry and irreflexivity, keeps the keys and only adds.
proof fn lemma_iterate_keeps(s: Map<usize, Set<usize>>, k: nat)
    ensures
        pvs_symmetric(s) ==> pvs_symmetric(pvs_iterate(s, k)),
        pvs_irreflexive(s) ==> pvs_irreflexive(pvs_iterate(s, k)),
        pvs_grows(s, pvs_iterate(s, k)),
    decreases k,
{
    if k == 0 || pvs_step(s) == s {
    } else {
        let t = pvs_step(s);
        if pvs_symmetric(s) {
            lemma_step_symmetric(s);
        }
        if pvs_irreflexive(s) {
            lemma_step_irreflexive(s);
        }
        lemma_step_grows(s);
        lemma_iterate_keeps(t, (k - 1) as nat);
        let r = pvs_iterate(s, k);
        assert forall|a: usize, b: usize| #[trigger] spec_visible(s, a, b) implies r[a].contains(
            b,
        ) by {
            assert(spec_visible(t, a, b));
        }
    }
}

proof fn lemma_initial_symmetric<V>(root: BspNode<V>)
    ensures
        pvs_symmetric(initial_pvs(spec_leaf_ids(root).to_set(), spec_portal_links(root))),
{
    let ids = spec_leaf_ids(root);
    let links = spec_portal_links(root);
    let s = initial_pvs(ids.to_set(), links);
    assert forall|a: usize, b: usize| #[trigger] spec_visible(s, a, b) implies s.dom().contains(
        b,
    ) && s[b].contains(a) by {
        if links.contains((a, b)) {
            let k = choose|k: int| 0 <= k < links.len() && links[k] == (a, b);
            lemma_portal_links_are_leaves(root, k);
        } else {
            let k = choose|k: int| 0 <= k < links.len() && links[k] == (b, a);
            lemma_portal_links_are_leaves(root, k);
        }
    }
}

/// The leaves of the potentially visible set are exactly the leaves of
/// the tree.
pub proof fn lemma_pvs_keys<V>(root: BspNode<V>)
    ensures
        spec_pvs(root).dom() == spec_leaf_ids(root).to_set(),
{
    let ids = spec_leaf_ids(root);
    lemma_iterate_keeps(initial_pvs(ids.to_set(), spec_portal_links(root)), ids.len() * ids.len());
}

/// Potential visibility is symmetric: if `a` can see `b` then `b` is a leaf
/// that can see `a`.
pub proof fn lemma_pvs_symmetric<V>(root: BspNode<V>, a: usize, b: usize)
    requires
        spec_visible(spec_pvs(root), a, b),
    ensures
        spec_visible(spec_pvs(root), b, a),
{
    let ids = spec_leaf_ids(root);
    lemma_initial_symmetric(root);
    lemma_iterate_keeps(initial_pvs(ids.to_set(), spec_portal_links(root)), ids.len() * ids.len());
    assert(spec_visible(spec_pvs(root), a, b));
}

/// When the leaf ids of a tree are distinct, no leaf is potentially
/// visible from itself.
pub proof fn lemma_pvs_not_self_visible<V>(root: BspNode<V>, a: usize)
    requires
        spec_leaf_ids(root).no_duplicates(),
    ensures
        !spec_visible(spec_pvs(root), a, a),
{
    let ids = spec_leaf_ids(root);
    let links = spec_portal_links(root);
    let s = initial_pvs(ids.to_set(), links);
    assert forall|x: usize| s.dom().contains(x) implies !#[trigger] s[x].contains(x) by {
        if links.contains((x, x)) {
            let k = choose|k: int| 0 <= k < links.len() && links[k] == (x, x);
            lemma_portal_link_ends_differ(root, k);
        }
    }
    lemma_iterate_keeps(s, ids.len() * ids.len());
}

/// Two leaves joined by a portal can potentially see each other.
pub proof fn lemma_portal_neighbours_visible<V>(root: BspNode<V>, k: int)
    requires
        0 <= k < spec_portal_links(root).len(),
    ensures
        spec_visible(spec_pvs(root), spec_portal_links(root)[k].0, spec_portal_links(root)[k].1),
        spec_visible(spec_pvs(root), spec_portal_links(root)[k].1, spec_portal_links(root)[k].0),
{
    let ids = spec_leaf_ids(root);
    let links = spec_portal_links(root);
    let s = initial_pvs(ids.to_set(), links);
    let (a, b) = links[k];
    lemma_portal_links_are_leaves(root, k);
    assert(links.contains((a, b)));
    assert(spec_visible(s, a, b));
    assert(spec_visible(s, b, a));
    lemma_iterate_keeps(s, ids.len() * ids.len());
}

} // verus!

verus! {

/// `vis` is a matrix over the distinct leaves `nodes` that says, entry
/// by entry, which leaf `s` lets see which.
pub open spec fn represents(nodes: Seq<usize>, vis: Seq<Vec<bool>>, s: Map<usize, Set<usize>>) -> bool {
    &&& nodes.no_duplicates()
    &&& vis.len() == nodes.len()
    &&& forall|i: int| 0 <= i < nodes.len() ==> #[trigger] vis[i]@.len() == nodes.len()
    &&& forall|a: usize| s.dom().contains(a) <==> nodes.contains(a)
    &&& forall|a: usize, b: usize| #[trigger] spec_visible(s, a, b) ==> nodes.contains(b)
    &&& forall|i: int, j: int|
        #![trigger vis[i]@[j]]
        0 <= i < nodes.len() && 0 <= j < nodes.len() ==> (vis[i]@[j] == s[nodes[i]].contains(
            nodes[j],
        ))
}

/// Leaf `j` is reached from leaf `i` through some leaf of the matrix.
pub open spec fn reach2(vis: Seq<Vec<bool>>, i: int, j: int) -> bool {
    exists|v: int| #![trigger vis[i]@[v], vis[v]@[j]] 0 <= v < vis.len() && vis[i]@[v] && vis[v]@[j]
}

/// `next` is one round of closure of the square matrix `vis`.
pub open spec fn matrix_step(vis: Seq<Vec<bool>>, next: Seq<Vec<bool>>) -> bool {
    &&& next.len() == vis.len()
    &&& forall|i: int| 0 <= i < vis.len() ==> #[trigger] next[i]@.len() == vis.len()
    &&& forall|i: int, j: int|
        #![trigger next[i]@[j]]
        0 <= i < vis.len() && 0 <= j < vis.len() ==> next[i]@[j] == (vis[i]@[j] || (i != j
            && reach2(vis, i, j)))
}

/// Some entry of `next` is set where `vis` had it clear.
pub open spec fn matrix_grew(vis: Seq<Vec<bool>>, next: Seq<Vec<bool>>) -> bool {
    exists|i: int, j: int|
        #![trigger next[i]@[j]]
        0 <= i < vis.len() && 0 <= j < vis.len() && next[i]@[j] && !vis[i]@[j]
}

proof fn lemma_index_of_node(nodes: Seq<usize>, x: usize) -> (i: int)
    requires
        nodes.contains(x),
    ensures
        0 <= i < nodes.len(),
        nodes[i] == x,
{
    choose|i: int| 0 <= i < nodes.len() && nodes[i] == x
}

proof fn lemma_step_represents(
    nodes: Seq<usize>,
    vis: Seq<Vec<bool>>,
    next: Seq<Vec<bool>>,
    s: Map<usize, Set<usize>>,
)
    requires
        represents(nodes, vis, s),
        matrix_step(vis, next),
    ensures
        represents(nodes, next, pvs_step(s)),
        (pvs_step(s) == s) == !matrix_grew(vis, next),
{
    let t = pvs_step(s);
    let m = nodes.len() as int;
    assert forall|a: usize, b: usize| #[trigger] spec_visible(t, a, b) implies nodes.contains(
        b,
    ) by {
        if s[a].contains(b) {
            assert(spec_visible(s, a, b));
        } else {
            assert(two_step(s, a).contains(b));
            let v = choose|v: usize|
                #![trigger s[a].contains(v), s[v].contains(b)]
                s[a].contains(v) && s.dom().contains(v) && s[v].contains(b);
            assert(spec_visible(s, v, b));
        }
    }
    assert forall|i: int, j: int|
        #![trigger next[i]@[j]]
        0 <= i < m && 0 <= j < m implies (next[i]@[j] == t[nodes[i]].contains(nodes[j])) by {
        let a = nodes[i];
        let w = nodes[j];
        assert(nodes.contains(a));
        assert(nodes.contains(w));
        assert(s.dom().contains(a));
        assert(vis[i]@[j] == s[a].contains(w));
        if reach2(vis, i, j) && i != j {
            let p = choose|p: int|
                #![trigger vis[i]@[p], vis[p]@[j]]
                0 <= p < vis.len() && vis[i]@[p] && vis[p]@[j];
            assert(s[a].contains(nodes[p]));
            assert(s[nodes[p]].contains(w));
            assert(nodes.contains(nodes[p]));
            assert(two_step(s, a).contains(w));
        }
        if two_step(s, a).contains(w) {
            let v = choose|v: usize|
                #![trigger s[a].contains(v), s[v].contains(w)]
                s[a].contains(v) && s.dom().contains(v) && s[v].contains(w);
            assert(spec_visible(s, a, v));
            let p = lemma_index_of_node(nodes, v);
            assert(vis[i]@[p]);
            assert(vis[p]@[j]);
            assert(reach2(vis, i, j));
        }
    }
    if !matrix_grew(vis, next) {
        assert forall|a: usize| s.dom().contains(a) implies t[a] =~= s[a] by {
            let i = lemma_index_of_node(nodes, a);
            assert forall|w: usize| t[a].contains(w) implies s[a].contains(w) by {
                assert(spec_visible(t, a, w));
                let j = lemma_index_of_node(nodes, w);
                assert(next[i]@[j]);
            }
        }
        assert(t.dom() =~= s.dom());
        assert(t =~= s);
    } else {
        let (i, j) = choose|i: int, j: int|
            #![trigger next[i]@[j]]
            0 <= i < vis.len() && 0 <= j < vis.len() && next[i]@[j] && !vis[i]@[j];
        assert(t[nodes[i]].contains(nodes[j]));
        assert(!s[nodes[i]].contains(nodes[j]));
    }
}

fn vec_contains(v: &Vec<usize>, x: usize) -> (r: bool)
    ensures
        r == v@.contains(x),
{
    let mut i: usize = 0;
    while i < v.len()
        invariant
            i <= v.len(),
            forall|k: int| 0 <= k < i ==> v@[k] != x,
        decreases v.len() - i,
    {
        if v[i] == x {
            return true;
        }
        i = i + 1;
    }
    false
}

fn has_link(links: &Vec<(usize, usize)>, a: usize, b: usize) -> (r: bool)
    ensures
        r == links@.contains((a, b)),
{
    let mut i: usize = 0;
    while i < links.len()
        invariant
            i <= links.len(),
            forall|k: int| 0 <= k < i ==> links@[k] != (a, b),
        decreases links.len() - i,
    {
        if links[i].0 == a && links[i].1 == b {
            return true;
        }
        i = i + 1;
    }
    false
}

/// The values of `ids` in order of first occurrence, each once.
fn distinct_ids(ids: &Vec<usize>) -> (nodes: Vec<usize>)
    ensures
        nodes@.no_duplicates(),
        forall|x: usize| nodes@.contains(x) <==> ids@.contains(x),
{
    let mut nodes: Vec<usize> = Vec::new();
    let mut i: usize = 0;
    while i < ids.len()
        invariant
            i <= ids.len(),
            nodes@.no_duplicates(),
            forall|x: usize|
                nodes@.contains(x) <==> exists|k: int| 0 <= k < i && #[trigger] ids@[k] == x,
        decreases ids.len() - i,
    {
        let x = ids[i];
        let ghost before = nodes@;
        if !vec_contains(&nodes, x) {
            nodes.push(x);
            proof {
                assert(nodes@[nodes@.len() - 1] == x);
            }
        }
        proof {
            assert forall|y: usize|
                nodes@.contains(y) <==> exists|k: int| 0 <= k < i + 1 && #[trigger] ids@[k] == y by {
                if nodes@.contains(y) && y != x {
                    let k = choose|k: int| 0 <= k < nodes@.len() && nodes@[k] == y;
                    assert(before[k] == y);
                    assert(before.contains(y));
                }
                if (exists|k: int| 0 <= k < i + 1 && #[trigger] ids@[k] == y) && y != x {
                    let k = choose|k: int| 0 <= k < i + 1 && #[trigger] ids@[k] == y;
                    assert(k < i);
                    assert(before.contains(y));
                    let k2 = choose|k2: int| 0 <= k2 < before.len() && before[k2] == y;
                    assert(nodes@[k2] == y);
                }
                if y == x {
                    assert(ids@[i as int] == x);
                }
            }
        }
        i = i + 1;
    }
    nodes
}

/// The matrix of portal neighbours over `nodes`.
fn initial_matrix(nodes: &Vec<usize>, links: &Vec<(usize, usize)>) -> (vis: Vec<Vec<bool>>)
    ensures
        vis@.len() == nodes.len(),
        forall|i: int| 0 <= i < nodes.len() ==> #[trigger] vis@[i]@.len() == nodes.len(),
        forall|i: int, j: int|
            #![trigger vis@[i]@[j]]
            0 <= i < nodes.len() && 0 <= j < nodes.len() ==> vis@[i]@[j] == (links@.contains(
                (nodes@[i], nodes@[j]),
            ) || links@.contains((nodes@[j], nodes@[i]))),
{
    let m = nodes.len();
    let mut vis: Vec<Vec<bool>> = Vec::new();
    let mut i: usize = 0;
    while i < m
        invariant
            m == nodes.len(),
            i <= m,
            vis@.len() == i,
            forall|k: int| 0 <= k < i ==> #[trigger] vis@[k]@.len() == m,
            forall|k: int, j: int|
                #![trigger vis@[k]@[j]]
                0 <= k < i && 0 <= j < m ==> vis@[k]@[j] == (links@.contains((nodes@[k], nodes@[j]))
                    || links@.contains((nodes@[j], nodes@[k]))),
        decreases m - i,
    {
        let mut row: Vec<bool> = Vec::new();
        let mut j: usize = 0;
        while j < m
            invariant
                m == nodes.len(),
                i < m,
                j <= m,
                row@.len() == j,
                forall|l: int|
                    0 <= l < j ==> #[trigger] row@[l] == (links@.contains((nodes@[i as int], nodes@[l]))
                        || links@.contains((nodes@[l], nodes@[i as int]))),
            decreases m - j,
        {
            let seen = has_link(links, nodes[i], nodes[j]) || has_link(links, nodes[j], nodes[i]);
            row.push(seen);
            j = j + 1;
        }
        vis.push(row);
        i = i + 1;
    }
    vis
}

/// One round of closure of a square matrix, and whether it added anything.
fn step_matrix(vis: &Vec<Vec<bool>>) -> (r: (Vec<Vec<bool>>, bool))
    requires
        forall|i: int| 0 <= i < vis@.len() ==> #[trigger] vis@[i]@.len() == vis@.len(),
    ensures
        matrix_step(vis@, r.0@),
        r.1 == matrix_grew(vis@, r.0@),
{
    let m = vis.len();
    let mut next: Vec<Vec<bool>> = Vec::new();
    let mut grew = false;
    let mut i: usize = 0;
    while i < m
        invariant
            m == vis@.len(),
            forall|k: int| 0 <= k < m ==> #[trigger] vis@[k]@.len() == m,
            i <= m,
            next@.len() == i,
            forall|k: int| 0 <= k < i ==> #[trigger] next@[k]@.len() == m,
            forall|k: int, j: int|
                #![trigger next@[k]@[j]]
                0 <= k < i && 0 <= j < m ==> next@[k]@[j] == (vis@[k]@[j] || (k != j && reach2(
                    vis@,
                    k,
                    j,
                ))),
            grew == exists|k: int, j: int|
                #![trigger next@[k]@[j]]
                0 <= k < i && 0 <= j < m && next@[k]@[j] && !vis@[k]@[j],
        decreases m - i,
    {
        let mut row: Vec<bool> = Vec::new();
        let mut j: usize = 0;
        let ghost grew_before = grew;
        let ghost next_before = next@;
        while j < m
            invariant
                m == vis@.len(),
                forall|k: int| 0 <= k < m ==> #[trigger] vis@[k]@.len() == m,
                i < m,
                j <= m,
                row@.len() == j,
                forall|l: int|
                    0 <= l < j ==> #[trigger] row@[l] == (vis@[i as int]@[l] || (i != l && reach2(
                        vis@,
                        i as int,
                        l,
                    ))),
                grew == (grew_before || exists|l: int| 0 <= l < j && #[trigger] row@[l] && !vis@[i as int]@[l]),
            decreases m - j,
        {
            let mut found = vis[i][j];
            if !found && i != j {
                let mut v: usize = 0;
                while v < m
                    invariant
                        m == vis@.len(),
                        forall|k: int| 0 <= k < m ==> #[trigger] vis@[k]@.len() == m,
                        i < m,
                        j < m,
                        v <= m,
                        found == exists|p: int|
                            #![trigger vis@[i as int]@[p], vis@[p]@[j as int]]
                            0 <= p < v && vis@[i as int]@[p] && vis@[p]@[j as int],
                    decreases m - v,
                {
                    if vis[i][v] && vis[v][j] {
                        found = true;
                    }
                    v = v + 1;
                }
                if found {
                    grew = true;
                }
            }
            let ghost row_before = row@;
            row.push(found);
            proof {
                if found && !vis@[i as int]@[j as int] {
                    assert(row@[j as int] && !vis@[i as int]@[j as int]);
                }
                if exists|l: int| 0 <= l < j + 1 && #[trigger] row@[l] && !vis@[i as int]@[l] {
                    let l = choose|l: int| 0 <= l < j + 1 && #[trigger] row@[l] && !vis@[i as int]@[l];
                    if l < j {
                        assert(row_before[l] == row@[l]);
                    }
                }
                assert forall|l: int| 0 <= l < j implies #[trigger] row@[l] == row_before[l] by {}
                if exists|l: int| 0 <= l < j && #[trigger] row_before[l] && !vis@[i as int]@[l] {
                    let l = choose|l: int| 0 <= l < j && #[trigger] row_before[l] && !vis@[i as int]@[l];
                    assert(row@[l] && !vis@[i as int]@[l]);
                }
            }
            j = j + 1;
        }
        next.push(row);
        proof {
            assert forall|k: int, l: int|
                #![trigger next@[k]@[l]]
                0 <= k < i + 1 && 0 <= l < m implies next@[k]@[l] == (vis@[k]@[l] || (k != l
                    && reach2(vis@, k, l))) by {
                if k < i {
                    assert(next@[k] == next_before[k]);
                }
            }
            if grew {
                if grew_before {
                    let (k, l) = choose|k: int, l: int|
                        #![trigger next_before[k]@[l]]
                        0 <= k < i && 0 <= l < m && next_before[k]@[l] && !vis@[k]@[l];
                    assert(next@[k] == next_before[k]);
                    assert(next@[k]@[l]);
                } else {
                    let l = choose|l: int| 0 <= l < m && #[trigger] row@[l] && !vis@[i as int]@[l];
                    assert(next@[i as int]@[l]);
                }
            } else {
                assert forall|k: int, l: int|
                    #![trigger next@[k]@[l]]
                    0 <= k < i + 1 && 0 <= l < m implies !(next@[k]@[l] && !vis@[k]@[l]) by {
                    if k < i {
                        assert(next@[k] == next_before[k]);
                        assert(!(next_before[k]@[l] && !vis@[k]@[l]));
                    } else {
                        assert(!(row@[l] && !vis@[i as int]@[l]));
                    }
                }
            }
        }
        i = i + 1;
    }
    (next, grew)
}

} // verus!

verus! {

/// The map of hash sets that the matrix `vis` over `nodes` stands for.
fn to_hash_map(nodes: &Vec<usize>, vis: &Vec<Vec<bool>>, Ghost(s): Ghost<Map<usize, Set<usize>>>) -> (pvs: HashMap<usize, HashSet<usize>>)
    requires
        represents(nodes@, vis@, s),
    ensures
        pvs_view(pvs) == s,
{
    let m = nodes.len();
    let mut pvs: HashMap<usize, HashSet<usize>> = HashMap::new();
    let mut i: usize = 0;
    while i < m
        invariant
            m == nodes.len(),
            represents(nodes@, vis@, s),
            i <= m,
            forall|a: usize|
                pvs@.dom().contains(a) <==> exists|k: int| 0 <= k < i && #[trigger] nodes@[k] == a,
            forall|k: int| 0 <= k < i ==> #[trigger] pvs@[nodes@[k]]@ == s[nodes@[k]],
        decreases m - i,
    {
        let mut set: HashSet<usize> = HashSet::new();
        let mut j: usize = 0;
        while j < m
            invariant
                m == nodes.len(),
                represents(nodes@, vis@, s),
                i < m,
                j <= m,
                forall|b: usize|
                    set@.contains(b) <==> exists|l: int|
                        0 <= l < j && #[trigger] nodes@[l] == b && vis@[i as int]@[l],
            decreases m - j,
        {
            if vis[i][j] {
                set.insert(nodes[j]);
            }
            proof {
                assert forall|b: usize|
                    set@.contains(b) <==> exists|l: int|
                        0 <= l < j + 1 && #[trigger] nodes@[l] == b && vis@[i as int]@[l] by {
                    if b == nodes@[j as int] && vis@[i as int]@[j as int] {
                        assert(nodes@[j as int] == b);
                    }
                }
            }
            j = j + 1;
        }
        proof {
            let a = nodes@[i as int];
            assert(nodes@.contains(a));
            assert forall|b: usize| set@.contains(b) <==> s[a].contains(b) by {
                if s[a].contains(b) {
                    assert(spec_visible(s, a, b));
                    let l = lemma_index_of_node(nodes@, b);
                    assert(vis@[i as int]@[l]);
                }
            }
            assert(set@ =~= s[a]);
        }
        let ghost before = pvs@;
        pvs.insert(nodes[i], set);
        proof {
            assert forall|a: usize|
                pvs@.dom().contains(a) <==> exists|k: int| 0 <= k < i + 1 && #[trigger] nodes@[k] == a by {
                if a == nodes@[i as int] {
                    assert(nodes@[i as int] == a);
                }
            }
            assert forall|k: int| 0 <= k < i + 1 implies #[trigger] pvs@[nodes@[k]]@ == s[nodes@[k]] by {
                if k < i {
                    assert(nodes@[k] != nodes@[i as int]);
                    assert(before[nodes@[k]]@ == s[nodes@[k]]);
                }
            }
        }
        i = i + 1;
    }
    proof {
        let v = pvs_view(pvs);
        assert forall|a: usize| v.dom().contains(a) <==> s.dom().contains(a) by {
            if s.dom().contains(a) {
                let k = lemma_index_of_node(nodes@, a);
                assert(nodes@[k] == a);
            }
            if v.dom().contains(a) {
                let k = choose|k: int| 0 <= k < m && #[trigger] nodes@[k] == a;
                assert(nodes@.contains(a));
            }
        }
        assert(v.dom() =~= s.dom());
        assert forall|a: usize| v.dom().contains(a) implies v[a] == s[a] by {
            let k = choose|k: int| 0 <= k < m && #[trigger] nodes@[k] == a;
            assert(pvs@[nodes@[k]]@ == s[nodes@[k]]);
        }
        assert(v =~= s);
    }
    pvs
}

/// Compute the potentially visible set for each leaf.
/// Returns a map from leaf ID to the set of potentially visible leaf IDs:
/// leaves joined by a portal see each other, and then each leaf also sees
/// what the leaves it sees see (other than itself), for at most n² rounds
/// where n is the number of leaves, stopping at the first round that adds
/// nothing.
pub fn compute_pvs<V>(root: &BspNode<V>) -> (pvs: HashMap<usize, HashSet<usize>>)
    requires
        spec_leaf_ids(*root).len() * spec_leaf_ids(*root).len() <= usize::MAX,
    ensures
        pvs_view(pvs) == spec_pvs(*root),
{
    let links = portal_links(root);
    let leaf_ids = root.leaf_ids();
    let nodes = distinct_ids(&leaf_ids);
    let mut vis = initial_matrix(&nodes, &links);
    let ghost keys = leaf_ids@.to_set();
    let ghost s0 = initial_pvs(keys, links@);
    let ghost mut s = s0;
    proof {
        lemma_initial_symmetric(*root);
        assert forall|a: usize| s.dom().contains(a) <==> nodes@.contains(a) by {}
        assert forall|a: usize, b: usize| #[trigger] spec_visible(s, a, b) implies nodes@.contains(b) by {
            assert(spec_visible(s, b, a));
        }
        assert forall|i: int, j: int|
            #![trigger vis@[i]@[j]]
            0 <= i < nodes@.len() && 0 <= j < nodes@.len() implies (vis@[i]@[j] == s[nodes@[i]].contains(
                nodes@[j],
            )) by {
            assert(nodes@.contains(nodes@[i]));
        }
    }
    let max_iterations = leaf_ids.len() * leaf_ids.len();
    let ghost total = max_iterations as nat;
    let mut t: usize = 0;
    while t < max_iterations
        invariant
            represents(nodes@, vis@, s),
            t <= max_iterations,
            total == max_iterations,
            pvs_iterate(s0, total) == pvs_iterate(s, (total - t) as nat),
        ensures
            represents(nodes@, vis@, s),
            pvs_iterate(s0, total) == s,
        decreases max_iterations - t,
    {
        let (next, grew) = step_matrix(&vis);
        proof {
            lemma_step_represents(nodes@, vis@, next@, s);
        }
        if !grew {
            break;
        }
        vis = next;
        proof {
            s = pvs_step(s);
        }
        t = t + 1;
    }
    to_hash_map(&nodes, &vis, Ghost(s))
}

/// Check if leaf `from` can potentially see leaf `to`.
pub fn is_potentially_visible(pvs: &HashMap<usize, HashSet<usize>>, from: usize, to: usize) -> (visible: bool)
    ensures
        visible == spec_visible(pvs_view(*pvs), from, to),
{
    match pvs.get(&from) {
        Some(s) => s.contains(&to),
        None => false,
    }
}

} // verus!

verus! {

/// Total number of visibility pairs of `s` over the leaves `keys`.
spec fn weight(s: Map<usize, Set<usize>>, keys: Set<usize>) -> nat
    decreases keys.len(),
    when keys.finite()
{
    if keys.len() == 0 {
        0
    } else {
        let a = keys.choose();
        s[a].len() + weight(s, keys.remove(a))
    }
}

/// Every key of `s` is in `keys` and sees only keys.
spec fn bounded(s: Map<usize, Set<usize>>, keys: Set<usize>) -> bool {
    &&& s.dom() == keys
    &&& forall|a: usize| keys.contains(a) ==> #[trigger] s[a].subset_of(keys)
}

proof fn lemma_weight_grows(s: Map<usize, Set<usize>>, t: Map<usize, Set<usize>>, keys: Set<usize>, all: Set<usize>)
    requires
        keys.finite(),
        all.finite(),
        keys.subset_of(all),
        forall|a: usize| all.contains(a) ==> #[trigger] s[a].subset_of(t[a]),
        forall|a: usize| all.contains(a) ==> #[trigger] t[a].subset_of(all),
    ensures
        weight(s, keys) <= weight(t, keys),
        (exists|a: usize| keys.contains(a) && s[a] != t[a]) ==> weight(s, keys) < weight(t, keys),
    decreases keys.len(),
{
    if keys.len() > 0 {
        let a = keys.choose();
        vstd::set_lib::lemma_len_subset(t[a], all);
        vstd::set_lib::lemma_len_subset(s[a], t[a]);
        lemma_weight_grows(s, t, keys.remove(a), all);
        if s[a] != t[a] {
            if s[a].len() == t[a].len() {
                vstd::set_lib::lemma_subset_equality(s[a], t[a]);
            }
        }
        if exists|b: usize| keys.contains(b) && s[b] != t[b] {
            let b = choose|b: usize| keys.contains(b) && s[b] != t[b];
            if b != a {
                assert(keys.remove(a).contains(b));
            }
        }
    } else {
        assert(keys =~= Set::<usize>::empty());
    }
}

proof fn lemma_weight_bound(s: Map<usize, Set<usize>>, keys: Set<usize>, all: Set<usize>)
    requires
        keys.finite(),
        all.finite(),
        keys.subset_of(all),
        forall|a: usize| all.contains(a) ==> #[trigger] s[a].subset_of(all),
    ensures
        weight(s, keys) <= keys.len() * all.len(),
    decreases keys.len(),
{
    if keys.len() > 0 {
        let a = keys.choose();
        vstd::set_lib::lemma_len_subset(s[a], all);
        lemma_weight_bound(s, keys.remove(a), all);
        let k = keys.len() as int;
        let m = all.len() as int;
        assert((k - 1) * m + m == k * m) by (nonlinear_arith);
    }
}

proof fn lemma_weight_zero(s: Map<usize, Set<usize>>, keys: Set<usize>, all: Set<usize>)
    requires
        keys.finite(),
        all.finite(),
        keys.subset_of(all),
        forall|a: usize| all.contains(a) ==> #[trigger] s[a].subset_of(all),
        weight(s, keys) == 0,
    ensures
        forall|a: usize| keys.contains(a) ==> #[trigger] s[a] == Set::<usize>::empty(),
    decreases keys.len(),
{
    if keys.len() > 0 {
        let a = keys.choose();
        vstd::set_lib::lemma_len_subset(s[a], all);
        lemma_weight_zero(s, keys.remove(a), all);
        assert forall|b: usize| keys.contains(b) implies #[trigger] s[b] == Set::<usize>::empty() by {
            if b == a {
                assert(s[a].len() == 0);
                assert(s[a] =~= Set::<usize>::empty());
            } else {
                assert(keys.remove(a).contains(b));
            }
        }
    }
}

proof fn lemma_step_bounded(s: Map<usize, Set<usize>>, keys: Set<usize>)
    requires
        bounded(s, keys),
    ensures
        bounded(pvs_step(s), keys),
        forall|a: usize| keys.contains(a) ==> #[trigger] s[a].subset_of(pvs_step(s)[a]),
{
    let t = pvs_step(s);
    assert(t.dom() =~= keys);
    assert forall|a: usize| keys.contains(a) implies #[trigger] t[a].subset_of(keys) by {
        assert forall|w: usize| t[a].contains(w) implies keys.contains(w) by {
            assert(s[a].subset_of(keys));
            if !s[a].contains(w) {
                let v = choose|v: usize|
                    #![trigger s[a].contains(v), s[v].contains(w)]
                    s[a].contains(v) && s.dom().contains(v) && s[v].contains(w);
                assert(keys.contains(v));
                assert(s[v].subset_of(keys));
            }
        }
    }
}

/// Each round that changes something adds at least one visibility pair.
proof fn lemma_iterate_progress(s: Map<usize, Set<usize>>, keys: Set<usize>, k: nat)
    requires
        keys.finite(),
        bounded(s, keys),
    ensures
        bounded(pvs_iterate(s, k), keys),
        pvs_step(pvs_iterate(s, k)) == pvs_iterate(s, k) || weight(pvs_iterate(s, k), keys)
            >= weight(s, keys) + k,
    decreases k,
{
    if k == 0 || pvs_step(s) == s {
    } else {
        let t = pvs_step(s);
        lemma_step_bounded(s, keys);
        if forall|a: usize| keys.contains(a) ==> s[a] == t[a] {
            assert(t.dom() =~= s.dom());
            assert(t =~= s);
        }
        lemma_weight_grows(s, t, keys, keys);
        lemma_iterate_progress(t, keys, (k - 1) as nat);
    }
}

/// The closing rounds stop at a fixed point: after them, a further round
/// would add nothing.
pub proof fn lemma_pvs_closed<V>(root: BspNode<V>)
    ensures
        pvs_step(spec_pvs(root)) == spec_pvs(root),
{
    broadcast use vstd::seq_lib::seq_to_set_is_finite;
    let ids = spec_leaf_ids(root);
    let keys = ids.to_set();
    let links = spec_portal_links(root);
    let s0 = initial_pvs(keys, links);
    let n = ids.len();
    crate::node::lemma_leaf_ids_nonempty(root);
    ids.lemma_cardinality_of_set();
    lemma_initial_symmetric(root);
    assert(s0.dom() =~= keys);
    assert forall|a: usize| keys.contains(a) implies #[trigger] s0[a].subset_of(keys) by {
        assert forall|b: usize| s0[a].contains(b) implies keys.contains(b) by {
            assert(spec_visible(s0, a, b));
        }
    }
    lemma_iterate_progress(s0, keys, n * n);
    let r = pvs_iterate(s0, n * n);
    if pvs_step(r) != r {
        lemma_weight_bound(r, keys, keys);
        let m = keys.len() as int;
        assert(m * m <= n * n) by (nonlinear_arith)
            requires
                0 <= m <= n,
        ;
        assert(weight(s0, keys) == 0);
        lemma_weight_zero(s0, keys, keys);
        assert(pvs_step(s0) =~= s0) by {
            assert forall|a: usize| s0.dom().contains(a) implies pvs_step(s0)[a] =~= s0[a] by {
                assert(s0[a] == Set::<usize>::empty());
            }
        }
        assert(n * n >= 1) by (nonlinear_arith)
            requires
                n >= 1,
        ;
        assert(r == s0);
    }
}

/// Potential visibility is closed: if `a` can see `v` and `v` can see
/// `w`, then `a` can see `w`, unless `w` is `a` itself.
pub proof fn lemma_pvs_transitive<V>(root: BspNode<V>, a: usize, v: usize, w: usize)
    requires
        spec_visible(spec_pvs(root), a, v),
        spec_visible(spec_pvs(root), v, w),
        w != a,
    ensures
        spec_visible(spec_pvs(root), a, w),
{
    let r = spec_pvs(root);
    lemma_pvs_closed(root);
    assert(two_step(r, a).contains(w));
    assert(pvs_step(r)[a].contains(w));
}

} // verus!

verus! {

/// In a map that holds the portal links of `t` both ways and is closed
/// (except back to the starting leaf), any two different leaves of `t` see
/// each other, when the leaf ids of `t` are distinct.
proof fn lemma_subtree_connected<V>(t: BspNode<V>, r: Map<usize, Set<usize>>)
    requires
        spec_leaf_ids(t).no_duplicates(),
        forall|k: int|
            0 <= k < spec_portal_links(t).len() ==> spec_visible(
                r,
                #[trigger] spec_portal_links(t)[k].0,
                spec_portal_links(t)[k].1,
            ) && spec_visible(r, spec_portal_links(t)[k].1, spec_portal_links(t)[k].0),
        forall|a: usize, v: usize, w: usize|
            #![trigger spec_visible(r, a, v), spec_visible(r, v, w)]
            spec_visible(r, a, v) && spec_visible(r, v, w) && w != a ==> spec_visible(r, a, w),
    ensures
        forall|x: usize, y: usize|
            spec_leaf_ids(t).contains(x) && spec_leaf_ids(t).contains(y) && x != y
                ==> #[trigger] spec_visible(r, x, y),
    decreases t,
{
    match t {
        BspNode::Leaf { .. } => {},
        BspNode::Internal { front, back, .. } => {
            let f = spec_leaf_ids(*front);
            let b = spec_leaf_ids(*back);
            let all = f + b;
            let lf = spec_portal_links(*front);
            let lb = spec_portal_links(*back);
            let links = spec_portal_links(t);
            crate::node::lemma_leaf_ids_nonempty(*front);
            crate::node::lemma_leaf_ids_nonempty(*back);
            assert(f =~= all.subrange(0, f.len() as int));
            assert(b =~= all.subrange(f.len() as int, all.len() as int));
            assert forall|k: int| 0 <= k < lf.len() implies spec_visible(
                r,
                #[trigger] lf[k].0,
                lf[k].1,
            ) && spec_visible(r, lf[k].1, lf[k].0) by {
                assert(links[k + 1] == lf[k]);
            }
            assert forall|k: int| 0 <= k < lb.len() implies spec_visible(
                r,
                #[trigger] lb[k].0,
                lb[k].1,
            ) && spec_visible(r, lb[k].1, lb[k].0) by {
                assert(links[k + 1 + lf.len()] == lb[k]);
            }
            lemma_subtree_connected(*front, r);
            lemma_subtree_connected(*back, r);
            let f0 = f[0];
            let b0 = b[0];
            assert(links[0] == (f0, b0));
            assert(links.len() > 0);
            assert(spec_visible(r, links[0].0, links[0].1));
            assert(spec_visible(r, f0, b0));
            assert(spec_visible(r, b0, f0));
            assert forall|x: usize, y: usize|
                all.contains(x) && all.contains(y) && x != y implies #[trigger] spec_visible(
                r,
                x,
                y,
            ) by {
                let i = choose|i: int| 0 <= i < all.len() && all[i] == x;
                let j = choose|j: int| 0 <= j < all.len() && all[j] == y;
                let in_f_x = i < f.len();
                let in_f_y = j < f.len();
                if in_f_x {
                    assert(f.contains(x)) by { assert(f[i] == x); }
                } else {
                    assert(b.contains(x)) by { assert(b[i - f.len()] == x); }
                }
                if in_f_y {
                    assert(f.contains(y)) by { assert(f[j] == y); }
                } else {
                    assert(b.contains(y)) by { assert(b[j - f.len()] == y); }
                }
                if in_f_x && !in_f_y {
                    // x in front, y in back: x .. f0 -> b0 .. y
                    assert(all[f.len() as int] == b0);
                    assert(x != b0);
                    if x != f0 {
                        assert(f.contains(f0)) by { assert(f[0] == f0); }
                        assert(spec_visible(r, x, f0));
                        assert(spec_visible(r, x, b0));
                    }
                    if y != b0 {
                        assert(b.contains(b0)) by { assert(b[0] == b0); }
                        assert(spec_visible(r, b0, y));
                    }
                } else if !in_f_x && in_f_y {
                    // x in back, y in front: x .. b0 -> f0 .. y
                    assert(all[0] == f0);
                    assert(x != f0);
                    if x != b0 {
                        assert(b.contains(b0)) by { assert(b[0] == b0); }
                        assert(spec_visible(r, x, b0));
                        assert(spec_visible(r, x, f0));
                    }
                    if y != f0 {
                        assert(f.contains(f0)) by { assert(f[0] == f0); }
                        assert(spec_visible(r, f0, y));
                    }
                }
            }
        },
    }
}

/// When the leaf ids of a tree are distinct, its portals connect all of
/// its leaves, so each leaf potentially sees exactly every other leaf.
pub proof fn lemma_pvs_every_other_leaf<V>(root: BspNode<V>, a: usize)
    requires
        spec_leaf_ids(root).no_duplicates(),
        spec_leaf_ids(root).contains(a),
    ensures
        spec_pvs(root).dom().contains(a),
        spec_pvs(root)[a] == spec_leaf_ids(root).to_set().remove(a),
{
    let r = spec_pvs(root);
    let ids = spec_leaf_ids(root);
    let links = spec_portal_links(root);
    lemma_pvs_keys(root);
    assert forall|k: int| 0 <= k < links.len() implies spec_visible(
        r,
        #[trigger] links[k].0,
        links[k].1,
    ) && spec_visible(r, links[k].1, links[k].0) by {
        lemma_portal_neighbours_visible(root, k);
    }
    assert forall|x: usize, v: usize, w: usize|
        #![trigger spec_visible(r, x, v), spec_visible(r, v, w)]
        spec_visible(r, x, v) && spec_visible(r, v, w) && w != x implies spec_visible(r, x, w) by {
        lemma_pvs_transitive(root, x, v, w);
    }
    lemma_subtree_connected(root, r);
    lemma_pvs_not_self_visible(root, a);
    assert forall|b: usize| r[a].contains(b) <==> ids.to_set().remove(a).contains(b) by {
        if r[a].contains(b) {
            lemma_pvs_symmetric(root, a, b);
        }
        if ids.to_set().remove(a).contains(b) {
            assert(spec_visible(r, a, b));
        }
    }
    assert(r[a] =~= ids.to_set().remove(a));
}

} // verus!

verus! {

/// Leaves `a` and `b` share a portal link, in either direction.
pub open spec fn linked(links: Seq<(usize, usize)>, a: usize, b: usize) -> bool {
    links.contains((a, b)) || links.contains((b, a))
}

/// `p` is a walk from leaf to leaf along portal links.
pub open spec fn is_walk(links: Seq<(usize, usize)>, p: Seq<usize>) -> bool {
    &&& p.len() >= 1
    &&& forall|i: int| 0 <= i < p.len() - 1 ==> #[trigger] linked(links, p[i], p[i + 1])
}

/// Some walk along portal links leads from `a` to `b`.
pub open spec fn connected(links: Seq<(usize, usize)>, a: usize, b: usize) -> bool {
    exists|p: Seq<usize>| #[trigger] is_walk(links, p) && p[0] == a && p.last() == b
}

proof fn lemma_walk_concat(links: Seq<(usize, usize)>, p: Seq<usize>, q: Seq<usize>)
    requires
        is_walk(links, p),
        is_walk(links, q),
        linked(links, p.last(), q[0]),
    ensures
        is_walk(links, p + q),
        (p + q)[0] == p[0],
        (p + q).last() == q.last(),
{
    let w = p + q;
    assert forall|i: int| 0 <= i < w.len() - 1 implies #[trigger] linked(links, w[i], w[i + 1]) by {
        if i < p.len() - 1 {
            assert(linked(links, p[i], p[i + 1]));
        } else if i == p.len() - 1 {
        } else {
            assert(w[i] == q[i - p.len()]);
            assert(w[i + 1] == q[i - p.len() + 1]);
            assert(linked(links, q[i - p.len()], q[i - p.len() + 1]));
        }
    }
}

proof fn lemma_walk_lift(l1: Seq<(usize, usize)>, l2: Seq<(usize, usize)>, p: Seq<usize>)
    requires
        is_walk(l1, p),
        forall|e: (usize, usize)| l1.contains(e) ==> l2.contains(e),
    ensures
        is_walk(l2, p),
{
    assert forall|i: int| 0 <= i < p.len() - 1 implies #[trigger] linked(l2, p[i], p[i + 1]) by {
        assert(linked(l1, p[i], p[i + 1]));
    }
}

/// The portal links connect a tree: any two of its leaves are joined by a
/// walk along them.
pub proof fn lemma_walk_between<V>(t: BspNode<V>, x: usize, y: usize) -> (p: Seq<usize>)
    requires
        spec_leaf_ids(t).contains(x),
        spec_leaf_ids(t).contains(y),
    ensures
        is_walk(spec_portal_links(t), p),
        p[0] == x,
        p.last() == y,
    decreases t,
{
    match t {
        BspNode::Leaf { .. } => {
            let p = seq![x];
            assert(is_walk(spec_portal_links(t), p));
            p
        },
        BspNode::Internal { front, back, .. } => {
            let f = spec_leaf_ids(*front);
            let b = spec_leaf_ids(*back);
            let all = f + b;
            let lf = spec_portal_links(*front);
            let lb = spec_portal_links(*back);
            let links = spec_portal_links(t);
            crate::node::lemma_leaf_ids_nonempty(*front);
            crate::node::lemma_leaf_ids_nonempty(*back);
            assert forall|e: (usize, usize)| lf.contains(e) implies links.contains(e) by {
                let k = choose|k: int| 0 <= k < lf.len() && lf[k] == e;
                assert(links[k + 1] == lf[k]);
            }
            assert forall|e: (usize, usize)| lb.contains(e) implies links.contains(e) by {
                let k = choose|k: int| 0 <= k < lb.len() && lb[k] == e;
                assert(links[k + 1 + lf.len()] == lb[k]);
            }
            let f0 = f[0];
            let b0 = b[0];
            assert(links[0] == (f0, b0));
            assert(linked(links, f0, b0));
            assert(linked(links, b0, f0));
            assert(f.contains(f0));
            assert(b.contains(b0));
            let i = choose|i: int| 0 <= i < all.len() && all[i] == x;
            let j = choose|j: int| 0 <= j < all.len() && all[j] == y;
            let x_front = i < f.len();
            let y_front = j < f.len();
            if x_front {
                assert(f[i] == x);
            } else {
                assert(b[i - f.len()] == x);
            }
            if y_front {
                assert(f[j] == y);
            } else {
                assert(b[j - f.len()] == y);
            }
            if x_front && y_front {
                let p = lemma_walk_between(*front, x, y);
                lemma_walk_lift(lf, links, p);
                p
            } else if !x_front && !y_front {
                let p = lemma_walk_between(*back, x, y);
                lemma_walk_lift(lb, links, p);
                p
            } else if x_front {
                let p = lemma_walk_between(*front, x, f0);
                let q = lemma_walk_between(*back, b0, y);
                lemma_walk_lift(lf, links, p);
                lemma_walk_lift(lb, links, q);
                lemma_walk_concat(links, p, q);
                p + q
            } else {
                let p = lemma_walk_between(*back, x, b0);
                let q = lemma_walk_between(*front, f0, y);
                lemma_walk_lift(lb, links, p);
                lemma_walk_lift(lf, links, q);
                lemma_walk_concat(links, p, q);
                p + q
            }
        },
    }
}

/// When the leaf ids of a tree are distinct, a leaf potentially sees
/// exactly the leaves other than itself that a walk along portal links
/// leads to.
pub proof fn lemma_pvs_is_portal_reachability<V>(root: BspNode<V>, a: usize, b: usize)
    requires
        spec_leaf_ids(root).no_duplicates(),
        spec_leaf_ids(root).contains(a),
    ensures
        spec_visible(spec_pvs(root), a, b) <==> (b != a && connected(spec_portal_links(root), a, b)),
{
    let links = spec_portal_links(root);
    let ids = spec_leaf_ids(root);
    lemma_pvs_every_other_leaf(root, a);
    if spec_visible(spec_pvs(root), a, b) {
        assert(ids.to_set().remove(a).contains(b));
        let p = lemma_walk_between(root, a, b);
        assert(is_walk(links, p) && p[0] == a && p.last() == b);
    }
    if b != a && connected(links, a, b) {
        let p = choose|p: Seq<usize>| #[trigger] is_walk(links, p) && p[0] == a && p.last() == b;
        assert(p.len() >= 2);
        let i = p.len() - 2;
        assert(linked(links, p[i], p[i + 1]));
        assert(p[i + 1] == b);
        if links.contains((p[i], b)) {
            let k = choose|k: int| 0 <= k < links.len() && links[k] == (p[i], b);
            crate::portal::lemma_portal_links_are_leaves(root, k);
        } else {
            let k = choose|k: int| 0 <= k < links.len() && links[k] == (b, p[i]);
            crate::portal::lemma_portal_links_are_leaves(root, k);
        }
        assert(ids.to_set().remove(a).contains(b));
    }
}

} // verus!
