use std::collections::{HashMap, HashSet};

use bsp_tree::bsp::BspTree;
use bsp_tree::node::{classify_sides, BspNode, Line2D, PlaneClass, Polygon, VertexSide};
use bsp_tree::node::VertexSide::{Back, Front, On};
use bsp_tree::portal::{generate_portals, Portal};
use bsp_tree::pvs::{compute_pvs, is_potentially_visible};
use bsp_tree::splitter::split_polygon;

type Pt = (f64, f64);

const EPS: f64 = 1e-8;

fn normal(line: &Line2D<Pt>) -> Pt {
    let dx = line.b.0 - line.a.0;
    let dy = line.b.1 - line.a.1;
    let len = (dx * dx + dy * dy).sqrt();
    if len < 1e-10 {
        (0.0, 1.0)
    } else {
        (-dy / len, dx / len)
    }
}

fn signed_distance(line: &Line2D<Pt>, p: Pt) -> f64 {
    let (nx, ny) = normal(line);
    (p.0 - line.a.0) * nx + (p.1 - line.a.1) * ny
}

fn vertex_sides(poly: &Polygon<Pt>, line: &Line2D<Pt>) -> Vec<VertexSide> {
    poly.vertices
        .iter()
        .map(|&v| {
            let d = signed_distance(line, v);
            if d > EPS {
                VertexSide::Front
            } else if d < -EPS {
                VertexSide::Back
            } else {
                VertexSide::On
            }
        })
        .collect()
}

fn classify(poly: &Polygon<Pt>, line: &Line2D<Pt>) -> PlaneClass {
    poly.classify(&vertex_sides(poly, line))
}

fn split(poly: &Polygon<Pt>, line: &Line2D<Pt>) -> (Option<Polygon<Pt>>, Option<Polygon<Pt>>) {
    let n = poly.vertices.len();
    let sides = vertex_sides(poly, line);
    let crossings: Vec<Pt> = (0..n)
        .map(|i| {
            let vi = poly.vertices[i];
            let vj = poly.vertices[(i + 1) % n];
            let di = signed_distance(line, vi);
            let dj = signed_distance(line, vj);
            let t = di / (di - dj);
            (vi.0 + t * (vj.0 - vi.0), vi.1 + t * (vj.1 - vi.1))
        })
        .collect();
    split_polygon(poly, &sides, &crossings)
}

fn split_by_line(poly: &Polygon<Pt>, line: &Line2D<Pt>) -> (Option<Polygon<Pt>>, Option<Polygon<Pt>>) {
    split(poly, line)
}

fn build(polygons: Vec<Polygon<Pt>>) -> BspTree<Pt> {
    BspTree::build(polygons, Line2D::new((0.0, 0.0), (1.0, 0.0)), &classify, &split)
}

fn viewer_sides(tree: &BspTree<Pt>, viewer: Pt) -> Vec<bool> {
    tree.partition_lines()
        .iter()
        .map(|l| signed_distance(l, viewer) >= 0.0)
        .collect()
}

fn portal_endpoints(plane: &Line2D<Pt>, front_leaves: usize, back_leaves: usize) -> (Pt, Pt) {
    let mid = ((front_leaves as f64 + back_leaves as f64) / 2.0, 0.0);
    let ext = 100.0;
    (
        (mid.0 - ext * (plane.b.0 - plane.a.0), mid.1 - ext * (plane.b.1 - plane.a.1)),
        (mid.0 + ext * (plane.b.0 - plane.a.0), mid.1 + ext * (plane.b.1 - plane.a.1)),
    )
}

fn portals(tree: &BspNode<Pt>) -> Vec<Portal<Pt>> {
    generate_portals(tree, &portal_endpoints)
}

fn make_square(x: f64, y: f64, s: f64) -> Polygon<Pt> {
    Polygon::new(vec![(x, y), (x + s, y), (x + s, y + s), (x, y + s)])
}

fn poly_area(p: &Polygon<Pt>) -> f64 {
    let n = p.vertices.len();
    let mut a = 0.0;
    for i in 0..n {
        let j = (i + 1) % n;
        a += p.vertices[i].0 * p.vertices[j].1 - p.vertices[j].0 * p.vertices[i].1;
    }
    a.abs() / 2.0
}

// ---- node ----

#[test]
fn test_polygon_classify_front() {
    let line = Line2D::new((0.0, 0.0), (1.0, 0.0));
    let poly = Polygon::new(vec![(0.0, 5.0), (1.0, 5.0), (0.5, 10.0)]);
    assert_eq!(classify(&poly, &line), PlaneClass::Front);
}

#[test]
fn test_polygon_classify_spanning() {
    let line = Line2D::new((0.0, 0.0), (1.0, 0.0));
    let poly = Polygon::new(vec![(0.0, -5.0), (1.0, 5.0), (2.0, -5.0)]);
    assert_eq!(classify(&poly, &line), PlaneClass::Spanning);
}

#[test]
fn test_leaf_node() {
    let leaf = BspNode::new_leaf(vec![Polygon::new(vec![(0.0, 0.0), (1.0, 0.0), (0.0, 1.0)])], 0);
    assert_eq!(leaf.count_polygons(), 1);
    assert_eq!(leaf.depth(), 1);
}

#[test]
fn test_internal_depth() {
    let l: BspNode<Pt> = BspNode::new_leaf(vec![], 0);
    let r = BspNode::new_leaf(vec![], 1);
    let root = BspNode::new_internal(Line2D::new((0.0, 0.0), (1.0, 0.0)), l, r, vec![]);
    assert_eq!(root.depth(), 2);
    assert_eq!(root.leaf_ids(), vec![0, 1]);
}

// ---- splitter ----

#[test]
fn test_split_spanning_polygon() {
    let line = Line2D::new((0.0, 0.0), (1.0, 0.0));
    let poly = Polygon::new(vec![(-2.0, -2.0), (2.0, -2.0), (0.0, 2.0)]);
    let (front, back) = split_by_line(&poly, &line);
    assert!(front.is_some());
    assert!(back.is_some());
}

#[test]
fn test_split_front_only() {
    let line = Line2D::new((0.0, 0.0), (1.0, 0.0));
    let poly = Polygon::new(vec![(0.0, 1.0), (1.0, 1.0), (0.5, 3.0)]);
    let (front, back) = split_by_line(&poly, &line);
    assert!(front.is_some());
    assert!(back.is_none());
}

#[test]
fn test_split_back_only() {
    let line = Line2D::new((0.0, 0.0), (1.0, 0.0));
    let poly = Polygon::new(vec![(0.0, -3.0), (1.0, -3.0), (0.5, -1.0)]);
    let (front, back) = split_by_line(&poly, &line);
    assert!(front.is_none());
    assert!(back.is_some());
}

#[test]
fn test_split_preserves_total_area() {
    let line = Line2D::new((0.0, 0.0), (1.0, 0.0));
    let poly = Polygon::new(vec![(-4.0, -4.0), (4.0, -4.0), (0.0, 4.0)]);
    let orig_area = poly_area(&poly);
    let (front, back) = split_by_line(&poly, &line);
    let sum_area = front.as_ref().map_or(0.0, |p| poly_area(p))
        + back.as_ref().map_or(0.0, |p| poly_area(p));
    assert!((orig_area - sum_area).abs() < 0.1, "orig={} sum={}", orig_area, sum_area);
}

// ---- bsp ----

#[test]
fn test_build_single_polygon() {
    let tree = build(vec![make_square(0.0, 0.0, 1.0)]);
    assert_eq!(tree.leaf_count(), 1);
}

#[test]
fn test_build_multiple_polygons() {
    let polys = vec![
        make_square(0.0, 0.0, 1.0),
        make_square(5.0, 0.0, 1.0),
        make_square(0.0, 5.0, 1.0),
    ];
    let tree = build(polys);
    assert!(tree.leaf_count() >= 2);
}

#[test]
fn test_front_to_back_ordering() {
    let polys = vec![make_square(0.0, 0.0, 1.0), make_square(10.0, 0.0, 1.0)];
    let tree = build(polys);
    let order = tree.traverse_front_to_back(&viewer_sides(&tree, (0.0, 0.0)));
    assert!(!order.is_empty());
}

#[test]
fn test_back_to_front_reverses() {
    let polys = vec![make_square(0.0, 0.0, 1.0), make_square(5.0, 0.0, 1.0)];
    let tree = build(polys);
    let sides = viewer_sides(&tree, (0.0, 0.0));
    let ftb = tree.traverse_front_to_back(&sides);
    let btf = tree.traverse_back_to_front(&sides);
    assert_eq!(ftb, btf.into_iter().rev().collect::<Vec<_>>());
}

#[test]
fn test_empty_tree() {
    let tree = build(vec![]);
    assert_eq!(tree.leaf_count(), 1); // empty leaf
}

#[test]
fn test_tree_depth_grows() {
    let tree1 = build(vec![make_square(0.0, 0.0, 1.0)]);
    let tree3 = build(vec![
        make_square(0.0, 0.0, 1.0),
        make_square(5.0, 5.0, 1.0),
        make_square(10.0, 10.0, 1.0),
    ]);
    assert!(tree3.depth() >= tree1.depth());
}

// ---- portal ----

#[test]
fn test_portal_generation_simple() {
    let leaf0 = BspNode::new_leaf(vec![make_square(0.0, 0.0, 1.0)], 0);
    let leaf1 = BspNode::new_leaf(vec![make_square(5.0, 0.0, 1.0)], 1);
    let root = BspNode::new_internal(Line2D::new((2.0, 0.0), (2.0, 1.0)), leaf0, leaf1, vec![]);
    let portals = portals(&root);
    assert!(!portals.is_empty());
}

#[test]
fn test_portal_connects_two_leaves() {
    let leaf0 = BspNode::new_leaf(vec![], 0);
    let leaf1 = BspNode::new_leaf(vec![], 1);
    let root = BspNode::new_internal(Line2D::new((0.0, 0.0), (0.0, 1.0)), leaf0, leaf1, vec![]);
    let portals = portals(&root);
    assert_eq!(portals.len(), 1);
    let p = &portals[0];
    assert_ne!(p.front_leaf, p.back_leaf);
}

#[test]
fn test_portal_leaf_has_endpoints() {
    let leaf0 = BspNode::new_leaf(vec![], 0);
    let leaf1 = BspNode::new_leaf(vec![], 1);
    let root = BspNode::new_internal(Line2D::new((0.0, 0.0), (1.0, 0.0)), leaf0, leaf1, vec![]);
    let portals = portals(&root);
    assert!(!portals.is_empty());
    let p = &portals[0];
    // Endpoints should be distinct
    assert_ne!(p.endpoints.0, p.endpoints.1);
}

#[test]
fn test_no_portals_for_single_leaf() {
    let leaf = BspNode::new_leaf(vec![], 0);
    let portals = portals(&leaf);
    assert!(portals.is_empty());
}

#[test]
fn test_portal_front_back_distinct() {
    let leaf0 = BspNode::new_leaf(vec![], 10);
    let leaf1 = BspNode::new_leaf(vec![], 20);
    let root = BspNode::new_internal(Line2D::new((5.0, 0.0), (5.0, 1.0)), leaf0, leaf1, vec![]);
    let portals = portals(&root);
    for p in &portals {
        assert!(p.front_leaf != p.back_leaf);
    }
}

// ---- pvs ----

#[test]
fn test_pvs_single_leaf() {
    let leaf: BspNode<Pt> = BspNode::new_leaf(vec![], 0);
    let pvs = compute_pvs(&leaf);
    assert_eq!(pvs[&0].len(), 0);
}

#[test]
fn test_pvs_two_leaves() {
    let leaf0: BspNode<Pt> = BspNode::new_leaf(vec![], 0);
    let leaf1 = BspNode::new_leaf(vec![], 1);
    let root = BspNode::new_internal(Line2D::new((0.0, 0.0), (0.0, 1.0)), leaf0, leaf1, vec![]);
    let pvs = compute_pvs(&root);
    assert!(is_potentially_visible(&pvs, 0, 1));
    assert!(is_potentially_visible(&pvs, 1, 0));
}

#[test]
fn test_pvs_symmetry() {
    let leaf0: BspNode<Pt> = BspNode::new_leaf(vec![], 0);
    let leaf1 = BspNode::new_leaf(vec![], 1);
    let leaf2 = BspNode::new_leaf(vec![], 2);
    let right = BspNode::new_internal(Line2D::new((5.0, 0.0), (5.0, 1.0)), leaf1, leaf2, vec![]);
    let root = BspNode::new_internal(Line2D::new((0.0, 0.0), (0.0, 1.0)), leaf0, right, vec![]);
    let pvs = compute_pvs(&root);
    // Check symmetry
    for (&from, visible) in &pvs {
        for &to in visible {
            assert!(
                is_potentially_visible(&pvs, to, from),
                "PVS not symmetric: {} sees {} but not vice versa",
                from,
                to
            );
        }
    }
}

#[test]
fn test_pvs_not_self_visible() {
    let leaf0: BspNode<Pt> = BspNode::new_leaf(vec![], 0);
    let leaf1 = BspNode::new_leaf(vec![], 1);
    let root = BspNode::new_internal(Line2D::new((0.0, 0.0), (0.0, 1.0)), leaf0, leaf1, vec![]);
    let pvs = compute_pvs(&root);
    assert!(!is_potentially_visible(&pvs, 0, 0));
    assert!(!is_potentially_visible(&pvs, 1, 1));
}

#[test]
fn test_pvs_with_polygons() {
    let tree = build(vec![make_square(0.0, 0.0, 1.0), make_square(5.0, 0.0, 1.0)]);
    let pvs = compute_pvs(tree.root());
    // Should have entries for all leaves
    assert!(!pvs.is_empty());
}

// ---- further cases ----

#[test]
fn test_classify_sides_cases() {
    assert_eq!(classify_sides(&vec![Front, On, Front]), PlaneClass::Front);
    assert_eq!(classify_sides(&vec![Back, Back, On]), PlaneClass::Back);
    assert_eq!(classify_sides(&vec![On, On, On]), PlaneClass::OnPlane);
    assert_eq!(classify_sides(&vec![]), PlaneClass::OnPlane);
    assert_eq!(classify_sides(&vec![Front, On, Back]), PlaneClass::Spanning);
}

#[test]
fn test_split_polygon_exact_parts() {
    let poly = Polygon::new(vec![(0, 0), (4, 0), (4, 4), (0, 4)]);
    // vertices 0 and 1 in front, 2 and 3 behind; edges 1 and 3 cross
    let sides = vec![Front, Front, Back, Back];
    let crossings = vec![(9, 9), (4, 2), (9, 9), (0, 2)];
    let (front, back) = split_polygon(&poly, &sides, &crossings);
    assert_eq!(front.unwrap().vertices, vec![(0, 0), (4, 0), (4, 2), (0, 2)]);
    assert_eq!(back.unwrap().vertices, vec![(4, 2), (4, 4), (0, 4), (0, 2)]);
}

#[test]
fn test_split_polygon_on_vertex_goes_both_ways() {
    let poly = Polygon::new(vec![(0, 0), (2, 2), (4, 0)]);
    let sides = vec![On, Front, On];
    let crossings = vec![(9, 9), (9, 9), (9, 9)];
    let (front, back) = split_polygon(&poly, &sides, &crossings);
    assert_eq!(front.unwrap().vertices, vec![(0, 0), (2, 2), (4, 0)]);
    assert!(back.is_none());
}

#[test]
fn test_split_polygon_too_few_vertices() {
    let poly = Polygon::new(vec![(0, 0), (2, 2)]);
    let (front, back) = split_polygon(&poly, &vec![Front, Back], &vec![(1, 1), (1, 1)]);
    assert!(front.is_none());
    assert!(back.is_none());
}

#[test]
fn test_count_polygons_sums_leaves_and_coplanar() {
    let sq = || make_square(0.0, 0.0, 1.0);
    let l = BspNode::new_leaf(vec![sq(), sq()], 0);
    let r = BspNode::new_leaf(vec![sq()], 1);
    let root = BspNode::new_internal(Line2D::new((0.0, 0.0), (1.0, 0.0)), l, r, vec![sq()]);
    assert_eq!(root.count_polygons(), 4);
}

#[test]
fn test_build_numbers_leaves_in_order() {
    // Second square lies in front of the first square's first edge, third behind.
    let tree = build(vec![
        make_square(0.0, 0.0, 1.0),
        make_square(0.0, 2.0, 1.0),
        make_square(0.0, -3.0, 1.0),
    ]);
    let ids = tree.root().leaf_ids();
    assert_eq!(ids, vec![0, 1]);
    match tree.root() {
        BspNode::Internal { coplanar, .. } => assert_eq!(coplanar.len(), 1),
        _ => panic!("expected an internal node"),
    }
}

#[test]
fn test_build_empty_leaf_takes_its_own_id() {
    // The second square is behind the first one's first edge: the front
    // list is empty, and its leaf still takes an id of its own.
    let tree = build(vec![make_square(0.0, 0.0, 1.0), make_square(0.0, -3.0, 1.0)]);
    assert_eq!(tree.root().leaf_ids(), vec![0, 1]);
    assert_eq!(tree.depth(), 2);
}

#[test]
fn test_traversal_from_both_sides() {
    let tree = build(vec![
        make_square(0.0, 0.0, 1.0),
        make_square(0.0, 2.0, 1.0),
        make_square(0.0, -3.0, 1.0),
    ]);
    let above = tree.traverse_front_to_back(&viewer_sides(&tree, (0.5, 10.0)));
    let below = tree.traverse_front_to_back(&viewer_sides(&tree, (0.5, -10.0)));
    assert_eq!(above, vec![0, 1]);
    assert_eq!(below, vec![1, 0]);
    let btf = tree.traverse_back_to_front(&viewer_sides(&tree, (0.5, 10.0)));
    assert_eq!(btf, vec![1, 0]);
}

#[test]
fn test_pvs_three_leaves_closure() {
    let leaf0: BspNode<Pt> = BspNode::new_leaf(vec![], 0);
    let leaf1 = BspNode::new_leaf(vec![], 1);
    let leaf2 = BspNode::new_leaf(vec![], 2);
    let right = BspNode::new_internal(Line2D::new((5.0, 0.0), (5.0, 1.0)), leaf1, leaf2, vec![]);
    let root = BspNode::new_internal(Line2D::new((0.0, 0.0), (0.0, 1.0)), leaf0, right, vec![]);
    let pvs = compute_pvs(&root);
    let expected: HashMap<usize, HashSet<usize>> = vec![
        (0, vec![1, 2].into_iter().collect()),
        (1, vec![0, 2].into_iter().collect()),
        (2, vec![0, 1].into_iter().collect()),
    ]
    .into_iter()
    .collect();
    assert_eq!(pvs, expected);
    assert!(!is_potentially_visible(&pvs, 7, 0));
}

#[test]
fn test_pvs_built_tree_sees_every_other_leaf() {
    let tree = build(vec![
        make_square(0.0, 0.0, 1.0),
        make_square(0.0, -3.0, 1.0),
        make_square(5.0, 0.0, 1.0),
        make_square(0.0, 5.0, 1.0),
    ]);
    let ids = tree.root().leaf_ids();
    let pvs = compute_pvs(tree.root());
    assert_eq!(pvs.len(), ids.len());
    for &a in &ids {
        assert!(!is_potentially_visible(&pvs, a, a));
        for &b in &ids {
            if a != b {
                assert!(is_potentially_visible(&pvs, a, b));
            }
        }
    }
}

#[test]
fn test_portal_endpoints_follow_plane() {
    let leaf0 = BspNode::new_leaf(vec![], 0);
    let leaf1 = BspNode::new_leaf(vec![], 1);
    let root = BspNode::new_internal(Line2D::new((0.0, 0.0), (1.0, 0.0)), leaf0, leaf1, vec![]);
    let portals = portals(&root);
    assert_eq!(portals[0].endpoints, ((-99.0, 0.0), (101.0, 0.0)));
    let copy = portals[0].clone();
    assert_eq!(copy.endpoints, portals[0].endpoints);
    assert_eq!((portals[0].front_leaf, portals[0].back_leaf), (0, 1));
}

#[test]
fn test_front_to_back_lists_every_leaf() {
    let tree = build(vec![
        make_square(0.0, 0.0, 1.0),
        make_square(5.0, 0.0, 1.0),
        make_square(0.0, 5.0, 1.0),
        make_square(-4.0, -4.0, 2.0),
    ]);
    let mut leaves = tree.root().leaf_ids();
    leaves.sort();
    for viewer in [(0.5, 0.5), (10.0, -10.0), (-3.0, 7.0)] {
        let mut order = traverse_order(&tree, viewer);
        order.sort();
        assert_eq!(order, leaves);
    }
}

fn traverse_order(tree: &BspTree<Pt>, viewer: Pt) -> Vec<usize> {
    tree.traverse_front_to_back(&viewer_sides(tree, viewer))
}

#[test]
fn test_pvs_keys_are_leaf_ids() {
    let tree = build(vec![
        make_square(0.0, 0.0, 1.0),
        make_square(5.0, 0.0, 1.0),
        make_square(0.0, 5.0, 1.0),
    ]);
    let pvs = compute_pvs(tree.root());
    let keys: HashSet<usize> = pvs.keys().copied().collect();
    let leaves: HashSet<usize> = tree.root().leaf_ids().into_iter().collect();
    assert_eq!(keys, leaves);
    assert_eq!(tree.partition_lines().len() + 1, tree.root().leaf_ids().len());
}

#[test]
fn test_split_polygon_wholly_in_front_keeps_no_back() {
    // Three vertices on the line and one in front: the polygon is wholly
    // in front, so it comes back whole in front with nothing behind.
    let poly = Polygon::new(vec![(0, 0), (1, 0), (2, 0), (1, 1)]);
    let (front, back) = split_polygon(&poly, &vec![On, On, On, Front], &vec![(9, 9); 4]);
    assert_eq!(front.unwrap().vertices, vec![(0, 0), (1, 0), (2, 0), (1, 1)]);
    assert!(back.is_none());
    let (front, back) = split_polygon(&poly, &vec![On, On, On, Back], &vec![(9, 9); 4]);
    assert!(front.is_none());
    assert_eq!(back.unwrap().vertices, vec![(0, 0), (1, 0), (2, 0), (1, 1)]);
    // All on the line: both parts are the whole polygon.
    let (front, back) = split_polygon(&poly, &vec![On, On, On, On], &vec![(9, 9); 4]);
    assert!(front.is_some() && back.is_some());
}

#[test]
fn test_split_by_line_wholly_in_front_with_edge_on_line() {
    let line = Line2D::new((0.0, 0.0), (1.0, 0.0));
    let poly = Polygon::new(vec![(0.0, 0.0), (1.0, 0.0), (2.0, 0.0), (1.0, 1.0)]);
    let (front, back) = split_by_line(&poly, &line);
    assert_eq!(front.unwrap().vertices.len(), 4);
    assert!(back.is_none());
}

#[test]
fn test_build_keeps_every_polygon() {
    // No square spans a partition line: the tree holds exactly the three.
    let tree = build(vec![
        make_square(0.0, 0.0, 1.0),
        make_square(0.0, 2.0, 1.0),
        make_square(0.0, -3.0, 1.0),
    ]);
    assert_eq!(tree.root().count_polygons(), 3);
    // The second square spans the first one's first edge and is cut in two.
    let tree = build(vec![make_square(0.0, 0.0, 1.0), make_square(0.5, -1.0, 2.0)]);
    assert_eq!(tree.root().count_polygons(), 3);
}
