//! Polygon splitting along a partition line.

use vstd::prelude::*;
use crate::node::{classify_sides, count_side, spec_classify, PlaneClass, Polygon, VertexSide};

verus! {

/// Index of the vertex after `i` in a closed polygon of `n` vertices.
pub open spec fn next_index(i: int, n: int) -> int {
    if i + 1 == n {
        0
    } else {
        i + 1
    }
}

/// Whether the edge from vertex `i` to the next one passes from one side
/// of the line strictly to the other.
pub open spec fn edge_crosses(sides: Seq<VertexSide>, i: int) -> bool {
    let j = next_index(i, sides.len() as int);
    ||| sides[i] == VertexSide::Front && sides[j] == VertexSide::Back
    ||| sides[i] == VertexSide::Back && sides[j] == VertexSide::Front
}

/// The points kept on one side after walking the first `k` edges: every
/// vertex not strictly on the other side, each followed by the crossing
/// point of its outgoing edge when that edge crosses the line.
pub open spec fn side_part<V>(
    vertices: Seq<V>,
    sides: Seq<VertexSide>,
    crossings: Seq<V>,
    excluded: VertexSide,
    k: int,
) -> Seq<V>
    decreases k,
{
    if k <= 0 {
        Seq::empty()
    } else {
        let prev = side_part(vertices, sides, crossings, excluded, k - 1);
        let with_vertex = if sides[k - 1] != excluded {
            prev.push(vertices[k - 1])
        } else {
            prev
        };
        if edge_crosses(sides, k - 1) {
            with_vertex.push(crossings[k - 1])
        } else {
            with_vertex
        }
    }
}

/// Vertices of the front part of a split polygon, before the size check.
pub open spec fn front_part<V>(vertices: Seq<V>, sides: Seq<VertexSide>, crossings: Seq<V>) -> Seq<V> {
    side_part(vertices, sides, crossings, VertexSide::Back, vertices.len() as int)
}

/// Vertices of the back part of a split polygon, before the size check.
pub open spec fn back_part<V>(vertices: Seq<V>, sides: Seq<VertexSide>, crossings: Seq<V>) -> Seq<V> {
    side_part(vertices, sides, crossings, VertexSide::Front, vertices.len() as int)
}

/// A part is kept as a polygon when the whole had at least three vertices
/// and the part has at least three points.
pub open spec fn part_kept<V>(n: int, part: Seq<V>) -> bool {
    n >= 3 && part.len() >= 3
}

/// What a split gives on one side: the kept part, or nothing when the
/// side is `dropped` or the part is not kept.
pub open spec fn split_result_matches<V>(
    r: Option<Polygon<V>>,
    n: int,
    part: Seq<V>,
    dropped: bool,
) -> bool {
    match r {
        Some(p) => !dropped && part_kept(n, part) && p.vertices@ == part,
        None => dropped || !part_kept(n, part),
    }
}

/// The split keeps a front part: the polygon is not wholly behind the line
/// and its front part has at least three points.
pub open spec fn front_kept<V>(vertices: Seq<V>, sides: Seq<VertexSide>, crossings: Seq<V>) -> bool {
    spec_classify(sides) != PlaneClass::Back && part_kept(
        vertices.len() as int,
        front_part(vertices, sides, crossings),
    )
}

/// The split keeps a back part: the polygon is not wholly in front of the
/// line and its back part has at least three points.
pub open spec fn back_kept<V>(vertices: Seq<V>, sides: Seq<VertexSide>, crossings: Seq<V>) -> bool {
    spec_classify(sides) != PlaneClass::Front && part_kept(
        vertices.len() as int,
        back_part(vertices, sides, crossings),
    )
}

proof fn lemma_count_zero(sides: Seq<VertexSide>, n: int, s: VertexSide)
    requires
        0 <= n <= sides.len(),
        count_side(sides, n, s) == 0,
    ensures
        forall|i: int| 0 <= i < n ==> sides[i] != s,
    decreases n,
{
    if n > 0 {
        lemma_count_zero(sides, n - 1, s);
    }
}

proof fn lemma_part_whole<V>(
    vertices: Seq<V>,
    sides: Seq<VertexSide>,
    crossings: Seq<V>,
    excluded: VertexSide,
    k: int,
)
    requires
        sides.len() == vertices.len(),
        excluded != VertexSide::On,
        0 <= k <= vertices.len(),
        forall|i: int| 0 <= i < sides.len() ==> sides[i] != excluded,
    ensures
        side_part(vertices, sides, crossings, excluded, k) == vertices.take(k),
    decreases k,
{
    if k > 0 {
        lemma_part_whole(vertices, sides, crossings, excluded, k - 1);
        let j = next_index(k - 1, sides.len() as int);
        assert(sides[j] != excluded);
        assert(vertices.take(k) =~= vertices.take(k - 1).push(vertices[k - 1]));
    }
}

/// A polygon that does not span the line stays whole on its side: when
/// no vertex is behind the line (class front or on the plane) the front
/// part is the whole polygon, and when no vertex is in front (class back
/// or on the plane) the back part is the whole polygon.
pub proof fn lemma_unspanned_polygon_stays_whole<V>(
    vertices: Seq<V>,
    sides: Seq<VertexSide>,
    crossings: Seq<V>,
)
    requires
        sides.len() == vertices.len(),
    ensures
        spec_classify(sides) == PlaneClass::Front || spec_classify(sides) == PlaneClass::OnPlane
            ==> front_part(vertices, sides, crossings) == vertices,
        spec_classify(sides) == PlaneClass::Back || spec_classify(sides) == PlaneClass::OnPlane
            ==> back_part(vertices, sides, crossings) == vertices,
{
    let n = sides.len() as int;
    assert(vertices.take(n) =~= vertices);
    if count_side(sides, n, VertexSide::Back) == 0 {
        lemma_count_zero(sides, n, VertexSide::Back);
        lemma_part_whole(vertices, sides, crossings, VertexSide::Back, n);
    }
    if count_side(sides, n, VertexSide::Front) == 0 {
        lemma_count_zero(sides, n, VertexSide::Front);
        lemma_part_whole(vertices, sides, crossings, VertexSide::Front, n);
    }
}

proof fn lemma_parts_cover<V>(
    vertices: Seq<V>,
    sides: Seq<VertexSide>,
    crossings: Seq<V>,
    k: int,
)
    requires
        sides.len() == vertices.len(),
        0 <= k <= vertices.len(),
    ensures
        side_part(vertices, sides, crossings, VertexSide::Back, k).len() + side_part(
            vertices,
            sides,
            crossings,
            VertexSide::Front,
            k,
        ).len() >= k,
    decreases k,
{
    if k > 0 {
        lemma_parts_cover(vertices, sides, crossings, k - 1);
    }
}

/// Splitting never loses a polygon: a polygon of at least three vertices
/// keeps at least one of its two parts.
pub proof fn lemma_split_keeps_a_part<V>(vertices: Seq<V>, sides: Seq<VertexSide>, crossings: Seq<V>)
    requires
        sides.len() == vertices.len(),
        vertices.len() >= 3,
    ensures
        front_kept(vertices, sides, crossings) || back_kept(vertices, sides, crossings),
{
    let n = vertices.len() as int;
    lemma_unspanned_polygon_stays_whole(vertices, sides, crossings);
    if spec_classify(sides) == PlaneClass::Front || spec_classify(sides) == PlaneClass::Back {
    } else if n >= 5 {
        lemma_parts_cover(vertices, sides, crossings, n);
    } else {
        reveal_with_fuel(side_part, 5);
    }
}

/// What `split_polygon` returns for a polygon of at least three vertices
/// meets `split_keeps_polygons`: at least one part, and only parts of at
/// least three vertices.
pub proof fn lemma_split_result_keeps<V>(
    poly: Polygon<V>,
    sides: Seq<VertexSide>,
    crossings: Seq<V>,
    parts: (Option<Polygon<V>>, Option<Polygon<V>>),
)
    requires
        sides.len() == poly.vertices@.len(),
        poly.vertices@.len() >= 3,
        split_result_matches(
            parts.0,
            poly.vertices@.len() as int,
            front_part(poly.vertices@, sides, crossings),
            spec_classify(sides) == PlaneClass::Back,
        ),
        split_result_matches(
            parts.1,
            poly.vertices@.len() as int,
            back_part(poly.vertices@, sides, crossings),
            spec_classify(sides) == PlaneClass::Front,
        ),
    ensures
        parts.0 is Some || parts.1 is Some,
        parts.0 matches Some(q) ==> q.vertices@.len() >= 3,
        parts.1 matches Some(q) ==> q.vertices@.len() >= 3,
{
    lemma_split_keeps_a_part(poly.vertices@, sides, crossings);
}

/// Splits a polygon along a line, returning its (front, back) parts.
///
/// `sides[i]` is the side of the line on which vertex `i` lies and
/// `crossings[i]` the point where the edge from vertex `i` to the next one
/// meets the line; only the crossings of edges that pass strictly from one
/// side to the other are used. A vertex on the line belongs to both parts.
/// A polygon wholly on one side (some vertex strictly on that side, none
/// strictly on the other) comes back whole in that slot with nothing in
/// the other. A polygon of fewer than three vertices gives nothing, and a
/// part is dropped when it has fewer than three points.
pub fn split_polygon<V: Copy>(
    poly: &Polygon<V>,
    sides: &Vec<VertexSide>,
    crossings: &Vec<V>,
) -> (parts: (Option<Polygon<V>>, Option<Polygon<V>>))
    requires
        sides.len() == poly.vertices.len(),
        crossings.len() == poly.vertices.len(),
    ensures
        split_result_matches(
            parts.0,
            poly.vertices.len() as int,
            front_part(poly.vertices@, sides@, crossings@),
            spec_classify(sides@) == PlaneClass::Back,
        ),
        split_result_matches(
            parts.1,
            poly.vertices.len() as int,
            back_part(poly.vertices@, sides@, crossings@),
            spec_classify(sides@) == PlaneClass::Front,
        ),
{
    let n = poly.vertices.len();
    if n < 3 {
        return (None, None);
    }
    let mut front_verts: Vec<V> = Vec::new();
    let mut back_verts: Vec<V> = Vec::new();
    let mut i: usize = 0;
    while i < n
        invariant
            n == poly.vertices.len(),
            n == sides.len(),
            n == crossings.len(),
            i <= n,
            front_verts@ == side_part(poly.vertices@, sides@, crossings@, VertexSide::Back, i as int),
            back_verts@ == side_part(poly.vertices@, sides@, crossings@, VertexSide::Front, i as int),
        decreases n - i,
    {
        let j: usize = if i + 1 == n { 0 } else { i + 1 };
        let vi = poly.vertices[i];
        let si = sides[i];
        let sj = sides[j];
        match si {
            VertexSide::Front => {
                front_verts.push(vi);
            },
            VertexSide::Back => {
                back_verts.push(vi);
            },
            VertexSide::On => {
                front_verts.push(vi);
                back_verts.push(vi);
            },
        }
        let crosses = match (si, sj) {
            (VertexSide::Front, VertexSide::Back) => true,
            (VertexSide::Back, VertexSide::Front) => true,
            _ => false,
        };
        if crosses {
            let x = crossings[i];
            front_verts.push(x);
            back_verts.push(x);
        }
        i = i + 1;
    }
    let class = classify_sides(sides);
    let front = if front_verts.len() >= 3 && class != PlaneClass::Back {
        Some(Polygon::new(front_verts))
    } else {
        None
    };
    let back = if back_verts.len() >= 3 && class != PlaneClass::Front {
        Some(Polygon::new(back_verts))
    } else {
        None
    };
    (front, back)
}

} // verus!

verus! {

/// The edge from vertex `i` to vertex `(i + 1) mod n` joins a vertex
/// strictly in front to one strictly behind.
pub open spec fn crosses_at(sides: Seq<VertexSide>, i: int) -> bool {
    let j = (i + 1) % (sides.len() as int);
    ||| sides[i] == VertexSide::Front && sides[j] == VertexSide::Back
    ||| sides[i] == VertexSide::Back && sides[j] == VertexSide::Front
}

/// Number of edges among the first `k` that cross the line.
pub open spec fn crossing_count(sides: Seq<VertexSide>, k: int) -> nat
    decreases k,
{
    if k <= 0 {
        0
    } else {
        crossing_count(sides, k - 1) + if crosses_at(sides, k - 1) {
            1nat
        } else {
            0nat
        }
    }
}

proof fn lemma_crosses_at(sides: Seq<VertexSide>, i: int)
    requires
        0 <= i < sides.len(),
    ensures
        edge_crosses(sides, i) == crosses_at(sides, i),
{
    let n = sides.len() as int;
    if i + 1 < n {
        vstd::arithmetic::div_mod::lemma_small_mod((i + 1) as nat, n as nat);
    } else {
        vstd::arithmetic::div_mod::lemma_mod_self_0(n);
    }
}

proof fn lemma_side_part_facts<V>(
    vertices: Seq<V>,
    sides: Seq<VertexSide>,
    crossings: Seq<V>,
    excluded: VertexSide,
    k: int,
)
    requires
        sides.len() == vertices.len(),
        crossings.len() == vertices.len(),
        0 <= k <= vertices.len(),
    ensures
        side_part(vertices, sides, crossings, excluded, k).len() == k - count_side(sides, k, excluded)
            + crossing_count(sides, k),
        forall|i: int|
            0 <= i < k && sides[i] != excluded ==> side_part(
                vertices,
                sides,
                crossings,
                excluded,
                k,
            ).contains(#[trigger] vertices[i]),
        forall|i: int|
            0 <= i < k && crosses_at(sides, i) ==> side_part(
                vertices,
                sides,
                crossings,
                excluded,
                k,
            ).contains(#[trigger] crossings[i]),
    decreases k,
{
    if k > 0 {
        lemma_side_part_facts(vertices, sides, crossings, excluded, k - 1);
        lemma_crosses_at(sides, k - 1);
        let prev = side_part(vertices, sides, crossings, excluded, k - 1);
        let cur = side_part(vertices, sides, crossings, excluded, k);
        let with_vertex = if sides[k - 1] != excluded {
            prev.push(vertices[k - 1])
        } else {
            prev
        };
        assert(forall|x: V| prev.contains(x) ==> with_vertex.contains(x)) by {
            assert forall|x: V| prev.contains(x) implies with_vertex.contains(x) by {
                let j = choose|j: int| 0 <= j < prev.len() && prev[j] == x;
                assert(with_vertex[j] == x);
            }
        }
        assert(forall|x: V| with_vertex.contains(x) ==> cur.contains(x)) by {
            assert forall|x: V| with_vertex.contains(x) implies cur.contains(x) by {
                let j = choose|j: int| 0 <= j < with_vertex.len() && with_vertex[j] == x;
                assert(cur[j] == x);
            }
        }
        if sides[k - 1] != excluded {
            assert(with_vertex[with_vertex.len() - 1] == vertices[k - 1]);
        }
        if crosses_at(sides, k - 1) {
            assert(cur[cur.len() - 1] == crossings[k - 1]);
        }
    }
}

/// What a split keeps, in terms of the sides alone: the front part holds
/// every vertex not strictly behind the line and the crossing point of
/// every edge that crosses it, and nothing more (its length is the number
/// of such vertices plus the number of crossing edges); the back part
/// likewise with the vertices not strictly in front. In particular a
/// vertex on the line belongs to both parts.
pub proof fn lemma_split_parts_contents<V>(vertices: Seq<V>, sides: Seq<VertexSide>, crossings: Seq<V>)
    requires
        sides.len() == vertices.len(),
        crossings.len() == vertices.len(),
    ensures
        ({
            let n = vertices.len() as int;
            let f = front_part(vertices, sides, crossings);
            let b = back_part(vertices, sides, crossings);
            &&& f.len() == n - count_side(sides, n, VertexSide::Back) + crossing_count(sides, n)
            &&& b.len() == n - count_side(sides, n, VertexSide::Front) + crossing_count(sides, n)
            &&& forall|i: int|
                0 <= i < n && sides[i] != VertexSide::Back ==> f.contains(#[trigger] vertices[i])
            &&& forall|i: int|
                0 <= i < n && sides[i] != VertexSide::Front ==> b.contains(#[trigger] vertices[i])
            &&& forall|i: int|
                0 <= i < n && crosses_at(sides, i) ==> f.contains(#[trigger] crossings[i])
                    && b.contains(crossings[i])
        }),
{
    let n = vertices.len() as int;
    lemma_side_part_facts(vertices, sides, crossings, VertexSide::Back, n);
    lemma_side_part_facts(vertices, sides, crossings, VertexSide::Front, n);
}

} // verus!
