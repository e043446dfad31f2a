//! Which feature of the shape touches first in a direction.
use vstd::prelude::*;

use crate::feature;
use crate::feature::{EdgeReach, FeatureView, PackedFeatureId, ARC_CODE};
use crate::polygon;
use crate::profile::ExtrudedProfile;
use crate::scalar::{Lawful, Scalar};
use crate::vector::{Vector, Vector2};

verus! {

/// The length of the edge from `p` to `q`.
pub open spec fn edge_length<R: Scalar>(p: Vector2<R>, q: Vector2<R>) -> R {
    let (x, y) = (q.y.minus(p.y), q.x.minus(p.x).negated());
    x.times(x).plus(y.times(y)).root()
}

/// How well a counter-clockwise edge from `p` to `q` faces `dir`: the inner product of its outward
/// unit normal and the direction.
pub open spec fn facing<R: Scalar>(p: Vector2<R>, q: Vector2<R>, dir: Vector<R>) -> R {
    let (x, y) = (q.y.minus(p.y), q.x.minus(p.x).negated());
    x.times(dir.x).plus(y.times(dir.z)).over(edge_length(p, q))
}

/// How well the edge of the boundary from its `i`-th vertex on faces `dir`.
pub open spec fn facing_at<R: Scalar>(shape: ExtrudedProfile<R>, dir: Vector<R>, i: int) -> R {
    facing(shape.boundary()[i], shape.boundary()[(i + 1) % shape.boundary().len() as int], dir)
}

/// Is the edge of the boundary from its `i`-th vertex on long enough to face anywhere?
pub open spec fn is_edge<R: Scalar>(shape: ExtrudedProfile<R>, i: int) -> bool {
    &&& 0 <= i < shape.boundary().len()
    &&& !edge_length(
        shape.boundary()[i],
        shape.boundary()[(i + 1) % shape.boundary().len() as int],
    ).at_most(R::epsilon_value())
}

/// Does the direction point more to the side than along the sweep, and does arc `a` face it?
pub open spec fn takes<R: Scalar>(shape: ExtrudedProfile<R>, dir: Vector<R>, a: int) -> bool {
    let d = Vector2 { x: dir.x, y: dir.z };
    &&& 0 <= a < shape.arcs@.len()
    &&& dir.y.magnitude().below(d.x.times(d.x).plus(d.y.times(d.y)).root())
    &&& d.unit() matches Some(unit) && shape.arcs@[a].faces(unit.heading())
}

/// Is the feature a side over the edge of the boundary from its `i`-th vertex on: its two ends, on
/// either cap?
pub open spec fn is_side<R: Scalar>(
    shape: ExtrudedProfile<R>,
    f: FeatureView<R>,
    i: int,
) -> bool {
    let n = shape.boundary().len() as int;
    let j = (i + 1) % n;
    let (p, q) = (shape.boundary()[i], shape.boundary()[j]);
    let (low, high) = (shape.half_depth.negated(), shape.half_depth);
    &&& f.num_vertices == 4
    &&& f.vertices.len() == 4 && f.vids.len() == 4 && f.eids.len() == 4
    &&& f.vertices[0] == (Vector { x: p.x, y: low, z: p.y })
    &&& f.vertices[1] == (Vector { x: q.x, y: low, z: q.y })
    &&& f.vertices[2] == (Vector { x: q.x, y: high, z: q.y })
    &&& f.vertices[3] == (Vector { x: p.x, y: high, z: p.y })
    &&& f.vids[0] == PackedFeatureId::Vertex(i as u32)
    &&& f.vids[1] == PackedFeatureId::Vertex(j as u32)
    &&& f.vids[2] == PackedFeatureId::Vertex((j + n) as u32)
    &&& f.vids[3] == PackedFeatureId::Vertex((i + n) as u32)
    &&& forall|k: int| 0 <= k < 4 ==> #[trigger] f.eids[k] == PackedFeatureId::Edge(
        (4 * i + k) as u32,
    )
    &&& f.fid == PackedFeatureId::Face((2 + i) as u32)
}

/// The edge that is picked is one of the boundary, or none was long enough.
proof fn lemma_picked<R: Lawful>(poly: Seq<Vector2<R>>, d: Vector2<R>, count: nat)
    requires
        0 < count <= poly.len() <= usize::MAX,
    ensures
        ({
            let best = EdgeReach::of_edges(poly, d, count);
            let i = best.index as int;
            let normal = feature::edge_normal(poly[i], poly[(i + 1) % poly.len() as int]);
            &&& i < poly.len()
            &&& best.dot == R::neg_infinity_value() || (!normal.norm().at_most(R::epsilon_value())
                && best.dot == normal.inner(d).over(normal.norm()))
            &&& best.dot.at_most(best.dot)
        }),
    decreases count,
{
    let i = count - 1;
    let normal = feature::edge_normal(poly[i], poly[(i + 1) % poly.len() as int]);
    let dot = normal.inner(d).over(normal.norm());
    let rest = EdgeReach::of_edges(poly, d, i as nat);
    R::law_counts(0, 0);
    R::law_infinities(R::of_count(0));
    R::law_numbers(R::neg_infinity_value(), R::of_count(0));
    R::law_numbers(rest.dot, dot);
    if i > 0 {
        lemma_picked(poly, d, i as nat);
    }
}

/// An edge before the one that is picked faces the direction less well.
proof fn lemma_first_best<R: Lawful>(
    poly: Seq<Vector2<R>>,
    d: Vector2<R>,
    count: nat,
    j: int,
)
    requires
        0 < count <= poly.len() <= usize::MAX,
        0 <= j < EdgeReach::of_edges(poly, d, count).index,
        ({
            let normal = feature::edge_normal(poly[j], poly[(j + 1) % poly.len() as int]);
            let x = normal.inner(d).over(normal.norm());
            &&& !normal.norm().at_most(R::epsilon_value())
            &&& x.at_most(x)
        }),
    ensures
        ({
            let normal = feature::edge_normal(poly[j], poly[(j + 1) % poly.len() as int]);
            normal.inner(d).over(normal.norm()).below(EdgeReach::of_edges(poly, d, count).dot)
        }),
    decreases count,
{
    let i = count - 1;
    let rest = EdgeReach::of_edges(poly, d, i as nat);
    let best = EdgeReach::of_edges(poly, d, count);
    if best == rest {
        if i > 0 {
            lemma_first_best(poly, d, i as nat, j);
        }
    } else {
        let normal = feature::edge_normal(poly[j], poly[(j + 1) % poly.len() as int]);
        let x = normal.inner(d).over(normal.norm());
        feature::lemma_edges(poly, d, i as nat, j);
        lemma_picked(poly, d, i as nat);
        R::law_numbers(rest.dot, x);
        R::law_numbers(rest.dot, best.dot);
        R::law_numbers(x, best.dot);
        R::law_transitive(x, rest.dot, best.dot);
        if best.dot.at_most(x) {
            R::law_transitive(best.dot, x, rest.dot);
        }
    }
}

/// Without an arc that takes the direction, none is found.
proof fn lemma_no_arc<R: Lawful>(shape: ExtrudedProfile<R>, dir: Vector<R>)
    requires
        forall|a: int| !#[trigger] takes(shape, dir, a),
    ensures
        shape.side_arc(dir) is None,
{
    if let Some(unit) = dir.in_plane().unit() {
        if dir.y.magnitude().below(dir.in_plane().norm()) {
            feature::lemma_first_facing(shape.arcs@, unit.heading(), 0);
            if let Some(a) = shape.side_arc(dir) {
                assert(takes(shape, dir, a as int));
            }
        }
    }
}

/// Where no arc takes the direction, and some edge faces it better than the sweep does, the feature
/// is a side: the one over an edge that no other faces better than.
pub proof fn law_feature_is_side<R: Lawful>(
    shape: ExtrudedProfile<R>,
    dir: Vector<R>,
    before: FeatureView<R>,
    e: int,
) -> (i: int)
    requires
        shape.boundary().len() <= usize::MAX,
        forall|a: int| !#[trigger] takes(shape, dir, a),
        is_edge(shape, e),
        dir.y.magnitude().below(facing_at(shape, dir, e)),
    ensures
        is_edge(shape, i),
        is_side(shape, shape.support_feature(dir, before), i),
        forall|j: int|
            is_edge(shape, j) ==> !facing_at(shape, dir, i).below(
                #[trigger] facing_at(shape, dir, j),
            ),
        forall|j: int|
            is_edge(shape, j) && j < i && (#[trigger] facing_at(shape, dir, j)).at_most(
                facing_at(shape, dir, j),
            ) ==> facing_at(shape, dir, j).below(facing_at(shape, dir, i)),
        dir.y.magnitude().below(facing_at(shape, dir, i)),
{
    let poly = shape.boundary();
    let d = dir.in_plane();
    let best = EdgeReach::of_loop(poly, d);
    let i = best.index as int;
    lemma_no_arc(shape, dir);
    lemma_picked(poly, d, poly.len());
    let (y, f) = (dir.y.magnitude(), facing_at(shape, dir, e));
    feature::law_best_edge(poly, d, e);
    R::law_numbers(y, f);
    R::law_numbers(best.dot, f);
    R::law_numbers(y, best.dot);
    R::law_infinities(y);
    if best.dot.at_most(y) {
        R::law_transitive(f, best.dot, y);
    }
    assert forall|j: int| is_edge(shape, j) implies !facing_at(shape, dir, i).below(
        #[trigger] facing_at(shape, dir, j),
    ) by {
        feature::law_best_edge(poly, d, j);
    }
    assert forall|j: int|
        is_edge(shape, j) && j < i && (#[trigger] facing_at(shape, dir, j)).at_most(
            facing_at(shape, dir, j),
        ) implies facing_at(shape, dir, j).below(facing_at(shape, dir, i)) by {
        lemma_first_best(poly, d, poly.len(), j);
    }
    let side = shape.side_face(i as nat);
    assert(shape.support_feature(dir, before) == side);
    polygon::lemma_next(i, poly.len() as int);
    i
}

/// Where no arc takes the direction, and no edge faces it better than the sweep does, the feature is
/// a cap, the upper one unless the direction points down: up to four vertices of the boundary, at
/// the height of that cap, each under the number that it has on the boundary.
pub proof fn law_feature_is_cap<R: Lawful>(
    shape: ExtrudedProfile<R>,
    dir: Vector<R>,
    before: FeatureView<R>,
)
    requires
        0 < shape.boundary().len() <= usize::MAX,
        forall|a: int| !#[trigger] takes(shape, dir, a),
        dir.y.magnitude().at_most(dir.y.magnitude()),
        forall|j: int|
            is_edge(shape, j) ==> (#[trigger] facing_at(shape, dir, j)).at_most(
                dir.y.magnitude(),
            ),
    ensures
        ({
            let f = shape.support_feature(dir, before);
            let n = shape.boundary().len();
            let up = R::of_count(0).at_most(dir.y);
            &&& f.num_vertices == if n < 4 {
                n
            } else {
                4
            }
            &&& f.fid == PackedFeatureId::Face(
                if up {
                    0
                } else {
                    1
                },
            )
            &&& forall|k: int| 0 <= k < f.num_vertices ==> #[trigger] is_cap_corner(shape, f, k, up)
        }),
{
    let poly = shape.boundary();
    let d = dir.in_plane();
    let best = EdgeReach::of_loop(poly, d);
    lemma_no_arc(shape, dir);
    lemma_picked(poly, d, poly.len());
    R::law_infinities(dir.y.magnitude());
    let i = best.index as int;
    if best.dot != R::neg_infinity_value() {
        assert(is_edge(shape, i));
        assert(best.dot == facing_at(shape, dir, i));
    }
    let f = shape.support_feature(dir, before);
    let up = R::of_count(0).at_most(dir.y);
    assert(f == shape.cap_face(before, dir));
    assert forall|k: int| 0 <= k < f.num_vertices implies #[trigger] is_cap_corner(
        shape,
        f,
        k,
        up,
    ) by {
        let l = feature::cap_index(poly.len(), k as nat, up) as int;
        feature::lemma_cap_steps(poly.len(), k as nat);
        assert(names(shape, f, k, l, up));
    }
}

/// Is corner `k` of the feature vertex `i` of the boundary, at the height of a cap?
pub open spec fn names<R: Scalar>(
    shape: ExtrudedProfile<R>,
    f: FeatureView<R>,
    k: int,
    i: int,
    up: bool,
) -> bool {
    let y = if up {
        shape.half_depth
    } else {
        shape.half_depth.negated()
    };
    &&& 0 <= i < shape.boundary().len()
    &&& f.vertices[k] == (Vector { x: shape.boundary()[i].x, y, z: shape.boundary()[i].y })
    &&& f.vids[k] == PackedFeatureId::Vertex(i as u32)
    &&& f.eids[k] == PackedFeatureId::Edge(i as u32)
}

/// Is corner `k` of the feature some vertex of the boundary, at the height of a cap?
pub open spec fn is_cap_corner<R: Scalar>(
    shape: ExtrudedProfile<R>,
    f: FeatureView<R>,
    k: int,
    up: bool,
) -> bool {
    exists|i: int| names(shape, f, k, i, up)
}

/// The corners of a cap are different vertices of the boundary, taken in its order on the upper cap
/// and against it on the lower one, from the first vertex on.
pub proof fn law_cap_goes_around<R: Lawful>(
    shape: ExtrudedProfile<R>,
    dir: Vector<R>,
    before: FeatureView<R>,
    k: int,
    l: int,
) -> (r: (int, int))
    requires
        0 < shape.boundary().len() <= usize::MAX,
        forall|a: int| !#[trigger] takes(shape, dir, a),
        dir.y.magnitude().at_most(dir.y.magnitude()),
        forall|j: int|
            is_edge(shape, j) ==> (#[trigger] facing_at(shape, dir, j)).at_most(
                dir.y.magnitude(),
            ),
        0 <= k < l < shape.support_feature(dir, before).num_vertices,
    ensures
        ({
            let f = shape.support_feature(dir, before);
            let up = R::of_count(0).at_most(dir.y);
            &&& names(shape, f, k, r.0, up)
            &&& names(shape, f, l, r.1, up)
            &&& k == 0 ==> r.0 == 0
            &&& up ==> r.0 < r.1
            &&& !up ==> r.1 < r.0 || r.0 == 0 < r.1
        }),
{
    let n = shape.boundary().len();
    law_feature_is_cap(shape, dir, before);
    lemma_no_arc(shape, dir);
    let up = R::of_count(0).at_most(dir.y);
    let f = shape.support_feature(dir, before);
    lemma_is_cap(shape, dir);
    assert(f == shape.cap_face(before, dir));
    feature::lemma_cap_steps(n, k as nat);
    feature::lemma_cap_steps(n, l as nat);
    feature::law_cap_corners_differ(n, k as nat, l as nat, up);
    (
        feature::cap_index(n, k as nat, up) as int,
        feature::cap_index(n, l as nat, up) as int,
    )
}

proof fn lemma_is_cap<R: Lawful>(shape: ExtrudedProfile<R>, dir: Vector<R>)
    requires
        0 < shape.boundary().len() <= usize::MAX,
        dir.y.magnitude().at_most(dir.y.magnitude()),
        forall|j: int|
            is_edge(shape, j) ==> (#[trigger] facing_at(shape, dir, j)).at_most(
                dir.y.magnitude(),
            ),
    ensures
        shape.is_cap(dir),
{
    let poly = shape.boundary();
    let best = EdgeReach::of_loop(poly, dir.in_plane());
    lemma_picked(poly, dir.in_plane(), poly.len());
    R::law_infinities(dir.y.magnitude());
    let i = best.index as int;
    if best.dot != R::neg_infinity_value() {
        assert(is_edge(shape, i));
        assert(best.dot == facing_at(shape, dir, i));
    }
}

/// Where an arc takes the direction, the feature is the line along the sweep, from cap to cap, where
/// the first such arc touches: at its centre and a radius on.
pub proof fn law_feature_is_line<R: Lawful>(
    shape: ExtrudedProfile<R>,
    dir: Vector<R>,
    before: FeatureView<R>,
    unit: Vector2<R>,
    e: int,
) -> (a: int)
    requires
        before.vertices.len() == 4,
        before.vids.len() == 4,
        before.eids.len() == 4,
        takes(shape, dir, e),
        (Vector2 { x: dir.x, y: dir.z }).unit() == Some(unit),
    ensures
        takes(shape, dir, a),
        a <= e,
        forall|b: int| 0 <= b < a ==> !#[trigger] takes(shape, dir, b),
        ({
            let f = shape.support_feature(dir, before);
            let arc = shape.arcs@[a];
            let x = arc.center.x.plus(unit.x.times(arc.radius));
            let z = arc.center.y.plus(unit.y.times(arc.radius));
            &&& f.num_vertices == 2
            &&& f.vertices[0] == (Vector { x, y: shape.half_depth.negated(), z })
            &&& f.vertices[1] == (Vector { x, y: shape.half_depth, z })
            &&& f.vids[0] == PackedFeatureId::Vertex((ARC_CODE + 2 * a) as u32)
            &&& f.vids[1] == PackedFeatureId::Vertex((ARC_CODE + 2 * a + 1) as u32)
            &&& f.eids[0] == PackedFeatureId::Edge((ARC_CODE + a) as u32)
            &&& f.eids[1] == PackedFeatureId::Edge((ARC_CODE + a) as u32)
            &&& f.fid == PackedFeatureId::Face((ARC_CODE + a) as u32)
        }),
{
    assert(dir.in_plane() == (Vector2 { x: dir.x, y: dir.z }));
    feature::lemma_first_facing(shape.arcs@, unit.heading(), 0);
    let a = shape.side_arc(dir).unwrap();
    a as int
}

/// What the feature does not use is left as it was.
pub proof fn law_feature_leaves_rest<R: Lawful>(
    shape: ExtrudedProfile<R>,
    dir: Vector<R>,
    before: FeatureView<R>,
    k: int,
)
    requires
        before.vertices.len() == 4,
        before.vids.len() == 4,
        before.eids.len() == 4,
        shape.support_feature(dir, before).num_vertices <= k < 4,
    ensures
        ({
            let f = shape.support_feature(dir, before);
            &&& f.vertices[k] == before.vertices[k]
            &&& f.vids[k] == before.vids[k]
            &&& f.eids[k] == before.eids[k]
        }),
{
}

/// A shape without a boundary has no feature.
pub proof fn law_no_boundary_no_feature<R: Lawful>(
    shape: ExtrudedProfile<R>,
    dir: Vector<R>,
    before: FeatureView<R>,
)
    requires
        shape.profile@.len() == 0,
        shape.arcs@.len() == 0,
    ensures
        shape.support_feature(dir, before) == (FeatureView { num_vertices: 0, ..before }),
{
    reveal_with_fuel(feature::first_facing, 2);
}

} // verus!
